//! The processor cores that threads can be pinned to.
//!
//! Pinning itself is up to whoever has threads: the functions here are told how,
//! and decide which core it is done with.

use vstd::prelude::*;

verus! {

/// A processor core, by the number that the operating system gives it.
#[derive(Debug, Clone, Copy, PartialEq, Eq, Structural)]
pub struct CoreId(pub usize);

/// The numbers come in ascending order, none of them twice.
pub open spec fn ascending(ids: Seq<usize>) -> bool {
    forall|i: int, j: int| 0 <= i < j < ids.len() ==> #[trigger] ids[i] < #[trigger] ids[j]
}

/// The numbers of the cores in a list.
pub open spec fn core_numbers(cores: Seq<CoreId>) -> Seq<usize> {
    cores.map_values(|core: CoreId| core.0)
}

/// Calls `core_affinity2::get_core_ids`, which asks the operating system for the
/// cores of this process. It counts upwards and lists each core that is there, so
/// the numbers ascend. Which cores there are, how many, and whether the system
/// tells at all depends on the machine and is left unsaid.
#[verifier::external_body]
fn get_core_ids() -> (ids: Option<Vec<usize>>)
    ensures
        ids matches Some(found) ==> ascending(found@),
{
    match core_affinity2::get_core_ids() {
        Ok(ids) => Some(ids.into_iter().map(|id| id.0).collect()),
        Err(_) => None,
    }
}

/// The cores as plain numbers, seen as cores.
pub fn as_cores(ids: Option<Vec<usize>>) -> (cores: Vec<CoreId>)
    ensures
        match ids {
            Some(ids) => cores@ == ids@.map_values(|id: usize| CoreId(id)),
            None => cores@.len() == 0,
        },
{
    let mut cores: Vec<CoreId> = Vec::new();
    if let Some(ids) = &ids {
        let mut i: usize = 0;
        while i < ids.len()
            invariant
                i <= ids@.len(),
                cores@.len() == i,
                forall|j: int| 0 <= j < i ==> #[trigger] cores@[j] == CoreId(ids@[j]),
            decreases ids@.len() - i,
        {
            cores.push(CoreId(ids[i]));
            i += 1;
        }
        assert(cores@ =~= ids@.map_values(|id: usize| CoreId(id)));
    }
    cores
}

/// The cores that are available to this process, in the order of their numbers.
/// None if the operating system does not tell.
pub fn available_cores() -> (cores: Vec<CoreId>)
    ensures
        ascending(core_numbers(cores@)),
        forall|i: int, j: int|
            0 <= i < j < cores@.len() ==> (#[trigger] cores@[i]).0 < (#[trigger] cores@[j]).0,
{
    let ids = get_core_ids();
    let ghost found = ids;
    let cores = as_cores(ids);
    proof {
        let numbers = core_numbers(cores@);
        if found is Some {
            assert(numbers =~= found->0@);
        }
        assert forall|i: int, j: int| 0 <= i < j < cores@.len() implies (#[trigger] cores@[i]).0 < (
        #[trigger] cores@[j]).0 by {
            assert(numbers[i] < numbers[j]);
        }
    }
    cores
}

/// The core at a position of the list, if there is one.
pub fn pick_core(cores: &Vec<CoreId>, index: usize) -> (core: Option<CoreId>)
    ensures
        core == (if index < cores@.len() {
            Some(cores@[index as int])
        } else {
            None
        }),
{
    if index < cores.len() {
        Some(cores[index])
    } else {
        None
    }
}

/// What pinning to a position of a list comes to: the answer that `pin` gives for
/// the core at that position, and `false` beyond the list.
pub open spec fn pinned_among<F: FnOnce(CoreId) -> bool>(
    cores: Seq<CoreId>,
    index: int,
    pin: F,
    done: bool,
) -> bool {
    if index < cores.len() {
        pin.ensures((cores[index],), done)
    } else {
        !done
    }
}

/// Pin the current thread to the core at a position of a list. `pin` asks the
/// operating system. `false` if there is no such position, or `pin` answers so.
pub fn pin_among<F: FnOnce(CoreId) -> bool>(cores: &Vec<CoreId>, index: usize, pin: F) -> (done:
    bool)
    requires
        index < cores@.len() ==> pin.requires((cores@[index as int],)),
    ensures
        pinned_among(cores@, index as int, pin, done),
        index < cores@.len() ==> pin.ensures((cores@[index as int],), done),
        index >= cores@.len() ==> !done,
{
    match pick_core(cores, index) {
        Some(core) => pin(core),
        None => false,
    }
}

/// Pin the current thread to the core at a position of [`available_cores`]. `pin`
/// asks the operating system. `false` if there is no such position, or `pin`
/// answers so.
pub fn pin_to_core_id<F: FnOnce(CoreId) -> bool>(index: usize, pin: F) -> (done: bool)
    requires
        forall|core: CoreId| #[trigger] pin.requires((core,)),
    ensures
        exists|cores: Seq<CoreId>|
            ascending(core_numbers(cores)) && #[trigger] pinned_among(
                cores,
                index as int,
                pin,
                done,
            ),
{
    let cores = available_cores();
    pin_among(&cores, index, pin)
}

/// The answer for a position of a list is the one for the core there, and there is no
/// core beyond the list.
pub proof fn lemma_pinned_among<F: FnOnce(CoreId) -> bool>(
    cores: Seq<CoreId>,
    index: int,
    pin: F,
    done: bool,
)
    requires
        pinned_among(cores, index, pin, done),
        ascending(core_numbers(cores)),
        0 <= index,
    ensures
        done ==> index < cores.len() && pin.ensures((cores[index],), true),
        index < cores.len() ==> pin.ensures((cores[index],), done),
        forall|i: int, j: int|
            0 <= i < j < cores.len() ==> (#[trigger] cores[i]).0 < (#[trigger] cores[j]).0,
{
    let numbers = core_numbers(cores);
    assert forall|i: int, j: int| 0 <= i < j < cores.len() implies (#[trigger] cores[i]).0 < (
    #[trigger] cores[j]).0 by {
        assert(numbers[i] < numbers[j]);
    }
}

/// How many cores a list holds.
pub fn count_cores(cores: &Vec<CoreId>) -> (count: usize)
    ensures
        count == cores@.len(),
{
    cores.len()
}

/// Number of cores that are available to this process.
pub fn core_count() -> (count: usize)
    ensures
        exists|cores: Seq<CoreId>|
            count == cores.len() && ascending(#[trigger] core_numbers(cores)),
{
    let cores = available_cores();
    assert(ascending(core_numbers(cores@)));
    count_cores(&cores)
}

} // verus!
