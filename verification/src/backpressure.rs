//! Cursor trackers and the gates they put in front of a publisher.

use vstd::prelude::*;

verus! {

/// A handle to one cursor cell of a ring: the next sequence that its
/// subscriber will read.
#[derive(Clone, Copy)]
pub struct Tracker {
    pub(crate) cell: usize,
}

impl View for Tracker {
    type V = int;

    open(crate) spec fn view(&self) -> int {
        self.cell as int
    }
}

/// The cursor cells of a ring.
pub struct TrackerTable {
    pub(crate) cells: Vec<u64>,
}

impl View for TrackerTable {
    type V = Seq<u64>;

    open(crate) spec fn view(&self) -> Seq<u64> {
        self.cells@
    }
}

impl TrackerTable {
    /// A table without cells.
    pub fn new() -> (table: Self)
        ensures
            table@ == Seq::<u64>::empty(),
    {
        TrackerTable { cells: Vec::new() }
    }

    /// Add a cell that starts at `initial`.
    pub fn register(&mut self, initial: u64) -> (tracker: Tracker)
        ensures
            tracker@ == old(self)@.len(),
            final(self)@ == old(self)@.push(initial),
    {
        let cell: usize = self.cells.len();
        self.cells.push(initial);
        Tracker { cell }
    }

    /// The position that a tracker shows.
    pub fn load(&self, tracker: Tracker) -> (position: u64)
        requires
            0 <= tracker@ < self@.len(),
        ensures
            position == self@[tracker@],
    {
        self.cells[tracker.cell]
    }

    /// Move a tracker to `position`.
    pub fn store(&mut self, tracker: Tracker, position: u64)
        requires
            0 <= tracker@ < old(self)@.len(),
        ensures
            final(self)@ == old(self)@.update(tracker@, position),
    {
        self.cells[tracker.cell] = position;
    }
}

/// One subscriber that the publisher has to wait for while it is live.
#[derive(Clone, Copy)]
pub struct Gate {
    pub(crate) tracker: Tracker,
    pub(crate) live: bool,
}

/// A gate as contracts see it: the cell it watches, and whether its
/// subscriber still exists.
pub struct GateView {
    pub cell: int,
    pub live: bool,
}

impl View for Gate {
    type V = GateView;

    open(crate) spec fn view(&self) -> GateView {
        GateView { cell: self.tracker@, live: self.live }
    }
}

/// The lowest position among the live gates, if there is a live gate.
pub open spec fn slowest(gates: Seq<GateView>, cells: Seq<u64>) -> Option<u64>
    decreases gates.len(),
{
    if gates.len() == 0 {
        None
    } else {
        let rest = slowest(gates.drop_last(), cells);
        let gate = gates.last();
        if !gate.live {
            rest
        } else {
            match rest {
                Some(m) if m <= cells[gate.cell] => rest,
                _ => Some(cells[gate.cell]),
            }
        }
    }
}

/// The gates whose subscribers still exist.
pub open spec fn live_gates(gates: Seq<GateView>) -> Seq<GateView> {
    gates.filter(|gate: GateView| gate.live)
}

/// The gates after the subscriber on `cell` has gone.
pub open spec fn release_gates(gates: Seq<GateView>, cell: int) -> Seq<GateView> {
    gates.map_values(
        |gate: GateView| GateView { cell: gate.cell, live: gate.live && gate.cell != cell },
    )
}

/// Every gate watches a cell of the table.
pub open spec fn gates_within(gates: Seq<GateView>, cells: Seq<u64>) -> bool {
    forall|i: int| 0 <= i < gates.len() ==> 0 <= (#[trigger] gates[i]).cell < cells.len()
}

/// [`slowest`] is what its name says: nothing without a live gate, otherwise
/// the position of a live gate that no other live gate is behind.
pub proof fn lemma_slowest(gates: Seq<GateView>, cells: Seq<u64>)
    ensures
        match slowest(gates, cells) {
            None => forall|i: int| 0 <= i < gates.len() ==> !(#[trigger] gates[i]).live,
            Some(m) => {
                &&& exists|i: int|
                    0 <= i < gates.len() && (#[trigger] gates[i]).live && cells[gates[i].cell] == m
                &&& forall|i: int|
                    0 <= i < gates.len() && (#[trigger] gates[i]).live ==> m
                        <= cells[gates[i].cell]
            },
        },
    decreases gates.len(),
{
    if gates.len() > 0 {
        let front = gates.drop_last();
        lemma_slowest(front, cells);
        assert(forall|i: int| 0 <= i < front.len() ==> front[i] == #[trigger] gates[i]);
        let last = gates.len() - 1;
        assert(gates[last] == gates.last());
        if let Some(m) = slowest(front, cells) {
            let w = choose|i: int|
                0 <= i < front.len() && (#[trigger] front[i]).live && cells[front[i].cell] == m;
            assert(gates[w].live);
        }
    }
}

/// Dropping dead gates does not change who is slowest.
pub proof fn lemma_slowest_of_live(gates: Seq<GateView>, cells: Seq<u64>)
    ensures
        slowest(live_gates(gates), cells) == slowest(gates, cells),
        gates_within(gates, cells) ==> gates_within(live_gates(gates), cells),
    decreases gates.len(),
{
    reveal(Seq::filter);
    if gates.len() > 0 {
        let front = gates.drop_last();
        lemma_slowest_of_live(front, cells);
        if gates.last().live {
            assert(live_gates(gates).drop_last() =~= live_gates(front));
        }
        if gates_within(gates, cells) {
            assert forall|i: int| 0 <= i < front.len() implies 0 <= (#[trigger] front[i]).cell
                < cells.len() by {
                assert(front[i] == gates[i]);
            }
            assert(0 <= gates[gates.len() - 1].cell < cells.len());
        }
    }
}

/// The live gates are those of the gates that are live.
pub proof fn lemma_filter_gates(gates: Seq<GateView>)
    ensures
        forall|g: GateView| #[trigger]
            live_gates(gates).contains(g) <==> gates.contains(g) && g.live,
    decreases gates.len(),
{
    reveal(Seq::filter);
    if gates.len() > 0 {
        let front = gates.drop_last();
        let last = gates.last();
        lemma_filter_gates(front);
        assert forall|g: GateView| #[trigger]
            live_gates(gates).contains(g) <==> gates.contains(g) && g.live by {
            if gates.contains(g) {
                let i = choose|i: int| 0 <= i < gates.len() && gates[i] == g;
                if i < front.len() {
                    assert(front[i] == g);
                    assert(front.contains(g));
                }
            }
            if front.contains(g) {
                let i = choose|i: int| 0 <= i < front.len() && front[i] == g;
                assert(gates[i] == g);
            }
            assert(gates[gates.len() - 1] == last);
            let kept = live_gates(front);
            if last.live {
                assert(live_gates(gates) =~= kept.push(last));
                if kept.contains(g) {
                    let j = choose|j: int| 0 <= j < kept.len() && kept[j] == g;
                    assert(live_gates(gates)[j] == g);
                }
                assert(live_gates(gates)[kept.len() as int] == last);
                if live_gates(gates).contains(g) {
                    let j = choose|j: int| 0 <= j < live_gates(gates).len() && live_gates(gates)[j]
                        == g;
                    if j < kept.len() {
                        assert(kept[j] == g);
                    }
                }
            }
        }
    }
}

/// A subscriber that is gone leaves its gate dead, and every other gate as it is.
pub proof fn lemma_release_gates(gates: Seq<GateView>, cell: int)
    ensures
        release_gates(gates, cell).len() == gates.len(),
        forall|i: int|
            0 <= i < gates.len() ==> {
                let now = #[trigger] release_gates(gates, cell)[i];
                &&& now.cell == gates[i].cell
                &&& gates[i].cell == cell ==> !now.live
                &&& gates[i].cell != cell ==> now.live == gates[i].live
            },
{
}

/// Backpressure settings of a bounded ring.
pub struct BackpressureState {
    /// Slots of headroom between the publisher and the slowest subscriber.
    pub(crate) watermark: u64,
    pub(crate) gates: Vec<Gate>,
}

/// Backpressure settings as contracts see them.
#[verifier::ext_equal]
pub struct BackpressureView {
    pub watermark: nat,
    pub gates: Seq<GateView>,
}

/// The gates of a vector, seen through their views.
pub open spec fn gate_views(gates: Seq<Gate>) -> Seq<GateView> {
    gates.map_values(|gate: Gate| gate@)
}

impl View for BackpressureState {
    type V = BackpressureView;

    open(crate) spec fn view(&self) -> BackpressureView {
        BackpressureView { watermark: self.watermark as nat, gates: gate_views(self.gates@) }
    }
}

impl BackpressureState {
    /// Settings without any subscriber.
    pub fn new(watermark: u64) -> (state: Self)
        ensures
            state@ == (BackpressureView { watermark: watermark as nat, gates: Seq::empty() }),
    {
        let state = BackpressureState { watermark, gates: Vec::new() };
        assert(gate_views(state.gates@) =~= Seq::empty());
        state
    }

    /// Add a live gate for `tracker`.
    pub fn add(&mut self, tracker: Tracker)
        ensures
            final(self)@ == (BackpressureView {
                watermark: old(self)@.watermark,
                gates: old(self)@.gates.push(GateView { cell: tracker@, live: true }),
            }),
    {
        self.gates.push(Gate { tracker, live: true });
        assert(gate_views(self.gates@) =~= gate_views(old(self).gates@).push(
            GateView { cell: tracker@, live: true },
        ));
    }

    /// Note that the subscriber behind `tracker` is gone: it holds nobody back any more.
    pub fn release(&mut self, tracker: Tracker)
        ensures
            final(self)@ == (BackpressureView {
                watermark: old(self)@.watermark,
                gates: release_gates(old(self)@.gates, tracker@),
            }),
    {
        let ghost before = self.gates@;
        let mut i: usize = 0;
        while i < self.gates.len()
            invariant
                i <= self.gates.len(),
                self.gates.len() == before.len(),
                self.watermark == old(self).watermark,
                forall|j: int|
                    0 <= j < i ==> (#[trigger] self.gates@[j])@ == (GateView {
                        cell: before[j]@.cell,
                        live: before[j]@.live && before[j]@.cell != tracker@,
                    }),
                forall|j: int| i <= j < before.len() ==> #[trigger] self.gates@[j] == before[j],
            decreases self.gates.len() - i,
        {
            let gate = self.gates[i];
            if gate.tracker.cell == tracker.cell {
                self.gates[i] = Gate { tracker: gate.tracker, live: false };
            }
            i += 1;
        }
        assert(gate_views(self.gates@) =~= release_gates(gate_views(before), tracker@));
    }

    /// Scan the gates: drop the dead ones and report the slowest position.
    pub fn scan(&mut self, table: &TrackerTable) -> (slowest_position: Option<u64>)
        requires
            gates_within(old(self)@.gates, table@),
        ensures
            slowest_position == slowest(old(self)@.gates, table@),
            final(self)@ == (BackpressureView {
                watermark: old(self)@.watermark,
                gates: live_gates(old(self)@.gates),
            }),
    {
        let ghost views = self@.gates;
        let mut kept: Vec<Gate> = Vec::new();
        let mut min: u64 = u64::MAX;
        let mut has_live = false;
        let mut i: usize = 0;
        assert(gate_views(kept@) =~= Seq::empty());
        assert(views.take(0) =~= Seq::empty());
        proof {
            reveal(Seq::filter);
        }
        while i < self.gates.len()
            invariant
                i <= self.gates.len(),
                *self == *old(self),
                views == self@.gates,
                views.len() == self.gates.len(),
                gates_within(views, table@),
                gate_views(kept@) == live_gates(views.take(i as int)),
                has_live == (slowest(views.take(i as int), table@) is Some),
                has_live ==> slowest(views.take(i as int), table@) == Some(min),
                !has_live ==> min == u64::MAX,
            decreases self.gates.len() - i,
        {
            let gate = self.gates[i];
            let ghost seen = views.take(i as int + 1);
            proof {
                reveal(Seq::filter);
                assert(seen.drop_last() =~= views.take(i as int));
                assert(seen.last() == views[i as int]);
                assert(views[i as int] == gate@);
            }
            if gate.live {
                let val: u64 = table.load(gate.tracker);
                if val < min {
                    min = val;
                }
                has_live = true;
                let ghost before = kept@;
                kept.push(gate);
                assert(gate_views(kept@) =~= gate_views(before).push(gate@));
            }
            i += 1;
        }
        assert(views.take(views.len() as int) =~= views);
        self.gates = kept;
        if has_live {
            Some(min)
        } else {
            None
        }
    }
}

} // verus!
