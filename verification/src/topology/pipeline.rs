//! The health of a pipeline.

use crate::topology::builder::{PipelineBuilder, DEFAULT_CAPACITY};
use vstd::prelude::*;

verus! {

/// How a stage is doing.
#[derive(Debug, Clone, Copy, PartialEq, Eq, Structural)]
pub enum StageStatus {
    Running,
    Completed,
    Panicked,
}

/// What the stages of a pipeline and its owner share: whether the stages have
/// to stop, and how each of them is doing.
pub struct Pipeline {
    shutdown: bool,
    statuses: Vec<StageStatus>,
}

/// A pipeline as contracts see it.
pub struct PipelineView {
    pub shutdown: bool,
    pub statuses: Seq<StageStatus>,
}

impl View for Pipeline {
    type V = PipelineView;

    closed spec fn view(&self) -> PipelineView {
        PipelineView { shutdown: self.shutdown, statuses: self.statuses@ }
    }
}

/// The positions of the stages that panicked, among the first `count`.
pub open spec fn panicked_among(statuses: Seq<StageStatus>, count: int) -> Seq<usize>
    decreases count,
{
    if count <= 0 {
        Seq::empty()
    } else {
        let rest = panicked_among(statuses, count - 1);
        if statuses[count - 1] is Panicked {
            rest.push((count - 1) as usize)
        } else {
            rest
        }
    }
}

impl Pipeline {
    /// Settings for a new pipeline.
    pub fn builder() -> (builder: PipelineBuilder)
        ensures
            builder@ == DEFAULT_CAPACITY,
            builder@ == 1024,
    {
        PipelineBuilder::new()
    }

    /// A pipeline without stages.
    pub fn new() -> (pipeline: Self)
        ensures
            pipeline@ == (PipelineView { shutdown: false, statuses: Seq::empty() }),
    {
        Pipeline { shutdown: false, statuses: Vec::new() }
    }

    /// A stage starts. Returns its position.
    pub fn start_stage(&mut self) -> (stage: usize)
        ensures
            stage == old(self)@.statuses.len(),
            final(self)@ == (PipelineView {
                shutdown: old(self)@.shutdown,
                statuses: old(self)@.statuses.push(StageStatus::Running),
            }),
    {
        let stage: usize = self.statuses.len();
        self.statuses.push(StageStatus::Running);
        stage
    }

    /// A stage has ended.
    pub fn end_stage(&mut self, stage: usize, panicked: bool)
        requires
            stage < old(self)@.statuses.len(),
        ensures
            final(self)@ == (PipelineView {
                shutdown: old(self)@.shutdown,
                statuses: old(self)@.statuses.update(
                    stage as int,
                    if panicked {
                        StageStatus::Panicked
                    } else {
                        StageStatus::Completed
                    },
                ),
            }),
    {
        self.statuses[stage] = if panicked {
            StageStatus::Panicked
        } else {
            StageStatus::Completed
        };
    }

    /// Ask all stages to stop.
    pub fn shutdown(&mut self)
        ensures
            final(self)@ == (PipelineView { shutdown: true, statuses: old(self)@.statuses }),
    {
        self.shutdown = true;
    }

    /// Whether the stages have to stop.
    pub fn is_shutdown(&self) -> (shutdown: bool)
        ensures
            shutdown == self@.shutdown,
    {
        self.shutdown
    }

    /// The positions of the stages that panicked, in order.
    pub fn panicked_stages(&self) -> (stages: Vec<usize>)
        ensures
            stages@ == panicked_among(self@.statuses, self@.statuses.len() as int),
            forall|i: int, j: int|
                0 <= i < j < stages@.len() ==> #[trigger] stages@[i] < #[trigger] stages@[j],
            forall|stage: usize| #[trigger]
                stages@.contains(stage) <==> stage < self@.statuses.len()
                    && self@.statuses[stage as int] is Panicked,
    {
        let mut stages: Vec<usize> = Vec::new();
        let mut i: usize = 0;
        while i < self.statuses.len()
            invariant
                i <= self.statuses@.len(),
                stages@ == panicked_among(self@.statuses, i as int),
            decreases self.statuses@.len() - i,
        {
            if let StageStatus::Panicked = self.statuses[i] {
                stages.push(i);
            }
            i += 1;
        }
        proof {
            lemma_panicked_in_order(self@.statuses, i as int);
            assert forall|stage: usize| #[trigger]
                stages@.contains(stage) <==> stage < self@.statuses.len()
                    && self@.statuses[stage as int] is Panicked by {
                lemma_panicked(self@.statuses, i as int, stage);
            }
        }
        stages
    }

    /// Whether all stages are running: none has panicked or ended.
    pub fn is_healthy(&self) -> (healthy: bool)
        ensures
            healthy == forall|i: int|
                0 <= i < self@.statuses.len() ==> #[trigger] self@.statuses[i] is Running,
    {
        let mut i: usize = 0;
        while i < self.statuses.len()
            invariant
                i <= self.statuses@.len(),
                forall|j: int| 0 <= j < i ==> #[trigger] self@.statuses[j] is Running,
            decreases self.statuses@.len() - i,
        {
            match self.statuses[i] {
                StageStatus::Running => {},
                _ => {
                    assert(!(self@.statuses[i as int] is Running));
                    return false;
                },
            }
            i += 1;
        }
        true
    }

    /// Number of stages.
    pub fn stage_count(&self) -> (count: usize)
        ensures
            count == self@.statuses.len(),
    {
        self.statuses.len()
    }
}

/// The stages that panicked are listed in order, each of them once.
pub proof fn lemma_panicked_in_order(statuses: Seq<StageStatus>, count: int)
    requires
        0 <= count <= statuses.len(),
        statuses.len() <= usize::MAX,
    ensures
        ({
            let stages = panicked_among(statuses, count);
            &&& forall|i: int| 0 <= i < stages.len() ==> #[trigger] stages[i] < count
            &&& forall|i: int, j: int|
                0 <= i < j < stages.len() ==> #[trigger] stages[i] < #[trigger] stages[j]
        }),
    decreases count,
{
    if count > 0 {
        lemma_panicked_in_order(statuses, count - 1);
        let rest = panicked_among(statuses, count - 1);
        let stages = panicked_among(statuses, count);
        assert forall|i: int| 0 <= i < stages.len() implies #[trigger] stages[i] < count by {
            if i < rest.len() {
                assert(stages[i] == rest[i]);
            }
        }
        assert forall|i: int, j: int| 0 <= i < j < stages.len() implies #[trigger] stages[i]
            < #[trigger] stages[j] by {
            assert(stages[i] == rest[i]);
            if j < rest.len() {
                assert(stages[j] == rest[j]);
            }
        }
    }
}

/// [`panicked_among`] lists exactly the stages that panicked.
pub proof fn lemma_panicked(statuses: Seq<StageStatus>, count: int, stage: usize)
    requires
        0 <= count <= statuses.len(),
        statuses.len() <= usize::MAX,
    ensures
        panicked_among(statuses, count).contains(stage) <==> stage < count
            && statuses[stage as int] is Panicked,
    decreases count,
{
    if count > 0 {
        lemma_panicked(statuses, count - 1, stage);
        let rest = panicked_among(statuses, count - 1);
        let all = panicked_among(statuses, count);
        if statuses[count - 1] is Panicked {
            assert(all == rest.push((count - 1) as usize));
            assert(all[rest.len() as int] == (count - 1) as usize);
            if rest.contains(stage) {
                let i = choose|i: int| 0 <= i < rest.len() && rest[i] == stage;
                assert(all[i] == stage);
            }
            if all.contains(stage) {
                let i = choose|i: int| 0 <= i < all.len() && all[i] == stage;
                if i < rest.len() {
                    assert(rest[i] == stage);
                }
            }
        }
    }
}

} // verus!
