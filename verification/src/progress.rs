//! The checkpoint of the pipeline: which of its five stages are done.
//!
//! The stages run in a fixed order. A stage that the record marks done is
//! never run again; the first stage that is not done is the one to run.

use vstd::prelude::*;

verus! {

/// A stage of the pipeline, in the order in which they run.
#[derive(Clone, Copy, Debug, PartialEq, Eq, Structural)]
pub enum Stage {
    /// Configure the project.
    Cmake,
    /// Build it, recording every command.
    Remake,
    /// Extract the build metadata from the record.
    Cmaker,
    /// Compile every translation unit to bitcode.
    CompileToLlvm,
    /// Link the targets in dependency order.
    Linking,
}

/// The record of the stages that are done.
#[derive(Clone, Copy, Debug, PartialEq, Eq, Structural)]
pub struct Progress {
    pub cmake: bool,
    pub remake: bool,
    pub cmaker: bool,
    pub compile_to_llvm: bool,
    pub linking: bool,
}

/// A stage, unless it is done.
pub open spec fn unless_done(done: bool, stage: Stage) -> Seq<Stage> {
    if done {
        Seq::empty()
    } else {
        seq![stage]
    }
}

/// The five stages in the order in which they run.
pub open spec fn stage_order() -> Seq<Stage> {
    seq![Stage::Cmake, Stage::Remake, Stage::Cmaker, Stage::CompileToLlvm, Stage::Linking]
}

impl Progress {
    /// Whether the record marks a stage done.
    pub open spec fn done(&self, stage: Stage) -> bool {
        match stage {
            Stage::Cmake => self.cmake,
            Stage::Remake => self.remake,
            Stage::Cmaker => self.cmaker,
            Stage::CompileToLlvm => self.compile_to_llvm,
            Stage::Linking => self.linking,
        }
    }

    /// The record with one more stage marked done.
    pub open spec fn with_done(&self, stage: Stage) -> Progress {
        match stage {
            Stage::Cmake => Progress { cmake: true, ..*self },
            Stage::Remake => Progress { remake: true, ..*self },
            Stage::Cmaker => Progress { cmaker: true, ..*self },
            Stage::CompileToLlvm => Progress { compile_to_llvm: true, ..*self },
            Stage::Linking => Progress { linking: true, ..*self },
        }
    }

    /// The stages from position `k` of the order on that are still to
    /// run.
    pub open spec fn remaining_from(&self, k: int) -> Seq<Stage>
        decreases 5 - k,
    {
        if 0 <= k < 5 {
            unless_done(self.done(stage_order()[k]), stage_order()[k]) + self.remaining_from(k + 1)
        } else {
            Seq::empty()
        }
    }

    /// The stages still to run, in the order in which they run.
    pub open spec fn remaining(&self) -> Seq<Stage> {
        self.remaining_from(0)
    }

    /// The record of a pipeline that has not run: no stage is done.
    pub fn new() -> (fresh: Progress)
        ensures
            forall|stage: Stage| !fresh.done(stage),
            fresh.remaining() == stage_order(),
    {
        let fresh = Progress {
            cmake: false,
            remake: false,
            cmaker: false,
            compile_to_llvm: false,
            linking: false,
        };
        proof {
            reveal_with_fuel(Progress::remaining_from, 6);
            assert(fresh.remaining() =~= stage_order());
        }
        fresh
    }

    /// Whether a stage is done.
    pub fn is_done(&self, stage: Stage) -> (done: bool)
        ensures
            done == self.done(stage),
    {
        match stage {
            Stage::Cmake => self.cmake,
            Stage::Remake => self.remake,
            Stage::Cmaker => self.cmaker,
            Stage::CompileToLlvm => self.compile_to_llvm,
            Stage::Linking => self.linking,
        }
    }

    /// The stage to run next: the first one that is not done, or `None`
    /// when all are.
    pub fn next_stage(&self) -> (next: Option<Stage>)
        ensures
            next == (if self.remaining().len() == 0 {
                None
            } else {
                Some(self.remaining()[0])
            }),
            next is None <==> forall|stage: Stage| self.done(stage),
            next matches Some(stage) ==> !self.done(stage),
    {
        proof {
            reveal_with_fuel(Progress::remaining_from, 6);
            assert(self.remaining_from(5) =~= Seq::empty());
            assert(self.remaining_from(4) =~= unless_done(self.linking, Stage::Linking));
        }
        if !self.cmake {
            assert(!self.done(Stage::Cmake));
            Some(Stage::Cmake)
        } else if !self.remake {
            assert(!self.done(Stage::Remake));
            Some(Stage::Remake)
        } else if !self.cmaker {
            assert(!self.done(Stage::Cmaker));
            Some(Stage::Cmaker)
        } else if !self.compile_to_llvm {
            assert(!self.done(Stage::CompileToLlvm));
            Some(Stage::CompileToLlvm)
        } else if !self.linking {
            assert(!self.done(Stage::Linking));
            Some(Stage::Linking)
        } else {
            proof {
                assert forall|stage: Stage| self.done(stage) by {}
            }
            None
        }
    }

    /// Marks a stage done. Nothing else changes.
    pub fn complete(&mut self, stage: Stage)
        ensures
            *final(self) == old(self).with_done(stage),
            final(self).done(stage),
            forall|other: Stage| other != stage ==> final(self).done(other) == old(self).done(other),
    {
        match stage {
            Stage::Cmake => {
                self.cmake = true;
            },
            Stage::Remake => {
                self.remake = true;
            },
            Stage::Cmaker => {
                self.cmaker = true;
            },
            Stage::CompileToLlvm => {
                self.compile_to_llvm = true;
            },
            Stage::Linking => {
                self.linking = true;
            },
        }
    }

    /// The stages still to run, in the order in which they run.
    pub fn remaining_stages(&self) -> (stages: Vec<Stage>)
        ensures
            stages@ == self.remaining(),
    {
        let mut stages: Vec<Stage> = Vec::new();
        if !self.cmake {
            stages.push(Stage::Cmake);
        }
        if !self.remake {
            stages.push(Stage::Remake);
        }
        if !self.cmaker {
            stages.push(Stage::Cmaker);
        }
        if !self.compile_to_llvm {
            stages.push(Stage::CompileToLlvm);
        }
        if !self.linking {
            stages.push(Stage::Linking);
        }
        proof {
            reveal_with_fuel(Progress::remaining_from, 6);
            assert(stages@ =~= self.remaining());
        }
        stages
    }

    /// Whether the build directory is to be removed when the pipeline
    /// stops: it is when the project was never configured, since nothing
    /// in it can then be resumed.
    pub fn needs_cleanup(&self) -> (cleanup: bool)
        ensures
            cleanup == !self.done(Stage::Cmake),
    {
        !self.cmake
    }
}

/// The place of a stage in the order.
pub open spec fn position(stage: Stage) -> int {
    match stage {
        Stage::Cmake => 0,
        Stage::Remake => 1,
        Stage::Cmaker => 2,
        Stage::CompileToLlvm => 3,
        Stage::Linking => 4,
    }
}

/// From a position on, a stage is still to run exactly when it stands
/// there or later and is not done; marking an earlier stage changes
/// nothing.
proof fn lemma_remaining_from(p: Progress, k: int, stage: Stage)
    requires
        0 <= k <= 5,
    ensures
        p.remaining_from(k).contains(stage) <==> (position(stage) >= k && !p.done(stage)),
        position(stage) < k ==> p.with_done(stage).remaining_from(k) == p.remaining_from(k),
    decreases 5 - k,
{
    if k < 5 {
        let here = stage_order()[k];
        let head = unless_done(p.done(here), here);
        let tail = p.remaining_from(k + 1);
        lemma_remaining_from(p, k + 1, stage);
        assert(position(here) == k);
        if (head + tail).contains(stage) {
            let i = choose|i: int| 0 <= i < (head + tail).len() && (head + tail)[i] == stage;
            if i >= head.len() {
                assert(tail[i - head.len()] == stage);
            }
        }
        if position(stage) >= k && !p.done(stage) {
            if stage == here {
                assert((head + tail)[0] == stage);
            } else {
                let i = choose|i: int| 0 <= i < tail.len() && tail[i] == stage;
                assert((head + tail)[i + head.len()] == stage);
            }
        }
    }
}

/// Marking the first stage still to run leaves the others to run.
proof fn lemma_first_remaining(p: Progress, k: int)
    requires
        0 <= k <= 5,
        p.remaining_from(k).len() > 0,
    ensures
        p.with_done(p.remaining_from(k)[0]).remaining_from(k) == p.remaining_from(k).drop_first(),
    decreases 5 - k,
{
    let here = stage_order()[k];
    let first = p.remaining_from(k)[0];
    let q = p.with_done(first);
    assert(position(here) == k);
    if p.done(here) {
        assert(p.remaining_from(k) =~= p.remaining_from(k + 1));
        lemma_first_remaining(p, k + 1);
        assert(q.done(here));
        assert(q.remaining_from(k) =~= q.remaining_from(k + 1));
    } else {
        assert(first == here);
        lemma_remaining_from(p, k + 1, here);
        assert(q.remaining_from(k) =~= q.remaining_from(k + 1));
        assert(p.remaining_from(k).drop_first() =~= p.remaining_from(k + 1));
    }
}

/// A stage is among those still to run exactly when it is not done.
pub proof fn lemma_remaining_are_not_done(p: Progress, stage: Stage)
    ensures
        p.remaining().contains(stage) <==> !p.done(stage),
{
    lemma_remaining_from(p, 0, stage);
}

/// A pipeline that stops and starts again runs no stage twice: a stage
/// that the record marks done is not run again, whatever is marked done
/// afterwards, and once the next stage is marked done the stages still to
/// run are those that were to run after it.
pub proof fn lemma_resume(p: Progress, stage: Stage, later: Stage)
    requires
        p.done(stage),
    ensures
        !p.remaining().contains(stage),
        p.with_done(later).done(stage),
        !p.with_done(later).remaining().contains(stage),
        p.remaining().len() > 0 ==> p.with_done(p.remaining()[0]).remaining()
            == p.remaining().drop_first(),
{
    lemma_remaining_are_not_done(p, stage);
    lemma_remaining_are_not_done(p.with_done(later), stage);
    if p.remaining().len() > 0 {
        lemma_first_remaining(p, 0);
    }
}

/// A condition that ends the pipeline.
#[derive(Clone, Copy, Debug, PartialEq, Eq, Structural)]
pub enum Failure {
    /// The configuration could not be loaded.
    Config,
    /// The configure tool failed.
    Configure,
    /// The build tool failed, or its record could not be kept.
    Build,
    /// The checkpoint could not be read or created.
    Checkpoint,
    /// The metadata extractor failed, or its report could not be loaded.
    Extract,
    /// The directory for the compiled units could not be created.
    ObjectsDir,
    /// The directory for the compiled units could not be entered.
    CompileDir,
    /// A link failed.
    Link,
    /// The directory for the call graphs could not be created.
    GraphDir,
}

impl Failure {
    /// The exit status for each condition.
    pub open spec fn code(&self) -> i32 {
        match self {
            Failure::Config => 1,
            Failure::Configure => 3,
            Failure::Build => 4,
            Failure::Checkpoint => 5,
            Failure::Extract => 6,
            Failure::ObjectsDir => 10,
            Failure::CompileDir => 20,
            Failure::Link => 50,
            Failure::GraphDir => 100,
        }
    }

    /// The exit status of the process for this condition: never zero.
    pub fn exit_code(&self) -> (code: i32)
        ensures
            code == self.code(),
            code != 0,
    {
        match self {
            Failure::Config => 1,
            Failure::Configure => 3,
            Failure::Build => 4,
            Failure::Checkpoint => 5,
            Failure::Extract => 6,
            Failure::ObjectsDir => 10,
            Failure::CompileDir => 20,
            Failure::Link => 50,
            Failure::GraphDir => 100,
        }
    }
}

/// Different conditions have different exit statuses.
pub proof fn lemma_exit_codes_distinct(a: Failure, b: Failure)
    requires
        a != b,
    ensures
        a.code() != b.code(),
{
}

} // verus!
