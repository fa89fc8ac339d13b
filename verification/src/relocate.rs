//! The relocation step: outcome taxonomy, the decision machine the runner
//! steps through for one move, and the outcome-level laws of relocation over
//! a model of the filesystem.
//!
//! The runner owns the filesystem: it probes, creates directories and renames,
//! and feeds each observation back. Every decision between observations is
//! made here.

use vstd::prelude::*;
use crate::path::is_prefix_of;
use crate::plan::PlanModel;

verus! {

/// Why a move failed.
#[derive(Clone, Copy, Debug, PartialEq, Eq, Structural)]
pub enum FailReason {
    /// An ancestor directory of the destination could not be created.
    CreateAncestors,
    /// The rename itself failed (for one, a cross-device move); the source
    /// stays where it was.
    Rename,
}

/// The reported end of one planned move.
#[derive(Clone, Copy, Debug, PartialEq, Eq, Structural)]
pub enum Outcome {
    /// The source tree now stands at the destination.
    Moved,
    /// The destination already existed; nothing was touched.
    SkippedExists,
    /// A step failed; the source is untouched.
    Failed(FailReason),
}

/// Where a single move stands. The runner starts at `CheckingDestination`;
/// each non-final state names the one filesystem action to perform next, and
/// its observation drives the next step.
#[derive(Clone, Copy, Debug, PartialEq, Eq, Structural)]
pub enum RelocateState {
    /// Probe whether the destination already exists.
    CheckingDestination,
    /// Create the destination's missing ancestor directories.
    CreatingAncestors,
    /// Rename the source directory to the destination.
    Renaming,
    /// Nothing more to do; report the outcome.
    Finished(Outcome),
}

impl RelocateState {
    /// Feeds back the probe of the destination: an existing destination ends
    /// the move with nothing touched — the collision policy is never to
    /// overwrite and never to merge; otherwise ancestors are created next.
    pub fn destination_probed(self, exists: bool) -> (next: RelocateState)
        requires
            (self is CheckingDestination),
        ensures
            next == (if exists {
                RelocateState::Finished(Outcome::SkippedExists)
            } else {
                RelocateState::CreatingAncestors
            }),
    {
        if exists {
            RelocateState::Finished(Outcome::SkippedExists)
        } else {
            RelocateState::CreatingAncestors
        }
    }

    /// Feeds back the creation of ancestor directories: on failure the move
    /// ends, the source untouched; on success the rename is next.
    pub fn ancestors_created(self, ok: bool) -> (next: RelocateState)
        requires
            (self is CreatingAncestors),
        ensures
            next == (if ok {
                RelocateState::Renaming
            } else {
                RelocateState::Finished(Outcome::Failed(FailReason::CreateAncestors))
            }),
    {
        if ok {
            RelocateState::Renaming
        } else {
            RelocateState::Finished(Outcome::Failed(FailReason::CreateAncestors))
        }
    }

    /// Feeds back the rename: success reports `Moved`; failure reports it and
    /// leaves the source in place — a partial move is never silent.
    pub fn renamed(self, ok: bool) -> (next: RelocateState)
        requires
            (self is Renaming),
        ensures
            next == (if ok {
                RelocateState::Finished(Outcome::Moved)
            } else {
                RelocateState::Finished(Outcome::Failed(FailReason::Rename))
            }),
    {
        if ok {
            RelocateState::Finished(Outcome::Moved)
        } else {
            RelocateState::Finished(Outcome::Failed(FailReason::Rename))
        }
    }
}

/// The filesystem after the subtree at `src` is renamed to `dst`: every path
/// under `src` now stands at the same offset under `dst`, everything else is
/// untouched.
pub open spec fn move_subtree(
    fs: Set<Seq<Seq<u8>>>,
    src: Seq<Seq<u8>>,
    dst: Seq<Seq<u8>>,
) -> Set<Seq<Seq<u8>>> {
    Set::new(
        |p: Seq<Seq<u8>>|
            if is_prefix_of(dst, p) {
                fs.contains(src + p.subrange(dst.len() as int, p.len() as int))
            } else if is_prefix_of(src, p) {
                false
            } else {
                fs.contains(p)
            },
    )
}

/// One planned move run against a filesystem on which the primitive steps
/// succeed: if the destination exists the move is skipped and nothing
/// changes; otherwise the source subtree is renamed to the destination.
pub open spec fn spec_relocate(fs: Set<Seq<Seq<u8>>>, plan: PlanModel) -> (
    Set<Seq<Seq<u8>>>,
    Outcome,
) {
    if fs.contains(plan.destination) {
        (fs, Outcome::SkippedExists)
    } else {
        (move_subtree(fs, plan.source, plan.destination), Outcome::Moved)
    }
}

/// One planned move whose rename the environment makes fail: the outcome is
/// reported and the filesystem — the source in particular — is untouched.
pub open spec fn spec_relocate_env(fs: Set<Seq<Seq<u8>>>, plan: PlanModel, fail: bool) -> (
    Set<Seq<Seq<u8>>>,
    Outcome,
) {
    if fs.contains(plan.destination) {
        (fs, Outcome::SkippedExists)
    } else if fail {
        (fs, Outcome::Failed(FailReason::Rename))
    } else {
        (move_subtree(fs, plan.source, plan.destination), Outcome::Moved)
    }
}

/// A whole run: each plan in turn against the live filesystem, under the
/// environment's per-plan failures; one outcome per plan, in order.
pub open spec fn spec_run(fs: Set<Seq<Seq<u8>>>, plans: Seq<PlanModel>, fails: Seq<bool>) -> (
    Set<Seq<Seq<u8>>>,
    Seq<Outcome>,
)
    decreases plans.len(),
{
    if plans.len() == 0 {
        (fs, Seq::empty())
    } else {
        let step = spec_relocate_env(fs, plans[0], fails[0]);
        let rest = spec_run(step.0, plans.drop_first(), fails.drop_first());
        (rest.0, seq![step.1] + rest.1)
    }
}

/// Relocation is idempotent at the outcome level: on a filesystem holding the
/// source and not the destination, the move reports `Moved`; running the same
/// plan again reports `SkippedExists` and changes nothing — never a second
/// physical move, never a loss.
pub proof fn lemma_relocate_idempotent(fs: Set<Seq<Seq<u8>>>, plan: PlanModel)
    requires
        fs.contains(plan.source),
        !fs.contains(plan.destination),
    ensures
        spec_relocate(fs, plan).1 == Outcome::Moved,
        spec_relocate(spec_relocate(fs, plan).0, plan).1 == Outcome::SkippedExists,
        spec_relocate(spec_relocate(fs, plan).0, plan).0 == spec_relocate(fs, plan).0,
{
    let fs1 = spec_relocate(fs, plan).0;
    assert(is_prefix_of(plan.destination, plan.destination)) by {
        assert(plan.destination.subrange(0, plan.destination.len() as int) =~= plan.destination);
    }
    assert(plan.source + plan.destination.subrange(
        plan.destination.len() as int,
        plan.destination.len() as int,
    ) =~= plan.source);
    assert(fs1.contains(plan.destination));
}

/// A run reports exactly one outcome per plan: no failure aborts the rest.
pub proof fn lemma_run_complete(fs: Set<Seq<Seq<u8>>>, plans: Seq<PlanModel>, fails: Seq<bool>)
    ensures
        spec_run(fs, plans, fails).1.len() == plans.len(),
    decreases plans.len(),
{
    if plans.len() > 0 {
        let step = spec_relocate_env(fs, plans[0], fails[0]);
        lemma_run_complete(step.0, plans.drop_first(), fails.drop_first());
    }
}

/// A failed or skipped move leaves the filesystem exactly as it was: the
/// plans after it run as if it had never been attempted, so one repository's
/// failure neither prevents nor corrupts the processing of the others.
pub proof fn lemma_failure_isolated(
    fs: Set<Seq<Seq<u8>>>,
    plan: PlanModel,
    rest: Seq<PlanModel>,
    fail: bool,
    fails: Seq<bool>,
)
    requires
        fail || fs.contains(plan.destination),
    ensures
        spec_run(fs, seq![plan] + rest, seq![fail] + fails).1 == seq![
            spec_relocate_env(fs, plan, fail).1,
        ] + spec_run(fs, rest, fails).1,
        spec_run(fs, seq![plan] + rest, seq![fail] + fails).0 == spec_run(fs, rest, fails).0,
{
    let plans1 = seq![plan] + rest;
    let fails1 = seq![fail] + fails;
    assert(plans1[0] == plan);
    assert(fails1[0] == fail);
    assert(plans1.drop_first() =~= rest);
    assert(fails1.drop_first() =~= fails);
    assert(spec_relocate_env(fs, plan, fail).0 == fs);
}

} // verus!
