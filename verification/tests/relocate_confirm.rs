use repoloc::confirm::is_affirmative;
use repoloc::relocate::FailReason;
use repoloc::relocate::Outcome;
use repoloc::relocate::RelocateState;

#[test]
fn move_skips_when_destination_exists() {
    let s = RelocateState::CheckingDestination;
    let s = s.destination_probed(true);
    assert_eq!(s, RelocateState::Finished(Outcome::SkippedExists));
}

#[test]
fn move_runs_to_completion() {
    let s = RelocateState::CheckingDestination;
    let s = s.destination_probed(false);
    assert_eq!(s, RelocateState::CreatingAncestors);
    let s = s.ancestors_created(true);
    assert_eq!(s, RelocateState::Renaming);
    let s = s.renamed(true);
    assert_eq!(s, RelocateState::Finished(Outcome::Moved));
}

#[test]
fn move_reports_ancestor_creation_failure() {
    let s = RelocateState::CheckingDestination.destination_probed(false);
    let s = s.ancestors_created(false);
    assert_eq!(s, RelocateState::Finished(Outcome::Failed(FailReason::CreateAncestors)));
}

#[test]
fn move_reports_rename_failure() {
    let s = RelocateState::CheckingDestination.destination_probed(false).ancestors_created(true);
    let s = s.renamed(false);
    assert_eq!(s, RelocateState::Finished(Outcome::Failed(FailReason::Rename)));
}

#[test]
fn second_run_on_same_plan_is_skipped() {
    // First run: destination absent, the move completes.
    let first = RelocateState::CheckingDestination
        .destination_probed(false)
        .ancestors_created(true)
        .renamed(true);
    assert_eq!(first, RelocateState::Finished(Outcome::Moved));
    // Second run: the destination now exists, so the probe ends the move
    // without touching anything.
    let second = RelocateState::CheckingDestination.destination_probed(true);
    assert_eq!(second, RelocateState::Finished(Outcome::SkippedExists));
}

#[test]
fn affirmative_accepts_yes_forms() {
    assert!(is_affirmative(&b"y".to_vec()));
    assert!(is_affirmative(&b"Y".to_vec()));
    assert!(is_affirmative(&b"yes".to_vec()));
    assert!(is_affirmative(&b"YES".to_vec()));
    assert!(is_affirmative(&b"Yes".to_vec()));
    assert!(is_affirmative(&b"  yes\n".to_vec()));
    assert!(is_affirmative(&b"y\r\n".to_vec()));
}

#[test]
fn decline_is_not_affirmative() {
    assert!(!is_affirmative(&b"n".to_vec()));
    assert!(!is_affirmative(&b"no".to_vec()));
    assert!(!is_affirmative(&b"".to_vec()));
    assert!(!is_affirmative(&b"\n".to_vec()));
    assert!(!is_affirmative(&b"yeah".to_vec()));
    assert!(!is_affirmative(&b"y e s".to_vec()));
    assert!(!is_affirmative(&b"yess".to_vec()));
}
