use git2ex::actions::{could_not_delete, discard_plan, no_identity, no_such_commit, not_a_repository, unstage_plan, DiscardPlan, UnstagePlan};

#[test]
fn unstage_resets_only_with_a_head_commit() {
    assert!(matches!(unstage_plan(true), UnstagePlan::ResetToHead));
    assert!(matches!(unstage_plan(false), UnstagePlan::RemoveFromIndex));
}

#[test]
fn discard_plans() {
    assert!(matches!(discard_plan(true, true), Ok(DiscardPlan::RestoreFromHead)));
    assert!(matches!(discard_plan(true, false), Ok(DiscardPlan::RestoreFromHead)));
    assert!(matches!(discard_plan(false, true), Ok(DiscardPlan::DeleteFromWorkdir)));
    match discard_plan(false, false) {
        Err(e) => assert_eq!(e, "bare repository"),
        Ok(_) => panic!("a repository without working directory cannot delete files"),
    }
}

#[test]
fn error_texts() {
    assert_eq!(not_a_repository("/tmp/x"), "not a git repository: /tmp/x");
    assert_eq!(no_such_commit("deadbeef"), "no such commit: deadbeef");
    assert_eq!(no_identity(), "no git identity configured (user.name / user.email)");
    assert_eq!(could_not_delete("a.txt", "permission denied"), "could not delete a.txt: permission denied");
}
