use vbranches::error::EngineError;
use vbranches::hunk::Hunk;
use vbranches::ledger::{Claim, Ledger};
use vbranches::user::User;
use vbranches::workspace::{IntegrationResult, Mode, VirtualBranch, Workspace};

fn hunk(path: u64, start: u64, end: u64, hash: u64) -> Hunk {
    Hunk { path, start, end, hash }
}

fn branch<'a>(ws: &'a Workspace, id: u64) -> &'a VirtualBranch {
    ws.branches.iter().find(|b| b.id == id).unwrap()
}

fn commit_ids(ws: &Workspace, id: u64) -> Vec<u64> {
    branch(ws, id).commits.iter().map(|c| c.id).collect()
}

/// A workspace on upstream commit 100 with branch `a` and branch `b`, and the
/// diff `diff` reconciled into the ledger.
fn setup(diff: Vec<Hunk>) -> (Workspace, u64, u64) {
    let mut ws = Workspace::new(100);
    let a = ws.create_branch("a".to_string()).unwrap();
    let b = ws.create_branch("b".to_string()).unwrap();
    ws.reconcile(&diff).unwrap();
    (ws, a, b)
}

/// Branch `a` with three commits, each of one hunk in files 1, 2 and 3.
fn three_commits() -> (Workspace, u64, Vec<u64>) {
    let h1 = hunk(1, 0, 10, 11);
    let h2 = hunk(2, 0, 10, 12);
    let h3 = hunk(3, 0, 10, 13);
    let (mut ws, a, _) = setup(vec![h1, h2, h3]);
    let mut ids = Vec::new();
    for h in [h1, h2, h3] {
        ws.claim_hunk(h, a, false).unwrap();
        ids.push(ws.commit(a, format!("c{}", h.path), &vec![h]).unwrap());
    }
    (ws, a, ids)
}

#[test]
fn commit_moves_selected_hunks_into_one_commit() {
    let (h1, h2, h3) = (hunk(1, 0, 5, 1), hunk(1, 10, 15, 2), hunk(2, 0, 3, 3));
    let (mut ws, a, b) = setup(vec![h1, h2, h3]);
    ws.claim_hunk(h1, a, false).unwrap();
    ws.claim_hunk(h2, a, false).unwrap();
    ws.claim_hunk(h3, b, false).unwrap();
    let id = ws.commit(a, "msg".to_string(), &vec![h1, h2]).unwrap();
    let ba = branch(&ws, a);
    assert_eq!(ba.commits.len(), 1);
    assert_eq!(ba.commits[0].id, id);
    assert_eq!(ba.commits[0].message, "msg");
    assert_eq!(ba.commits[0].parent, 100);
    assert_eq!(ba.commits[0].changes, vec![h1, h2]);
    assert!(ws.owned_hunks(a).is_empty());
    assert_eq!(ws.owned_hunks(b), vec![h3]);
    assert!(branch(&ws, b).commits.is_empty());
}

#[test]
fn amend_rewrites_the_commit_and_those_above() {
    let (mut ws, a, ids) = three_commits();
    let h4 = hunk(4, 0, 10, 14);
    ws.reconcile(&vec![h4]).unwrap();
    ws.claim_hunk(h4, a, false).unwrap();
    ws.amend(a, ids[1], &vec![h4]).unwrap();
    let cs = &branch(&ws, a).commits;
    assert_eq!(cs[0].id, ids[0]);
    assert_ne!(cs[1].id, ids[1]);
    assert_ne!(cs[2].id, ids[2]);
    assert_eq!(cs[1].change_ref, ids[1]);
    assert_eq!(cs[2].change_ref, ids[2]);
    assert_eq!(cs[1].parent, ids[0]);
    assert_eq!(cs[2].parent, cs[1].id);
    assert!(cs[1].changes.contains(&h4));
    assert!(ws.owned_hunks(a).is_empty());
}

#[test]
fn amend_conflict_leaves_stack_unchanged() {
    let (mut ws, a, ids) = three_commits();
    let h = hunk(3, 5, 8, 99);
    ws.reconcile(&vec![h]).unwrap();
    ws.claim_hunk(h, a, false).unwrap();
    let before: Vec<(u64, Vec<Hunk>)> = branch(&ws, a).commits.iter().map(|c| (c.id, c.changes.clone())).collect();
    assert_eq!(ws.amend(a, ids[0], &vec![h]), Err(EngineError::RewriteConflict { commit_id: ids[2] }));
    let after: Vec<(u64, Vec<Hunk>)> = branch(&ws, a).commits.iter().map(|c| (c.id, c.changes.clone())).collect();
    assert_eq!(before, after);
    assert_eq!(ws.owned_hunks(a), vec![h]);
}

#[test]
fn restore_snapshot_brings_back_the_recorded_state() {
    let (mut ws, a, ids) = three_commits();
    let ledger_before: Vec<Claim> = ws.ledger.entries.clone();
    let ids_before = commit_ids(&ws, a);
    let s = ws.snapshots.len() as u64;
    ws.insert_blank(a, 0).unwrap();
    ws.mark_pushed(a).unwrap();
    let h = hunk(9, 0, 1, 9);
    ws.reconcile(&vec![h]).unwrap();
    assert_ne!(commit_ids(&ws, a), ids_before);
    ws.restore_snapshot(s).unwrap();
    assert_eq!(ws.ledger.entries, ledger_before);
    assert_eq!(commit_ids(&ws, a), ids_before);
    let listed = ws.list_snapshots();
    assert_eq!(listed[0], s + 3);
    assert_ne!(listed[0], s);
}

#[test]
fn claim_then_release_keeps_ownership() {
    let h = hunk(1, 0, 4, 7);
    let (mut ws, a, b) = setup(vec![h]);
    let before: Vec<Option<u64>> = ws.ledger.entries.iter().map(|c| c.owner).collect();
    ws.claim_hunk(h, a, false).unwrap();
    assert_eq!(ws.ledger.entries[0].owner, Some(a));
    assert_eq!(ws.claim_hunk(h, b, false), Err(EngineError::OwnershipConflict));
    ws.release_hunk(h).unwrap();
    let after: Vec<Option<u64>> = ws.ledger.entries.iter().map(|c| c.owner).collect();
    assert_eq!(before, after);
}

#[test]
fn forced_claim_takes_the_hunk() {
    let h = hunk(1, 0, 4, 7);
    let (mut ws, a, b) = setup(vec![h]);
    ws.claim_hunk(h, a, false).unwrap();
    ws.claim_hunk(h, b, true).unwrap();
    assert_eq!(ws.owned_hunks(b), vec![h]);
    assert!(ws.owned_hunks(a).is_empty());
    assert_eq!(ws.claim_hunk(hunk(5, 0, 1, 0), a, false), Err(EngineError::HunkNotFound));
    assert_eq!(ws.release_hunk(hunk(5, 0, 1, 0)), Err(EngineError::HunkNotFound));
    assert_eq!(ws.claim_hunk(h, 999, false), Err(EngineError::BranchNotFound));
}

#[test]
fn reconcile_keeps_exact_and_overlapping_claims() {
    let h = hunk(1, 0, 10, 1);
    let g = hunk(2, 0, 10, 2);
    let (mut ws, a, b) = setup(vec![h, g]);
    ws.claim_hunk(h, a, false).unwrap();
    ws.claim_hunk(g, b, false).unwrap();
    let moved = hunk(1, 5, 15, 3);
    let fresh = hunk(7, 0, 2, 4);
    let lost = ws.reconcile(&vec![g, moved, fresh, moved]).unwrap();
    assert_eq!(lost, Vec::<Hunk>::new());
    assert_eq!(ws.ledger.entries.len(), 3);
    assert_eq!(ws.owned_hunks(a), vec![moved]);
    assert_eq!(ws.owned_hunks(b), vec![g]);
    let lost = ws.reconcile(&vec![fresh]).unwrap();
    assert_eq!(lost.len(), 2);
    assert!(lost.contains(&moved) && lost.contains(&g));
    assert_eq!(ws.ledger.entries.len(), 1);
    assert_eq!(ws.ledger.entries[0].owner, None);
}

#[test]
fn reconcile_prefers_most_recent_claim() {
    let x = hunk(1, 0, 10, 1);
    let y = hunk(1, 20, 30, 2);
    let (mut ws, a, b) = setup(vec![x, y]);
    ws.claim_hunk(y, b, false).unwrap();
    ws.claim_hunk(x, a, false).unwrap();
    let wide = hunk(1, 5, 25, 3);
    ws.reconcile(&vec![wide]).unwrap();
    assert_eq!(ws.owned_hunks(a), vec![wide]);
}

#[test]
fn commit_then_undo_restores_owned_hunks() {
    let (h1, h2, h3) = (hunk(1, 0, 5, 1), hunk(1, 10, 15, 2), hunk(2, 0, 3, 3));
    let (mut ws, a, _) = setup(vec![h1, h2, h3]);
    for h in [h1, h2, h3] {
        ws.claim_hunk(h, a, false).unwrap();
    }
    let mut before = ws.owned_hunks(a);
    let id = ws.commit(a, "m".to_string(), &vec![h1, h3]).unwrap();
    assert_eq!(ws.owned_hunks(a), vec![h2]);
    ws.undo_commit(a, id).unwrap();
    let mut after = ws.owned_hunks(a);
    before.sort_by_key(|h| (h.path, h.start));
    after.sort_by_key(|h| (h.path, h.start));
    assert_eq!(before, after);
    assert!(branch(&ws, a).commits.is_empty());
}

#[test]
fn commit_errors() {
    let h = hunk(1, 0, 5, 1);
    let (mut ws, a, b) = setup(vec![h]);
    assert_eq!(ws.commit(a, "m".to_string(), &vec![]), Err(EngineError::NothingToCommit));
    assert_eq!(ws.commit(a, "m".to_string(), &vec![h]), Err(EngineError::OwnershipConflict));
    assert_eq!(ws.commit(77, "m".to_string(), &vec![h]), Err(EngineError::BranchNotFound));
    ws.claim_hunk(h, b, false).unwrap();
    ws.fetch_and_check(200, 100, 1).unwrap();
    assert_eq!(ws.commit(b, "m".to_string(), &vec![h]), Err(EngineError::DirtyBaseConflict));
}

#[test]
fn squash_combines_adjacent_commits() {
    let (mut ws, a, ids) = three_commits();
    ws.squash(a, ids[2], ids[1], None).unwrap();
    let cs = &branch(&ws, a).commits;
    assert_eq!(cs.len(), 2);
    assert_eq!(cs[0].id, ids[0]);
    assert_eq!(cs[1].change_ref, ids[1]);
    assert_eq!(cs[1].message, "c2");
    assert_eq!(cs[1].changes, vec![hunk(2, 0, 10, 12), hunk(3, 0, 10, 13)]);
    let first = cs[0].id;
    assert_eq!(ws.squash(a, first, 12345, None), Err(EngineError::CommitNotFound));
}

#[test]
fn squash_with_message_and_far_commit() {
    let (mut ws, a, ids) = three_commits();
    assert_eq!(ws.squash(a, ids[0], ids[2], None), Err(EngineError::InvalidPosition));
    ws.squash(a, ids[0], ids[1], Some("both".to_string())).unwrap();
    let cs = &branch(&ws, a).commits;
    assert_eq!(cs[0].message, "both");
    assert_eq!(cs[0].parent, 100);
    assert_eq!(cs[1].parent, cs[0].id);
}

#[test]
fn reorder_moves_independent_commits() {
    let (mut ws, a, ids) = three_commits();
    ws.reorder(a, ids[2], 0).unwrap();
    let cs = &branch(&ws, a).commits;
    let refs: Vec<u64> = cs.iter().map(|c| c.change_ref).collect();
    assert_eq!(refs, vec![ids[2], ids[0], ids[1]]);
    assert_eq!(cs[0].parent, 100);
    let first = cs[0].id;
    assert_eq!(ws.reorder(a, first, 3), Err(EngineError::InvalidPosition));
}

#[test]
fn reorder_refuses_dependent_commits() {
    let h1 = hunk(1, 0, 10, 1);
    let (mut ws, a, _) = setup(vec![h1]);
    ws.claim_hunk(h1, a, false).unwrap();
    let c1 = ws.commit(a, "one".to_string(), &vec![h1]).unwrap();
    let h2 = hunk(1, 5, 12, 2);
    ws.reconcile(&vec![h2]).unwrap();
    ws.claim_hunk(h2, a, true).unwrap();
    let c2 = ws.commit(a, "two".to_string(), &vec![h2]).unwrap();
    assert_eq!(ws.reorder(a, c2, 0), Err(EngineError::DependencyConflict));
    assert_eq!(commit_ids(&ws, a), vec![c1, c2]);
}

#[test]
fn insert_blank_and_move_file() {
    let (mut ws, a, ids) = three_commits();
    assert_eq!(ws.insert_blank(a, 4), Err(EngineError::InvalidPosition));
    ws.insert_blank(a, 1).unwrap();
    let cs = &branch(&ws, a).commits;
    assert_eq!(cs.len(), 4);
    assert!(cs[1].changes.is_empty());
    assert_eq!(cs[0].id, ids[0]);
    let (first, last) = (cs[0].id, cs[3].id);
    assert_eq!(ws.move_commit_file(a, first, 9, last), Err(EngineError::PathNotFound));
    ws.move_commit_file(a, first, 1, last).unwrap();
    let cs = &branch(&ws, a).commits;
    assert!(cs[0].changes.is_empty());
    assert_eq!(cs[3].changes, vec![hunk(3, 0, 10, 13), hunk(1, 0, 10, 11)]);
    assert_eq!(cs[3].change_ref, ids[2]);
}

#[test]
fn move_file_conflict_is_all_or_nothing() {
    let h1 = hunk(1, 0, 10, 1);
    let (mut ws, a, _) = setup(vec![h1]);
    ws.claim_hunk(h1, a, false).unwrap();
    let c1 = ws.commit(a, "one".to_string(), &vec![h1]).unwrap();
    let h2 = hunk(1, 2, 4, 2);
    ws.reconcile(&vec![h2]).unwrap();
    ws.claim_hunk(h2, a, true).unwrap();
    let c2 = ws.commit(a, "two".to_string(), &vec![h2]).unwrap();
    ws.insert_blank(a, 2).unwrap();
    let ids = commit_ids(&ws, a);
    assert_eq!(ws.move_commit_file(a, ids[0], 1, ids[2]), Err(EngineError::RewriteConflict { commit_id: ids[1] }));
    assert_eq!(commit_ids(&ws, a), ids);
    assert_eq!(ids[0], c1);
    assert_eq!(ids[1], c2);
}

#[test]
fn undo_refuses_when_later_commits_depend() {
    let h1 = hunk(1, 0, 10, 1);
    let (mut ws, a, _) = setup(vec![h1]);
    ws.claim_hunk(h1, a, false).unwrap();
    let c1 = ws.commit(a, "one".to_string(), &vec![h1]).unwrap();
    let h2 = hunk(1, 5, 12, 2);
    ws.reconcile(&vec![h2]).unwrap();
    ws.claim_hunk(h2, a, true).unwrap();
    let c2 = ws.commit(a, "two".to_string(), &vec![h2]).unwrap();
    assert_eq!(ws.undo_commit(a, c1), Err(EngineError::RewriteConflict { commit_id: c2 }));
    assert_eq!(ws.undo_commit(a, 4242), Err(EngineError::CommitNotFound));
}

#[test]
fn integrate_without_divergence_changes_nothing() {
    let (mut ws, a, ids) = three_commits();
    ws.fetch_and_check(100, 100, 0).unwrap();
    let base = ws.base;
    let r = ws.integrate_upstream(&vec![hunk(1, 0, 100, 5)]).unwrap();
    assert_eq!(r, IntegrationResult { rebased: 0, conflicted_at: None });
    assert_eq!(ws.base, base);
    assert_eq!(commit_ids(&ws, a), ids);
}

#[test]
fn integrate_rebases_applied_branches() {
    let (mut ws, a, ids) = three_commits();
    ws.fetch_and_check(200, 100, 2).unwrap();
    assert_eq!(ws.base.divergence, 2);
    let r = ws.integrate_upstream(&vec![hunk(8, 0, 100, 5)]).unwrap();
    assert_eq!(r, IntegrationResult { rebased: 3, conflicted_at: None });
    let b = branch(&ws, a);
    assert_eq!(b.base, 200);
    assert_eq!(b.commits[0].parent, 200);
    let refs: Vec<u64> = b.commits.iter().map(|c| c.change_ref).collect();
    assert_eq!(refs, ids);
    assert_ne!(b.commits[0].id, ids[0]);
    assert_eq!(ws.base.last_integrated, 200);
    assert_eq!(ws.base.divergence, 0);
}

#[test]
fn integrate_conflict_enters_edit_mode() {
    let (mut ws, a, ids) = three_commits();
    ws.fetch_and_check(200, 100, 1).unwrap();
    let snap = ws.snapshots.len() as u64;
    let r = ws.integrate_upstream(&vec![hunk(2, 5, 6, 5)]).unwrap();
    assert_eq!(r, IntegrationResult { rebased: 1, conflicted_at: Some(ids[1]) });
    assert_eq!(ws.mode, Mode::Edit { branch: a, commit: ids[1], snapshot: snap });
    let cs = &branch(&ws, a).commits;
    assert_ne!(cs[0].id, ids[0]);
    assert_eq!(cs[1].id, ids[1]);
    assert_eq!(ws.insert_blank(a, 0), Err(EngineError::EditModeActive));
    ws.save_edit(&vec![hunk(2, 0, 10, 77)]).unwrap();
    assert_eq!(ws.mode, Mode::Normal);
    let cs = &branch(&ws, a).commits;
    assert_eq!(cs[1].changes, vec![hunk(2, 0, 10, 77)]);
    assert_eq!(cs[1].change_ref, ids[1]);
}

#[test]
fn abort_edit_restores_entry_state() {
    let (mut ws, a, ids) = three_commits();
    assert_eq!(ws.save_edit(&vec![]), Err(EngineError::NotInEditMode));
    assert_eq!(ws.abort_edit(), Err(EngineError::NotInEditMode));
    ws.enter_edit(a, ids[0]).unwrap();
    assert_eq!(ws.enter_edit(a, ids[0]), Err(EngineError::EditModeActive));
    ws.abort_edit().unwrap();
    assert_eq!(ws.mode, Mode::Normal);
    assert_eq!(commit_ids(&ws, a), ids);
}

#[test]
fn save_edit_conflict_stays_in_edit_mode() {
    let (mut ws, a, ids) = three_commits();
    ws.enter_edit(a, ids[0]).unwrap();
    assert_eq!(ws.save_edit(&vec![hunk(3, 0, 2, 1)]), Err(EngineError::RewriteConflict { commit_id: ids[2] }));
    assert!(matches!(ws.mode, Mode::Edit { .. }));
    assert_eq!(commit_ids(&ws, a), ids);
}

#[test]
fn delete_needs_pushed_commits_or_force() {
    let (mut ws, a, _) = three_commits();
    let h = hunk(5, 0, 1, 1);
    ws.reconcile(&vec![h]).unwrap();
    ws.claim_hunk(h, a, false).unwrap();
    assert_eq!(ws.delete_branch(a, false), Err(EngineError::UnpushedCommits));
    ws.mark_pushed(a).unwrap();
    assert!(branch(&ws, a).commits.iter().all(|c| c.pushed));
    ws.delete_branch(a, false).unwrap();
    assert!(ws.branches.iter().all(|b| b.id != a));
    assert_eq!(ws.ledger.entries[0].owner, None);
    assert_eq!(ws.delete_branch(a, true), Err(EngineError::BranchNotFound));
}

#[test]
fn convert_returns_head_and_drops_branch() {
    let (mut ws, a, ids) = three_commits();
    assert_eq!(ws.convert_to_real_branch(a), Ok(ids[2]));
    assert!(ws.branches.iter().all(|b| b.id != a));
}

#[test]
fn update_branch_sets_flags() {
    let (mut ws, a, _) = setup(vec![]);
    ws.update_branch(a, false, 5).unwrap();
    let b = branch(&ws, a);
    assert!(!b.applied);
    assert_eq!(b.order, 5);
    assert_eq!(ws.restore_snapshot(999), Err(EngineError::SnapshotNotFound));
}

#[test]
fn unapplied_branches_are_not_integrated() {
    let (mut ws, a, ids) = three_commits();
    ws.update_branch(a, false, 0).unwrap();
    ws.fetch_and_check(200, 100, 1).unwrap();
    let r = ws.integrate_upstream(&vec![]).unwrap();
    assert_eq!(r.rebased, 0);
    assert_eq!(commit_ids(&ws, a), ids);
}

#[test]
fn ledger_alone() {
    let mut l = Ledger::new();
    assert_eq!(l.reconcile(&vec![hunk(1, 0, 1, 0)]), Vec::<Hunk>::new());
    l.claim(hunk(1, 0, 1, 0), 3, false).unwrap();
    assert_eq!(l.clock, 1);
    assert_eq!(l.entries[0], Claim { hunk: hunk(1, 0, 1, 0), owner: Some(3), touched: 1 });
}

#[test]
fn user_default_and_signature() {
    let mut u = User::default();
    assert_eq!(u.id, 0);
    assert!(u.name.is_empty() && u.github_username.is_none());
    u.name = "Ada".to_string();
    u.email = "ada@example.com".to_string();
    assert_eq!(u.signature_identity(), ("Ada".to_string(), "ada@example.com".to_string()));
}

#[test]
fn snapshot_diff_lists_ownership_changes() {
    let h = hunk(1, 0, 4, 7);
    let (mut ws, a, _) = setup(vec![h]);
    ws.claim_hunk(h, a, false).unwrap();
    ws.release_hunk(h).unwrap();
    assert_eq!(ws.snapshots.len(), 5);
    assert_eq!(ws.snapshot_diff(1), Ok(vec![]));
    assert_eq!(ws.snapshot_diff(3), Ok(vec![h]));
    assert_eq!(ws.snapshot_diff(4), Ok(vec![h]));
    assert_eq!(ws.snapshot_diff(9), Err(EngineError::SnapshotNotFound));
    assert_eq!(ws.list_snapshots(), vec![4, 3, 2, 1, 0]);
}
