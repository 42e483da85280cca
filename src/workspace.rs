use vstd::prelude::*;

use crate::error::EngineError;
use crate::hunk::Hunk;
use crate::ledger::{
    claim_of, claim_outcome, distinct_hunks, has_hunk, reclaimed, reconcile_outcome, release_outcome, released_all, took, Claim,
    Ledger,
};
use crate::hunk::conflicts;
use crate::rewrite::{
    edit_stack, fresh, rebase_stack, with_changes, amended, blank, clean_range, combined, file_moved, in_file, insert_blank_stack, move_file_stack, moved,
    reorder_stack, rewrite_conflict, squash_stack, undo_stack, amend_stack,
};
use crate::stack::{copy_stack, rewritten, views, Commit, CommitView};

verus! {

/// A lane of work over the shared working directory: its own stack of
/// commits (oldest first) on top of `base`.
#[derive(Debug)]
pub struct VirtualBranch {
    pub id: u64,
    pub name: String,
    pub commits: Vec<Commit>,
    pub base: u64,
    pub applied: bool,
    pub order: u64,
}

pub ghost struct BranchView {
    pub id: u64,
    pub name: Seq<char>,
    pub commits: Seq<CommitView>,
    pub base: u64,
    pub applied: bool,
    pub order: u64,
}

impl View for VirtualBranch {
    type V = BranchView;

    open spec fn view(&self) -> BranchView {
        BranchView {
            id: self.id,
            name: self.name@,
            commits: views(self.commits@),
            base: self.base,
            applied: self.applied,
            order: self.order,
        }
    }
}

/// The relation of the workspace to the upstream branch it targets.
#[derive(Clone, Copy, Debug, PartialEq, Eq, Structural)]
pub struct BaseBranch {
    pub upstream_head: u64,
    pub merge_base: u64,
    pub last_integrated: u64,
    pub divergence: u64,
}

/// Whether a commit is being edited on its own, and which.
#[derive(Clone, Copy, Debug, PartialEq, Eq, Structural)]
pub enum Mode {
    Normal,
    Edit { branch: u64, commit: u64, snapshot: u64 },
}

/// The operation that a snapshot was taken before.
#[derive(Clone, Copy, Debug, PartialEq, Eq, Structural)]
pub enum Operation {
    CreateBranch,
    DeleteBranch,
    UpdateBranch,
    ClaimHunk,
    ReleaseHunk,
    Reconcile,
    CommitChanges,
    ConvertToRealBranch,
    MarkPushed,
    FetchUpstream,
    IntegrateUpstream,
    Amend,
    Squash,
    Reorder,
    InsertBlank,
    MoveCommitFile,
    UndoCommit,
    EnterEdit,
    SaveEdit,
    AbortEdit,
    RestoreSnapshot,
}

/// The state a snapshot records: ledger and refs.
pub ghost struct State {
    pub ledger: Seq<Claim>,
    pub branches: Seq<BranchView>,
    pub base: BaseBranch,
}

/// A copy of the ledger and refs taken before an operation.
#[derive(Debug)]
pub struct Snapshot {
    pub id: u64,
    pub op: Operation,
    pub ledger: Vec<Claim>,
    pub branches: Vec<VirtualBranch>,
    pub base: BaseBranch,
}

pub ghost struct SnapshotView {
    pub id: u64,
    pub op: Operation,
    pub state: State,
}

pub open spec fn branch_views(bs: Seq<VirtualBranch>) -> Seq<BranchView> {
    Seq::new(bs.len(), |i: int| bs[i]@)
}

impl View for Snapshot {
    type V = SnapshotView;

    open spec fn view(&self) -> SnapshotView {
        SnapshotView {
            id: self.id,
            op: self.op,
            state: State { ledger: self.ledger@, branches: branch_views(self.branches@), base: self.base },
        }
    }
}

/// One project's workspace: the ledger, the virtual branches, the base, the
/// edit mode and the append-only snapshot log.
#[derive(Debug)]
pub struct Workspace {
    pub ledger: Ledger,
    pub branches: Vec<VirtualBranch>,
    pub base: BaseBranch,
    pub mode: Mode,
    pub next_id: u64,
    pub snapshots: Vec<Snapshot>,
}

impl VirtualBranch {
    pub fn copy(&self) -> (r: VirtualBranch)
        ensures
            r@ == self@,
    {
        VirtualBranch {
            id: self.id,
            name: self.name.clone(),
            commits: copy_stack(&self.commits),
            base: self.base,
            applied: self.applied,
            order: self.order,
        }
    }

    /// The id of the newest commit, or the base for an empty stack.
    pub fn head(&self) -> (r: u64)
        ensures
            r == crate::stack::head_of(self@.commits, self.base),
    {
        if self.commits.len() == 0 {
            self.base
        } else {
            self.commits[self.commits.len() - 1].id
        }
    }
}

/// A copy of the branches `bs`.
pub fn copy_branches(bs: &Vec<VirtualBranch>) -> (r: Vec<VirtualBranch>)
    ensures
        branch_views(r@) == branch_views(bs@),
{
    let mut r: Vec<VirtualBranch> = Vec::new();
    let mut i: usize = 0;
    while i < bs.len()
        invariant
            0 <= i <= bs@.len(),
            r@.len() == i,
            forall|m: int| 0 <= m < i ==> (#[trigger] r@[m])@ == bs@[m]@,
        decreases bs@.len() - i,
    {
        r.push(bs[i].copy());
        i = i + 1;
    }
    proof {
        assert(branch_views(r@) =~= branch_views(bs@));
    }
    r
}

/// A copy of the claims `cs`.
pub fn copy_claims(cs: &Vec<Claim>) -> (r: Vec<Claim>)
    ensures
        r@ == cs@,
{
    let mut r: Vec<Claim> = Vec::new();
    let mut i: usize = 0;
    while i < cs.len()
        invariant
            0 <= i <= cs@.len(),
            r@ == cs@.take(i as int),
        decreases cs@.len() - i,
    {
        r.push(cs[i]);
        i = i + 1;
        proof {
            assert(r@ =~= cs@.take(i as int));
        }
    }
    proof {
        assert(cs@.take(cs@.len() as int) =~= cs@);
    }
    r
}

/// The position of the first branch in `bs` with id `id`.
pub fn find_branch(bs: &Vec<VirtualBranch>, id: u64) -> (r: Option<usize>)
    ensures
        r is None <==> forall|k: int| 0 <= k < bs@.len() ==> (#[trigger] bs@[k]).id != id,
        r matches Some(k) ==> k < bs@.len() && bs@[k as int].id == id && forall|m: int|
            0 <= m < k ==> (#[trigger] bs@[m]).id != id,
{
    let mut k: usize = 0;
    while k < bs.len()
        invariant
            0 <= k <= bs@.len(),
            forall|m: int| 0 <= m < k ==> (#[trigger] bs@[m]).id != id,
        decreases bs@.len() - k,
    {
        if bs[k].id == id {
            return Some(k);
        }
        k = k + 1;
    }
    None
}

/// The position of the first commit in `cs` with id `id`.
pub fn find_commit(cs: &Vec<Commit>, id: u64) -> (r: Option<usize>)
    ensures
        r is None <==> forall|k: int| 0 <= k < cs@.len() ==> (#[trigger] cs@[k]).id != id,
        r matches Some(k) ==> k < cs@.len() && cs@[k as int].id == id && forall|m: int|
            0 <= m < k ==> (#[trigger] cs@[m]).id != id,
{
    let mut k: usize = 0;
    while k < cs.len()
        invariant
            0 <= k <= cs@.len(),
            forall|m: int| 0 <= m < k ==> (#[trigger] cs@[m]).id != id,
        decreases cs@.len() - k,
    {
        if cs[k].id == id {
            return Some(k);
        }
        k = k + 1;
    }
    None
}

/// The first position in `s` with id `id`: the spec of `find_branch`.
pub open spec fn branch_index(s: Seq<BranchView>, id: u64) -> int {
    choose|k: int| 0 <= k < s.len() && s[k].id == id && forall|m: int| 0 <= m < k ==> (#[trigger] s[m]).id != id
}

pub open spec fn has_branch(s: Seq<BranchView>, id: u64) -> bool {
    exists|k: int| 0 <= k < s.len() && s[k].id == id
}

/// The first position in `s` with id `id`: the spec of `find_commit`.
pub open spec fn commit_index(s: Seq<CommitView>, id: u64) -> int {
    choose|k: int| 0 <= k < s.len() && s[k].id == id && forall|m: int| 0 <= m < k ==> (#[trigger] s[m]).id != id
}

pub open spec fn has_commit(s: Seq<CommitView>, id: u64) -> bool {
    exists|k: int| 0 <= k < s.len() && s[k].id == id
}

impl Workspace {
    pub open spec fn wf(&self) -> bool {
        &&& self.ledger.wf()
        &&& forall|i: int| 0 <= i < self.snapshots@.len() ==> (#[trigger] self.snapshots@[i]).id == i
            && distinct_hunks(self.snapshots@[i].ledger@)
        &&& self.snapshots@.len() < u64::MAX
        &&& self.mode matches Mode::Edit { snapshot, .. } ==> snapshot < self.snapshots@.len()
    }

    pub open spec fn state(&self) -> State {
        State { ledger: self.ledger.entries@, branches: branch_views(self.branches@), base: self.base }
    }

    pub open spec fn log(&self) -> Seq<SnapshotView> {
        Seq::new(self.snapshots@.len(), |i: int| self.snapshots@[i]@)
    }

    /// `self` is `old` with a snapshot of `old`'s state, taken for `op`,
    /// appended to the log.
    pub open spec fn logged(&self, old: Workspace, op: Operation) -> bool {
        self.log() == old.log().push(SnapshotView { id: old.snapshots@.len() as u64, op: op, state: old.state() })
    }

    /// Nothing but the log differs between `self` and `old`.
    pub open spec fn unchanged(&self, old: Workspace) -> bool {
        &&& self.state() == old.state()
        &&& self.ledger.clock == old.ledger.clock
        &&& self.mode == old.mode
        &&& self.next_id == old.next_id
    }

    /// A workspace with no branches, on the upstream commit `head`.
    pub fn new(head: u64) -> (r: Workspace)
        ensures
            r.wf(),
            r.ledger.entries@.len() == 0,
            r.branches@.len() == 0,
            r.base == (BaseBranch { upstream_head: head, merge_base: head, last_integrated: head, divergence: 0 }),
            r.mode == Mode::Normal,
            r.snapshots@.len() == 0,
    {
        Workspace {
            ledger: Ledger::new(),
            branches: Vec::new(),
            base: BaseBranch { upstream_head: head, merge_base: head, last_integrated: head, divergence: 0 },
            mode: Mode::Normal,
            next_id: 1,
            snapshots: Vec::new(),
        }
    }

    /// Records the current ledger and refs in the log, for `op`; returns the
    /// new snapshot's id. The log never grows past `u64::MAX - 1` entries:
    /// past that the oldest id would be reused, so `BackendFailure` is returned.
    pub fn capture(&mut self, op: Operation) -> (r: Result<u64, EngineError>)
        requires
            old(self).wf(),
        ensures
            final(self).wf(),
            final(self).unchanged(*old(self)),
            final(self).ledger == old(self).ledger,
            final(self).branches == old(self).branches,
            old(self).snapshots@.len() + 1 < u64::MAX ==> r == Ok::<u64, EngineError>(
                old(self).snapshots@.len() as u64,
            ) && final(self).logged(*old(self), op),
            old(self).snapshots@.len() + 1 >= u64::MAX ==> r == Err::<u64, EngineError>(
                EngineError::BackendFailure,
            ) && final(self).log() == old(self).log(),
    {
        let n = self.snapshots.len();
        if n as u64 >= u64::MAX - 1 {
            return Err(EngineError::BackendFailure);
        }
        let s = Snapshot {
            id: n as u64,
            op,
            ledger: copy_claims(&self.ledger.entries),
            branches: copy_branches(&self.branches),
            base: self.base,
        };
        self.snapshots.push(s);
        proof {
            assert(self.log() =~= old(self).log().push(
                SnapshotView { id: old(self).snapshots@.len() as u64, op: op, state: old(self).state() },
            ));
        }
        Ok(n as u64)
    }
}

/// Whether some commit of `cs` was never pushed.
pub fn has_unpushed(cs: &Vec<Commit>) -> (r: bool)
    ensures
        r == exists|k: int| 0 <= k < views(cs@).len() && !(#[trigger] views(cs@)[k]).pushed,
{
    let mut k: usize = 0;
    while k < cs.len()
        invariant
            0 <= k <= cs@.len(),
            forall|m: int| 0 <= m < k ==> (#[trigger] views(cs@)[m]).pushed,
        decreases cs@.len() - k,
    {
        assert(views(cs@)[k as int].pushed == cs@[k as int].pushed);
        if !cs[k].pushed {
            return true;
        }
        k = k + 1;
    }
    false
}

/// The first position with id `id` is the one `branch_index` names.
pub proof fn lemma_branch_index(s: Seq<BranchView>, k: int, id: u64)
    requires
        0 <= k < s.len(),
        s[k].id == id,
        forall|m: int| 0 <= m < k ==> (#[trigger] s[m]).id != id,
    ensures
        branch_index(s, id) == k,
        has_branch(s, id),
{
    let j = branch_index(s, id);
    assert(0 <= j < s.len() && s[j].id == id && forall|m: int| 0 <= m < j ==> (#[trigger] s[m]).id != id);
    if j < k {
        assert(s[j].id != id);
    }
    if k < j {
        assert(s[k].id != id);
    }
}

/// The first position with id `id` is the one `commit_index` names.
pub proof fn lemma_commit_index(s: Seq<CommitView>, k: int, id: u64)
    requires
        0 <= k < s.len(),
        s[k].id == id,
        forall|m: int| 0 <= m < k ==> (#[trigger] s[m]).id != id,
    ensures
        commit_index(s, id) == k,
        has_commit(s, id),
{
    let j = commit_index(s, id);
    assert(0 <= j < s.len() && s[j].id == id && forall|m: int| 0 <= m < j ==> (#[trigger] s[m]).id != id);
    if j < k {
        assert(s[j].id != id);
    }
    if k < j {
        assert(s[k].id != id);
    }
}

/// `b` with its stack replaced by `commits`.
pub open spec fn with_stack(b: BranchView, commits: Seq<CommitView>) -> BranchView {
    BranchView { commits: commits, ..b }
}

/// Every hunk of `sel` is in the ledger `s` and owned by `branch`.
pub open spec fn all_owned(s: Seq<Claim>, sel: Seq<Hunk>, branch: u64) -> bool {
    forall|k: int| 0 <= k < sel.len() ==> has_hunk(s, #[trigger] sel[k]) && claim_of(s, sel[k]).owner == Some(branch)
}

/// Whether every hunk of `sel` is owned by `branch`.
pub fn check_owned(l: &Ledger, sel: &Vec<Hunk>, branch: u64) -> (r: bool)
    requires
        l.wf(),
    ensures
        r == all_owned(l.entries@, sel@, branch),
{
    let mut k: usize = 0;
    while k < sel.len()
        invariant
            l.wf(),
            0 <= k <= sel@.len(),
            forall|m: int| 0 <= m < k ==> has_hunk(l.entries@, #[trigger] sel@[m]) && claim_of(l.entries@, sel@[m]).owner == Some(branch),
        decreases sel@.len() - k,
    {
        match l.find(&sel[k]) {
            None => {
                return false;
            },
            Some(i) => {
                if l.entries[i].owner != Some(branch) {
                    return false;
                }
            },
        }
        k = k + 1;
    }
    true
}

impl VirtualBranch {
    /// This branch with its stack replaced by `commits`.
    pub fn with_commits(&self, commits: Vec<Commit>) -> (r: VirtualBranch)
        ensures
            r@ == with_stack(self@, views(commits@)),
    {
        VirtualBranch {
            id: self.id,
            name: self.name.clone(),
            commits,
            base: self.base,
            applied: self.applied,
            order: self.order,
        }
    }
}

impl Workspace {
    /// Why any mutating operation is refused before it starts: the log is full,
    /// or a commit is being edited.
    pub open spec fn gate(&self) -> Option<EngineError> {
        if self.snapshots@.len() + 1 >= u64::MAX {
            Some(EngineError::BackendFailure)
        } else if self.mode != Mode::Normal {
            Some(EngineError::EditModeActive)
        } else {
            None
        }
    }

    /// The log after an operation `op` on `self` began.
    pub open spec fn log_after(&self, op: Operation) -> Seq<SnapshotView> {
        if self.snapshots@.len() + 1 >= u64::MAX {
            self.log()
        } else {
            self.log().push(SnapshotView { id: self.snapshots@.len() as u64, op: op, state: self.state() })
        }
    }

    pub open spec fn branch_at(&self, id: u64) -> BranchView {
        branch_views(self.branches@)[branch_index(branch_views(self.branches@), id)]
    }

    pub open spec fn has_branch(&self, id: u64) -> bool {
        has_branch(branch_views(self.branches@), id)
    }

    /// Takes the snapshot for `op` and refuses the operation while a commit is
    /// being edited.
    fn begin(&mut self, op: Operation) -> (r: Result<u64, EngineError>)
        requires
            old(self).wf(),
        ensures
            final(self).wf(),
            final(self).unchanged(*old(self)),
            final(self).ledger == old(self).ledger,
            final(self).branches == old(self).branches,
            final(self).log() == old(self).log_after(op),
            old(self).gate() is Some <==> r is Err,
            old(self).gate() matches Some(e) ==> r == Err::<u64, EngineError>(e),
            r matches Ok(id) ==> id == old(self).snapshots@.len(),
    {
        let id = self.capture(op)?;
        match self.mode {
            Mode::Normal => Ok(id),
            Mode::Edit { .. } => Err(EngineError::EditModeActive),
        }
    }

    /// The position of branch `id`.
    fn locate(&self, id: u64) -> (r: Option<usize>)
        ensures
            r is None <==> !self.has_branch(id),
            r matches Some(k) ==> k < self.branches@.len() && k == branch_index(branch_views(self.branches@), id)
                && self.branch_at(id) == self.branches@[k as int]@ && self.branches@[k as int].id == id
                && forall|m: int| 0 <= m < k ==> (#[trigger] self.branches@[m]).id != id,
    {
        let r = find_branch(&self.branches, id);
        proof {
            let bs = branch_views(self.branches@);
            match r {
                Some(k) => {
                    lemma_branch_index(bs, k as int, id);
                },
                None => {
                    assert forall|k: int| 0 <= k < bs.len() implies bs[k].id != id by {
                        assert(self.branches@[k].id != id);
                    }
                },
            }
        }
        r
    }

    /// Replaces the branch at position `i`.
    fn put_branch(&mut self, i: usize, b: VirtualBranch)
        requires
            i < old(self).branches@.len(),
        ensures
            final(self).branches@ == old(self).branches@.update(i as int, b),
            branch_views(final(self).branches@) == branch_views(old(self).branches@).update(i as int, b@),
            final(self).ledger == old(self).ledger,
            final(self).base == old(self).base,
            final(self).mode == old(self).mode,
            final(self).next_id == old(self).next_id,
            final(self).snapshots == old(self).snapshots,
    {
        self.branches.set(i, b);
        proof {
            assert(branch_views(self.branches@) =~= branch_views(old(self).branches@).update(i as int, b@));
        }
    }

    /// Moves the hunks of `selected` from the ledger into a new commit on top
    /// of the branch at position `i`.
    fn append_commit(&mut self, i: usize, message: String, selected: &Vec<Hunk>)
        requires
            old(self).wf(),
            i < old(self).branches@.len(),
            old(self).next_id < u64::MAX,
        ensures
            final(self).wf(),
            final(self).snapshots == old(self).snapshots,
            final(self).next_id == old(self).next_id + 1,
            final(self).mode == old(self).mode,
            final(self).base == old(self).base,
            final(self).ledger.clock == old(self).ledger.clock,
            ({
                let b = old(self).branches@[i as int]@;
                let nb = final(self).branches@[i as int]@;
                &&& branch_views(final(self).branches@) == branch_views(old(self).branches@).update(i as int, nb)
                &&& nb == with_stack(b, b.commits.push(CommitView {
                    id: old(self).next_id,
                    parent: crate::stack::head_of(b.commits, b.base),
                    message: message@,
                    changes: nb.commits.last().changes,
                    change_ref: old(self).next_id,
                    pushed: false,
                }))
                &&& took(old(self).ledger.entries@, final(self).ledger.entries@, selected@, nb.commits.last().changes)
            }),
    {
        let id = self.next_id;
        let changes = self.ledger.take(selected);
        let parent = self.branches[i].head();
        let c = Commit { id, parent, message, changes, change_ref: id, pushed: false };
        let mut cs = copy_stack(&self.branches[i].commits);
        cs.push(c);
        let nb = self.branches[i].with_commits(cs);
        proof {
            assert(views(cs@) =~= views(self.branches@[i as int].commits@).push(c@));
        }
        self.put_branch(i, nb);
        self.next_id = id + 1;
        proof {
            assert(branch_views(self.branches@)[i as int] == self.branches@[i as int]@);
        }
    }

    pub open spec fn commit_error(&self, branch: u64, sel: Seq<Hunk>) -> Option<EngineError> {
        if self.gate() is Some {
            self.gate()
        } else if !self.has_branch(branch) {
            Some(EngineError::BranchNotFound)
        } else if sel.len() == 0 {
            Some(EngineError::NothingToCommit)
        } else if self.branch_at(branch).base != self.base.upstream_head {
            Some(EngineError::DirtyBaseConflict)
        } else if !all_owned(self.ledger.entries@, sel, branch) {
            Some(EngineError::OwnershipConflict)
        } else if self.next_id == u64::MAX {
            Some(EngineError::BackendFailure)
        } else {
            None
        }
    }

    /// Commits the selected hunks of `branch` on top of its stack with
    /// `message`; they leave the ledger. Returns the new commit's id.
    pub fn commit(&mut self, branch: u64, message: String, selected: &Vec<Hunk>) -> (r: Result<u64, EngineError>)
        requires
            old(self).wf(),
        ensures
            final(self).wf(),
            final(self).log() == old(self).log_after(Operation::CommitChanges),
            r is Err <==> old(self).commit_error(branch, selected@) is Some,
            r is Err ==> r == Err::<u64, EngineError>(old(self).commit_error(branch, selected@).unwrap())
                && final(self).unchanged(*old(self)),
            r is Ok ==> {
                let b = old(self).branch_at(branch);
                let nb = final(self).branch_at(branch);
                &&& r == Ok::<u64, EngineError>(old(self).next_id)
                &&& final(self).next_id == old(self).next_id + 1
                &&& final(self).mode == old(self).mode
                &&& final(self).base == old(self).base
                &&& final(self).ledger.clock == old(self).ledger.clock
                &&& final(self).has_branch(branch)
                &&& branch_views(final(self).branches@) == branch_views(old(self).branches@).update(
                    branch_index(branch_views(old(self).branches@), branch),
                    nb,
                )
                &&& nb == with_stack(b, b.commits.push(CommitView {
                    id: old(self).next_id,
                    parent: crate::stack::head_of(b.commits, b.base),
                    message: message@,
                    changes: nb.commits.last().changes,
                    change_ref: old(self).next_id,
                    pushed: false,
                }))
                &&& took(old(self).ledger.entries@, final(self).ledger.entries@, selected@, nb.commits.last().changes)
            },
    {
        self.begin(Operation::CommitChanges)?;
        let i = match self.locate(branch) {
            None => return Err(EngineError::BranchNotFound),
            Some(i) => i,
        };
        if selected.len() == 0 {
            return Err(EngineError::NothingToCommit);
        }
        if self.branches[i].base != self.base.upstream_head {
            return Err(EngineError::DirtyBaseConflict);
        }
        if !check_owned(&self.ledger, selected, branch) {
            return Err(EngineError::OwnershipConflict);
        }
        if self.next_id == u64::MAX {
            return Err(EngineError::BackendFailure);
        }
        let id = self.next_id;
        self.append_commit(i, message, selected);
        proof {
            let bs = branch_views(self.branches@);
            let bs0 = branch_views(old(self).branches@);
            assert(bs[i as int].id == branch);
            assert forall|m: int| 0 <= m < i implies (#[trigger] bs[m]).id != branch by {
                assert(bs[m] == bs0[m]);
                assert(old(self).branches@[m].id != branch);
            }
            lemma_branch_index(bs, i as int, branch);
        }
        Ok(id)
    }
}

impl Workspace {
    /// `self` is `old` with the stack of `branch` replaced by `commits`,
    /// `used` fresh ids spent, and all else kept.
    pub open spec fn restacked(&self, old: Workspace, branch: u64, commits: Seq<CommitView>, used: int) -> bool {
        &&& branch_views(self.branches@) == branch_views(old.branches@).update(
            branch_index(branch_views(old.branches@), branch),
            with_stack(old.branch_at(branch), commits),
        )
        &&& self.next_id == old.next_id + used
        &&& self.base == old.base
        &&& self.mode == old.mode
        &&& self.ledger.entries@ == old.ledger.entries@
        &&& self.ledger.clock == old.ledger.clock
    }

    /// Installs `ns` as the stack of the branch at position `i`.
    fn install(&mut self, i: usize, ns: Vec<Commit>, used: u64)
        requires
            i < old(self).branches@.len(),
            old(self).next_id + used <= u64::MAX,
        ensures
            branch_views(final(self).branches@) == branch_views(old(self).branches@).update(
                i as int,
                with_stack(old(self).branches@[i as int]@, views(ns@)),
            ),
            final(self).next_id == old(self).next_id + used,
            final(self).ledger == old(self).ledger,
            final(self).base == old(self).base,
            final(self).mode == old(self).mode,
            final(self).snapshots == old(self).snapshots,
    {
        let nb = self.branches[i].with_commits(ns);
        self.put_branch(i, nb);
        self.next_id = self.next_id + used;
    }

    /// The position of the commit `commit` of the branch at position `i`.
    fn locate_commit(&self, i: usize, commit: u64) -> (r: Option<usize>)
        requires
            i < self.branches@.len(),
        ensures
            r is None <==> !has_commit(self.branches@[i as int]@.commits, commit),
            r matches Some(k) ==> k < self.branches@[i as int].commits@.len() && k == commit_index(
                self.branches@[i as int]@.commits,
                commit,
            ),
    {
        let r = find_commit(&self.branches[i].commits, commit);
        proof {
            let cs = self.branches@[i as int]@.commits;
            match r {
                Some(k) => {
                    assert forall|m: int| 0 <= m < k implies (#[trigger] cs[m]).id != commit by {
                        assert(self.branches@[i as int].commits@[m].id != commit);
                    }
                    lemma_commit_index(cs, k as int, commit);
                },
                None => {
                    assert forall|k: int| 0 <= k < cs.len() implies cs[k].id != commit by {
                        assert(self.branches@[i as int].commits@[k].id != commit);
                    }
                },
            }
        }
        r
    }

    /// The stack of `branch` and the position of `commit` in it.
    pub open spec fn stack_of(&self, branch: u64) -> Seq<CommitView> {
        self.branch_at(branch).commits
    }

    pub open spec fn commit_at(&self, branch: u64, commit: u64) -> int {
        commit_index(self.stack_of(branch), commit)
    }

    /// Where the branch and commit are not there, the error; else `None`.
    pub open spec fn lookup_error(&self, branch: u64, commit: u64) -> Option<EngineError> {
        if self.gate() is Some {
            self.gate()
        } else if !self.has_branch(branch) {
            Some(EngineError::BranchNotFound)
        } else if !has_commit(self.stack_of(branch), commit) {
            Some(EngineError::CommitNotFound)
        } else if self.next_id + self.stack_of(branch).len() + 1 > u64::MAX {
            Some(EngineError::BackendFailure)
        } else {
            None
        }
    }

    /// The stack of the branch at position `i`, after the checks that every
    /// rewrite shares.
    fn open_stack(&mut self, op: Operation, branch: u64, commit: u64) -> (r: Result<(usize, usize), EngineError>)
        requires
            old(self).wf(),
        ensures
            final(self).wf(),
            final(self).unchanged(*old(self)),
            final(self).log() == old(self).log_after(op),
            r is Err <==> old(self).lookup_error(branch, commit) is Some,
            r is Err ==> r == Err::<(usize, usize), EngineError>(old(self).lookup_error(branch, commit).unwrap()),
            r matches Ok(p) ==> p.0 == branch_index(branch_views(old(self).branches@), branch) && p.0 < old(self).branches@.len()
                && old(self).branches@[p.0 as int]@ == old(self).branch_at(branch)
                && final(self).branches@[p.0 as int]@ == old(self).branch_at(branch)
                && p.1 == old(self).commit_at(branch, commit) && p.1 < old(self).stack_of(branch).len(),
    {
        self.begin(op)?;
        let i = match self.locate(branch) {
            None => return Err(EngineError::BranchNotFound),
            Some(i) => i,
        };
        let k = match self.locate_commit(i, commit) {
            None => return Err(EngineError::CommitNotFound),
            Some(k) => k,
        };
        let len = self.branches[i].commits.len();
        if self.next_id as u128 + len as u128 + 1 > u64::MAX as u128 {
            return Err(EngineError::BackendFailure);
        }
        proof {
            assert(branch_views(self.branches@)[i as int] == branch_views(old(self).branches@)[i as int]);
        }
        Ok((i, k))
    }

    /// Takes commit `commit` out of the stack of `branch`; its changes go back
    /// to the ledger, owned by the branch, and every commit above it is
    /// rewritten.
    pub fn undo_commit(&mut self, branch: u64, commit: u64) -> (r: Result<(), EngineError>)
        requires
            old(self).wf(),
        ensures
            final(self).wf(),
            final(self).log() == old(self).log_after(Operation::UndoCommit),
            old(self).lookup_error(branch, commit) matches Some(e) ==> r == Err::<(), EngineError>(e),
            r is Err ==> final(self).unchanged(*old(self)),
            old(self).lookup_error(branch, commit) is None ==> {
                let cs = old(self).stack_of(branch);
                let k = old(self).commit_at(branch, commit);
                &&& r is Err <==> !clean_range(cs, k + 1, cs.len() as int, cs[k].changes)
                &&& r matches Err(e) ==> rewrite_conflict(cs, k + 1, cs.len() as int, cs[k].changes, e)
                &&& r is Ok ==> branch_views(final(self).branches@) == branch_views(old(self).branches@).update(
                    branch_index(branch_views(old(self).branches@), branch),
                    with_stack(old(self).branch_at(branch), rewritten(cs.remove(k), k, old(self).branch_at(branch).base, old(self).next_id)),
                ) && final(self).next_id == old(self).next_id + cs.len() && final(self).base == old(self).base
                    && final(self).mode == old(self).mode && final(self).ledger.clock == old(self).ledger.ledger_next_clock()
                    && reclaimed(old(self).ledger.entries@, final(self).ledger.entries@, cs[k].changes, branch, final(self).ledger.clock)
            },
    {
        let (i, k) = self.open_stack(Operation::UndoCommit, branch, commit)?;
        let len = self.branches[i].commits.len();
        let ns = undo_stack(&self.branches[i].commits, self.branches[i].base, k, self.next_id)?;
        let hs = crate::stack::copy_hunks(&self.branches[i].commits[k].changes);
        proof {
            assert(hs@ == old(self).stack_of(branch)[k as int].changes);
        }
        self.install(i, ns, len as u64);
        self.ledger.reclaim(&hs, branch);
        Ok(())
    }
}

impl Workspace {
    /// Amends the hunks `hunks`, owned by `branch`, into commit `commit`; they
    /// leave the ledger, and the commit and every commit above it are
    /// rewritten. All or nothing: on any error nothing but the log changes.
    pub fn amend(&mut self, branch: u64, commit: u64, hunks: &Vec<Hunk>) -> (r: Result<(), EngineError>)
        requires
            old(self).wf(),
        ensures
            final(self).wf(),
            final(self).log() == old(self).log_after(Operation::Amend),
            old(self).lookup_error(branch, commit) matches Some(e) ==> r == Err::<(), EngineError>(e),
            r is Err ==> final(self).unchanged(*old(self)),
            old(self).lookup_error(branch, commit) is None && !all_owned(old(self).ledger.entries@, hunks@, branch)
                ==> r == Err::<(), EngineError>(EngineError::OwnershipConflict),
            old(self).lookup_error(branch, commit) is None && all_owned(old(self).ledger.entries@, hunks@, branch) ==> {
                let cs = old(self).stack_of(branch);
                let k = old(self).commit_at(branch, commit);
                &&& r is Err <==> !clean_range(cs, k + 1, cs.len() as int, hunks@)
                &&& r matches Err(e) ==> rewrite_conflict(cs, k + 1, cs.len() as int, hunks@, e)
                &&& r is Ok ==> branch_views(final(self).branches@) == branch_views(old(self).branches@).update(
                    branch_index(branch_views(old(self).branches@), branch),
                    with_stack(old(self).branch_at(branch), amended(cs, old(self).branch_at(branch).base, k, hunks@, old(self).next_id)),
                ) && final(self).next_id == old(self).next_id + cs.len() && final(self).base == old(self).base
                    && final(self).mode == old(self).mode && final(self).ledger.clock == old(self).ledger.clock
                    && exists|taken: Seq<Hunk>| took(old(self).ledger.entries@, final(self).ledger.entries@, hunks@, taken)
            },
    {
        let (i, k) = self.open_stack(Operation::Amend, branch, commit)?;
        if !check_owned(&self.ledger, hunks, branch) {
            return Err(EngineError::OwnershipConflict);
        }
        let len = self.branches[i].commits.len();
        let ns = amend_stack(&self.branches[i].commits, self.branches[i].base, k, hunks, self.next_id)?;
        self.install(i, ns, len as u64);
        let _taken = self.ledger.take(hunks);
        Ok(())
    }

    /// Squashes commit `commit` into the adjacent commit `into` (see
    /// `combined`); every commit from there up is rewritten.
    #[verifier::rlimit(50)]
    pub fn squash(&mut self, branch: u64, commit: u64, into: u64, message: Option<String>) -> (r: Result<(), EngineError>)
        requires
            old(self).wf(),
        ensures
            final(self).wf(),
            final(self).log() == old(self).log_after(Operation::Squash),
            old(self).lookup_error(branch, commit) matches Some(e) ==> r == Err::<(), EngineError>(e),
            r is Err ==> final(self).unchanged(*old(self)),
            old(self).lookup_error(branch, commit) is None ==> {
                let cs = old(self).stack_of(branch);
                let k = old(self).commit_at(branch, commit);
                let t = old(self).commit_at(branch, into);
                let lo = if k < t { k } else { t };
                &&& !has_commit(cs, into) ==> r == Err::<(), EngineError>(EngineError::CommitNotFound)
                &&& has_commit(cs, into) ==> (r is Err <==> !(k + 1 == t || t + 1 == k))
                &&& has_commit(cs, into) && r is Err ==> r == Err::<(), EngineError>(EngineError::InvalidPosition)
                &&& r is Ok ==> final(self).restacked(
                    *old(self),
                    branch,
                    rewritten(cs.take(lo).push(combined(cs, k, t, message)) + cs.skip(lo + 2), lo, old(self).branch_at(branch).base, old(self).next_id),
                    cs.len() as int,
                )
            },
    {
        let (i, k) = self.open_stack(Operation::Squash, branch, commit)?;
        let t = match self.locate_commit(i, into) {
            None => return Err(EngineError::CommitNotFound),
            Some(t) => t,
        };
        let len = self.branches[i].commits.len();
        let ns = squash_stack(&self.branches[i].commits, self.branches[i].base, k, t, message, self.next_id)?;
        self.install(i, ns, len as u64);
        Ok(())
    }

    /// Moves commit `commit` to position `pos` of its stack; fails with
    /// `DependencyConflict` where a commit it would pass touches the same lines.
    #[verifier::rlimit(50)]
    pub fn reorder(&mut self, branch: u64, commit: u64, pos: usize) -> (r: Result<(), EngineError>)
        requires
            old(self).wf(),
        ensures
            final(self).wf(),
            final(self).log() == old(self).log_after(Operation::Reorder),
            old(self).lookup_error(branch, commit) matches Some(e) ==> r == Err::<(), EngineError>(e),
            r is Err ==> final(self).unchanged(*old(self)),
            old(self).lookup_error(branch, commit) is None ==> {
                let cs = old(self).stack_of(branch);
                let k = old(self).commit_at(branch, commit);
                let lo = if pos < k { pos as int } else { k + 1 };
                let hi = if pos < k { k } else { pos + 1 };
                &&& pos >= cs.len() ==> r == Err::<(), EngineError>(EngineError::InvalidPosition)
                &&& pos < cs.len() && pos == k ==> r is Ok && final(self).restacked(*old(self), branch, cs, cs.len() as int)
                &&& pos < cs.len() && pos != k ==> (r is Err <==> !clean_range(cs, lo, hi, cs[k].changes))
                &&& pos < cs.len() && pos != k && r is Err ==> r == Err::<(), EngineError>(EngineError::DependencyConflict)
                &&& pos < cs.len() && pos != k && r is Ok ==> final(self).restacked(
                    *old(self),
                    branch,
                    rewritten(moved(cs, k, pos as int), if pos < k { pos as int } else { k }, old(self).branch_at(branch).base, old(self).next_id),
                    cs.len() as int,
                )
            },
    {
        let (i, k) = self.open_stack(Operation::Reorder, branch, commit)?;
        let len = self.branches[i].commits.len();
        let ns = reorder_stack(&self.branches[i].commits, self.branches[i].base, k, pos, self.next_id)?;
        self.install(i, ns, len as u64);
        Ok(())
    }

    /// Moves the changes of file `file` from commit `commit` to commit
    /// `target` (see `file_moved`); fails with `PathNotFound` where `commit`
    /// does not change the file. All or nothing.
    #[verifier::rlimit(50)]
    pub fn move_commit_file(&mut self, branch: u64, commit: u64, file: u64, target: u64) -> (r: Result<(), EngineError>)
        requires
            old(self).wf(),
        ensures
            final(self).wf(),
            final(self).log() == old(self).log_after(Operation::MoveCommitFile),
            old(self).lookup_error(branch, commit) matches Some(e) ==> r == Err::<(), EngineError>(e),
            r is Err ==> final(self).unchanged(*old(self)),
            old(self).lookup_error(branch, commit) is None ==> {
                let cs = old(self).stack_of(branch);
                let k = old(self).commit_at(branch, commit);
                let t = old(self).commit_at(branch, target);
                let moving = in_file(cs[k].changes, file);
                let lo = if k < t { k + 1 } else { t + 1 };
                let hi = if k < t { t } else { k };
                &&& !has_commit(cs, target) ==> r == Err::<(), EngineError>(EngineError::CommitNotFound)
                &&& has_commit(cs, target) && k == t ==> r == Err::<(), EngineError>(EngineError::InvalidPosition)
                &&& has_commit(cs, target) && k != t && moving.len() == 0 ==> r == Err::<(), EngineError>(EngineError::PathNotFound)
                &&& has_commit(cs, target) && k != t && moving.len() > 0 ==> {
                    &&& r is Err <==> !clean_range(cs, lo, hi, moving)
                    &&& r matches Err(e) ==> rewrite_conflict(cs, lo, hi, moving, e)
                    &&& r is Ok ==> final(self).restacked(
                        *old(self),
                        branch,
                        rewritten(file_moved(cs, k, file, t), if k < t { k } else { t }, old(self).branch_at(branch).base, old(self).next_id),
                        cs.len() as int,
                    )
                }
            },
    {
        let (i, k) = self.open_stack(Operation::MoveCommitFile, branch, commit)?;
        let t = match self.locate_commit(i, target) {
            None => return Err(EngineError::CommitNotFound),
            Some(t) => t,
        };
        let len = self.branches[i].commits.len();
        let ns = move_file_stack(&self.branches[i].commits, self.branches[i].base, k, file, t, self.next_id)?;
        self.install(i, ns, len as u64);
        Ok(())
    }
}

impl Workspace {
    /// Creates an empty, applied branch named `name` on the last integrated
    /// upstream commit, ordered after the others; returns its id.
    pub fn create_branch(&mut self, name: String) -> (r: Result<u64, EngineError>)
        requires
            old(self).wf(),
        ensures
            final(self).wf(),
            final(self).log() == old(self).log_after(Operation::CreateBranch),
            old(self).gate() matches Some(e) ==> r == Err::<u64, EngineError>(e),
            old(self).gate() is None && old(self).next_id == u64::MAX ==> r == Err::<u64, EngineError>(EngineError::BackendFailure),
            r is Err ==> final(self).unchanged(*old(self)),
            old(self).gate() is None && old(self).next_id < u64::MAX ==> {
                &&& r == Ok::<u64, EngineError>(old(self).next_id)
                &&& final(self).next_id == old(self).next_id + 1
                &&& final(self).ledger == old(self).ledger
                &&& final(self).base == old(self).base
                &&& final(self).mode == old(self).mode
                &&& branch_views(final(self).branches@) == branch_views(old(self).branches@).push(BranchView {
                    id: old(self).next_id,
                    name: name@,
                    commits: Seq::empty(),
                    base: old(self).base.last_integrated,
                    applied: true,
                    order: old(self).branches@.len() as u64,
                })
            },
    {
        self.begin(Operation::CreateBranch)?;
        if self.next_id == u64::MAX {
            return Err(EngineError::BackendFailure);
        }
        let id = self.next_id;
        let order = self.branches.len() as u64;
        let b = VirtualBranch { id, name, commits: Vec::new(), base: self.base.last_integrated, applied: true, order };
        proof {
            assert(views(b.commits@) =~= Seq::<CommitView>::empty());
        }
        self.branches.push(b);
        self.next_id = id + 1;
        proof {
            assert(branch_views(self.branches@) =~= branch_views(old(self).branches@).push(b@));
        }
        Ok(id)
    }

    /// Inserts a commit without changes at position `pos` of the stack of
    /// `branch`; every commit above it is rewritten.
    pub fn insert_blank(&mut self, branch: u64, pos: usize) -> (r: Result<(), EngineError>)
        requires
            old(self).wf(),
        ensures
            final(self).wf(),
            final(self).log() == old(self).log_after(Operation::InsertBlank),
            old(self).gate() matches Some(e) ==> r == Err::<(), EngineError>(e),
            old(self).gate() is None && !old(self).has_branch(branch) ==> r == Err::<(), EngineError>(EngineError::BranchNotFound),
            r is Err ==> final(self).unchanged(*old(self)),
            old(self).gate() is None && old(self).has_branch(branch) ==> {
                let cs = old(self).stack_of(branch);
                &&& old(self).next_id + cs.len() + 1 > u64::MAX ==> r == Err::<(), EngineError>(EngineError::BackendFailure)
                &&& old(self).next_id + cs.len() + 1 <= u64::MAX && pos > cs.len() ==> r == Err::<(), EngineError>(EngineError::InvalidPosition)
                &&& old(self).next_id + cs.len() + 1 <= u64::MAX && pos <= cs.len() ==> r is Ok && final(self).restacked(
                    *old(self),
                    branch,
                    rewritten(cs.insert(pos as int, blank(old(self).next_id)), pos as int, old(self).branch_at(branch).base, old(self).next_id),
                    cs.len() + 1 as int,
                )
            },
    {
        self.begin(Operation::InsertBlank)?;
        let i = match self.locate(branch) {
            None => return Err(EngineError::BranchNotFound),
            Some(i) => i,
        };
        let len = self.branches[i].commits.len();
        if self.next_id as u128 + len as u128 + 1 > u64::MAX as u128 {
            return Err(EngineError::BackendFailure);
        }
        proof {
            assert(branch_views(self.branches@)[i as int] == branch_views(old(self).branches@)[i as int]);
        }
        let ns = insert_blank_stack(&self.branches[i].commits, self.branches[i].base, pos, self.next_id)?;
        self.install(i, ns, len as u64 + 1);
        Ok(())
    }

    /// Gives hunk `h` to `branch` (see `claim_outcome`).
    pub fn claim_hunk(&mut self, h: Hunk, branch: u64, force: bool) -> (r: Result<(), EngineError>)
        requires
            old(self).wf(),
        ensures
            final(self).wf(),
            final(self).log() == old(self).log_after(Operation::ClaimHunk),
            old(self).gate() matches Some(e) ==> r == Err::<(), EngineError>(e),
            old(self).gate() is None && !old(self).has_branch(branch) ==> r == Err::<(), EngineError>(EngineError::BranchNotFound),
            r is Err ==> final(self).unchanged(*old(self)),
            final(self).branches == old(self).branches,
            final(self).base == old(self).base,
            final(self).mode == old(self).mode,
            final(self).next_id == old(self).next_id,
            old(self).gate() is None && old(self).has_branch(branch) ==> claim_outcome(old(self).ledger, final(self).ledger, h, branch, force, r),
    {
        self.begin(Operation::ClaimHunk)?;
        if self.locate(branch).is_none() {
            return Err(EngineError::BranchNotFound);
        }
        self.ledger.claim(h, branch, force)
    }

    /// Makes hunk `h` unassigned (see `release_outcome`).
    pub fn release_hunk(&mut self, h: Hunk) -> (r: Result<(), EngineError>)
        requires
            old(self).wf(),
        ensures
            final(self).wf(),
            final(self).log() == old(self).log_after(Operation::ReleaseHunk),
            old(self).gate() matches Some(e) ==> r == Err::<(), EngineError>(e),
            r is Err ==> final(self).unchanged(*old(self)),
            final(self).branches == old(self).branches,
            final(self).base == old(self).base,
            final(self).mode == old(self).mode,
            final(self).next_id == old(self).next_id,
            old(self).gate() is None ==> release_outcome(old(self).ledger, final(self).ledger, h, r),
    {
        self.begin(Operation::ReleaseHunk)?;
        self.ledger.release(h)
    }

    /// Reconciles the ledger with the working-directory diff `diff` (see
    /// `reconcile_outcome`); returns the claimed hunks that were lost.
    pub fn reconcile(&mut self, diff: &Vec<Hunk>) -> (r: Result<Vec<Hunk>, EngineError>)
        requires
            old(self).wf(),
        ensures
            final(self).wf(),
            final(self).log() == old(self).log_after(Operation::Reconcile),
            old(self).gate() matches Some(e) ==> r == Err::<Vec<Hunk>, EngineError>(e),
            r is Err ==> final(self).unchanged(*old(self)),
            final(self).branches == old(self).branches,
            final(self).base == old(self).base,
            final(self).mode == old(self).mode,
            final(self).next_id == old(self).next_id,
            old(self).gate() is None ==> (r matches Ok(lost) && reconcile_outcome(old(self).ledger, final(self).ledger, diff@, lost@)),
    {
        self.begin(Operation::Reconcile)?;
        Ok(self.ledger.reconcile(diff))
    }

    /// The ids of the snapshots, newest first.
    pub fn list_snapshots(&self) -> (r: Vec<u64>)
        requires
            self.wf(),
        ensures
            r@.len() == self.snapshots@.len(),
            forall|i: int| 0 <= i < r@.len() ==> #[trigger] r@[i] == self.snapshots@.len() - 1 - i,
    {
        let n = self.snapshots.len();
        let mut r: Vec<u64> = Vec::new();
        let mut i: usize = 0;
        while i < n
            invariant
                self.wf(),
                n == self.snapshots@.len(),
                0 <= i <= n,
                r@.len() == i,
                forall|k: int| 0 <= k < i ==> #[trigger] r@[k] == n - 1 - k,
            decreases n - i,
        {
            r.push((n - 1 - i) as u64);
            i = i + 1;
        }
        r
    }

    /// Overwrites the ledger and refs with those of snapshot `id`, after
    /// recording the current ones in a new snapshot.
    pub fn restore_snapshot(&mut self, id: u64) -> (r: Result<(), EngineError>)
        requires
            old(self).wf(),
        ensures
            final(self).wf(),
            final(self).log() == old(self).log_after(Operation::RestoreSnapshot),
            old(self).gate() matches Some(e) ==> r == Err::<(), EngineError>(e),
            old(self).gate() is None && id >= old(self).snapshots@.len() ==> r == Err::<(), EngineError>(EngineError::SnapshotNotFound),
            r is Err ==> final(self).unchanged(*old(self)),
            old(self).gate() is None && id < old(self).snapshots@.len() ==> {
                &&& r is Ok
                &&& final(self).state() == old(self).log()[id as int].state
                &&& final(self).mode == old(self).mode
                &&& final(self).next_id == old(self).next_id
                &&& final(self).ledger.clock == old(self).ledger.clock
            },
    {
        let fresh = self.begin(Operation::RestoreSnapshot)?;
        if id >= fresh {
            return Err(EngineError::SnapshotNotFound);
        }
        let n = self.snapshots.len();
        proof {
            assert(self.log().len() == self.snapshots@.len());
            assert(old(self).log().len() == old(self).snapshots@.len());
            assert(self.log().len() == old(self).log().len() + 1);
        }
        assert(id < n);
        let k = id as usize;
        proof {
            assert(self.log()[k as int] == old(self).log()[k as int]);
        }
        let entries = copy_claims(&self.snapshots[k].ledger);
        let branches = copy_branches(&self.snapshots[k].branches);
        self.ledger.entries = entries;
        self.branches = branches;
        self.base = self.snapshots[k].base;
        Ok(())
    }
}

/// What integrating upstream reports: how many commits were replayed, and
/// the commit replay stopped at, where it did.
#[derive(Clone, Copy, Debug, PartialEq, Eq, Structural)]
pub struct IntegrationResult {
    pub rebased: u64,
    pub conflicted_at: Option<u64>,
}

/// The state of an upstream integration after the first `n` branches.
pub ghost struct Replay {
    pub branches: Seq<BranchView>,
    pub next: int,
    pub rebased: int,
    pub stop: Option<(u64, u64)>,
    pub exhausted: bool,
}

/// The first position of `cs` whose changes overlap `upstream`.
pub open spec fn first_overlap(cs: Seq<CommitView>, upstream: Seq<Hunk>) -> int {
    choose|k: int| 0 <= k < cs.len() && conflicts(cs[k].changes, upstream) && clean_range(cs, 0, k, upstream)
}

/// Integration of the first `n` branches of `bs` onto `head`, where
/// `upstream` are the changes it brings and `next` the first fresh id: each
/// applied branch not on `head` has its stack replayed (see `rebase_stack`)
/// and its base moved to `head`; the first conflict stops the replay there, as
/// does running out of ids.
pub open spec fn replay(bs: Seq<BranchView>, n: int, head: u64, upstream: Seq<Hunk>, next: u64) -> Replay
    decreases n,
{
    if n <= 0 {
        Replay { branches: Seq::empty(), next: next as int, rebased: 0, stop: None, exhausted: false }
    } else {
        let p = replay(bs, n - 1, head, upstream, next);
        let b = bs[n - 1];
        let len = b.commits.len() as int;
        if p.stop is Some || p.exhausted || !b.applied || b.base == head {
            Replay { branches: p.branches.push(b), ..p }
        } else if p.next + len > u64::MAX {
            Replay { branches: p.branches.push(b), exhausted: true, ..p }
        } else if clean_range(b.commits, 0, len, upstream) {
            Replay {
                branches: p.branches.push(BranchView { commits: rewritten(b.commits, 0, head, p.next as u64), base: head, ..b }),
                next: p.next + len,
                rebased: p.rebased + len,
                ..p
            }
        } else {
            let k = first_overlap(b.commits, upstream);
            Replay {
                branches: p.branches.push(BranchView {
                    commits: rewritten(b.commits.take(k), 0, head, p.next as u64) + b.commits.skip(k),
                    base: head,
                    ..b
                }),
                next: p.next + k,
                rebased: p.rebased + k,
                stop: Some((b.id, b.commits[k].id)),
                ..p
            }
        }
    }
}

pub proof fn lemma_first_overlap(cs: Seq<CommitView>, upstream: Seq<Hunk>, k: int)
    requires
        0 <= k < cs.len(),
        conflicts(cs[k].changes, upstream),
        clean_range(cs, 0, k, upstream),
    ensures
        first_overlap(cs, upstream) == k,
{
    let j = first_overlap(cs, upstream);
    assert(0 <= j < cs.len() && conflicts(cs[j].changes, upstream) && clean_range(cs, 0, j, upstream));
    if j < k {
        assert(!conflicts(cs[j].changes, upstream));
    }
    if k < j {
        assert(!conflicts(cs[k].changes, upstream));
    }
}

/// Where some commit of `cs.take(n)` overlaps `upstream`, a first one does.
pub proof fn lemma_first_overlap_exists(cs: Seq<CommitView>, upstream: Seq<Hunk>, n: int)
    requires
        0 <= n <= cs.len(),
        !clean_range(cs, 0, n, upstream),
    ensures
        exists|k: int| 0 <= k < n && conflicts(cs[k].changes, upstream) && clean_range(cs, 0, k, upstream),
    decreases n,
{
    if clean_range(cs, 0, n - 1, upstream) {
        assert(conflicts(cs[n - 1].changes, upstream));
    } else {
        lemma_first_overlap_exists(cs, upstream, n - 1);
    }
}

pub proof fn lemma_replay_len(bs: Seq<BranchView>, n: int, head: u64, upstream: Seq<Hunk>, next: u64)
    requires
        0 <= n <= bs.len(),
    ensures
        replay(bs, n, head, upstream, next).branches.len() == n,
        replay(bs, n, head, upstream, next).next <= u64::MAX,
        replay(bs, n, head, upstream, next).next >= 0,
        replay(bs, n, head, upstream, next).rebased >= 0,
        replay(bs, n, head, upstream, next).rebased <= replay(bs, n, head, upstream, next).next,
    decreases n,
{
    if n > 0 {
        lemma_replay_len(bs, n - 1, head, upstream, next);
        let b = bs[n - 1];
        if !clean_range(b.commits, 0, b.commits.len() as int, upstream) {
            lemma_first_overlap_exists(b.commits, upstream, b.commits.len() as int);
        }
    }
}

impl Workspace {
    /// Records what a fetch found upstream: its head, the merge base with it,
    /// and how many upstream commits are not integrated yet.
    pub fn fetch_and_check(&mut self, head: u64, merge_base: u64, ahead: u64) -> (r: Result<(), EngineError>)
        requires
            old(self).wf(),
        ensures
            final(self).wf(),
            final(self).log() == old(self).log_after(Operation::FetchUpstream),
            r is Err <==> old(self).gate() is Some,
            old(self).gate() matches Some(e) ==> r == Err::<(), EngineError>(e) && final(self).unchanged(*old(self)),
            r is Ok ==> final(self).base == (BaseBranch {
                upstream_head: head,
                merge_base: merge_base,
                last_integrated: old(self).base.last_integrated,
                divergence: ahead,
            }) && final(self).ledger == old(self).ledger && final(self).branches == old(self).branches
                && final(self).mode == old(self).mode && final(self).next_id == old(self).next_id,
    {
        self.begin(Operation::FetchUpstream)?;
        self.base = BaseBranch { upstream_head: head, merge_base, last_integrated: self.base.last_integrated, divergence: ahead };
        Ok(())
    }

    /// Replays every applied branch onto the upstream head (see `replay`),
    /// where `upstream` are the changes it brings. A conflict stops the replay
    /// and puts the workspace in edit mode on that commit, keeping what was
    /// replayed. With no divergence nothing changes.
    pub fn integrate_upstream(&mut self, upstream: &Vec<Hunk>) -> (r: Result<IntegrationResult, EngineError>)
        requires
            old(self).wf(),
        ensures
            final(self).wf(),
            final(self).log() == old(self).log_after(Operation::IntegrateUpstream),
            old(self).gate() matches Some(e) ==> r == Err::<IntegrationResult, EngineError>(e) && final(self).unchanged(*old(self)),
            old(self).gate() is None && old(self).base.divergence == 0 ==> r == Ok::<IntegrationResult, EngineError>(
                IntegrationResult { rebased: 0, conflicted_at: None },
            ) && final(self).unchanged(*old(self)),
            old(self).gate() is None && old(self).base.divergence != 0 ==> {
                let p = replay(
                    branch_views(old(self).branches@),
                    old(self).branches@.len() as int,
                    old(self).base.upstream_head,
                    upstream@,
                    old(self).next_id,
                );
                &&& branch_views(final(self).branches@) == p.branches
                &&& final(self).next_id == p.next
                &&& final(self).ledger == old(self).ledger
                &&& p.exhausted ==> r == Err::<IntegrationResult, EngineError>(EngineError::BackendFailure)
                    && final(self).base == old(self).base && final(self).mode == old(self).mode
                &&& !p.exhausted && p.stop is None ==> r == Ok::<IntegrationResult, EngineError>(
                    IntegrationResult { rebased: p.rebased as u64, conflicted_at: None },
                ) && final(self).mode == old(self).mode && final(self).base == (BaseBranch {
                    upstream_head: old(self).base.upstream_head,
                    merge_base: old(self).base.upstream_head,
                    last_integrated: old(self).base.upstream_head,
                    divergence: 0,
                })
                &&& !p.exhausted && p.stop is Some ==> r == Ok::<IntegrationResult, EngineError>(
                    IntegrationResult { rebased: p.rebased as u64, conflicted_at: Some(p.stop.unwrap().1) },
                ) && final(self).base == old(self).base && final(self).mode == (Mode::Edit {
                    branch: p.stop.unwrap().0,
                    commit: p.stop.unwrap().1,
                    snapshot: old(self).snapshots@.len() as u64,
                })
            },
    {
        let snap = self.begin(Operation::IntegrateUpstream)?;
        if self.base.divergence == 0 {
            return Ok(IntegrationResult { rebased: 0, conflicted_at: None });
        }
        let head = self.base.upstream_head;
        let ghost bs = branch_views(self.branches@);
        let ghost next0 = self.next_id;
        let n = self.branches.len();
        let mut out: Vec<VirtualBranch> = Vec::new();
        let mut next = self.next_id;
        let mut rebased: u64 = 0;
        let mut stop: Option<(u64, u64)> = None;
        let mut exhausted = false;
        let mut i: usize = 0;
        while i < n
            invariant
                n == self.branches@.len(),
                bs == branch_views(self.branches@),
                0 <= i <= n,
                ({
                    let p = replay(bs, i as int, head, upstream@, next0);
                    &&& branch_views(out@) == p.branches
                    &&& next == p.next
                    &&& rebased == p.rebased
                    &&& stop == p.stop
                    &&& exhausted == p.exhausted
                }),
            decreases n - i,
        {
            proof {
                lemma_replay_len(bs, i as int, head, upstream@, next0);
                lemma_replay_len(bs, i + 1, head, upstream@, next0);
            }
            let b = &self.branches[i];
            let len = b.commits.len();
            let ghost before = out@;
            if stop.is_some() || exhausted || !b.applied || b.base == head {
                out.push(b.copy());
            } else if next as u128 + len as u128 > u64::MAX as u128 {
                out.push(b.copy());
                exhausted = true;
            } else {
                let (ns, hit) = rebase_stack(&b.commits, head, upstream, next);
                let nb = VirtualBranch { id: b.id, name: b.name.clone(), commits: ns, base: head, applied: b.applied, order: b.order };
                match hit {
                    None => {
                        next = next + len as u64;
                        rebased = rebased + len as u64;
                    },
                    Some(k) => {
                        proof {
                            lemma_first_overlap(b@.commits, upstream@, k as int);
                        }
                        stop = Some((b.id, b.commits[k].id));
                        next = next + k as u64;
                        rebased = rebased + k as u64;
                    },
                }
                out.push(nb);
            }
            proof {
                assert(branch_views(out@) =~= branch_views(before).push(out@.last()@));
                assert(bs[i as int] == self.branches@[i as int]@);
            }
            i = i + 1;
        }
        proof {
            lemma_replay_len(bs, n as int, head, upstream@, next0);
        }
        proof {
            assert(self.log().len() == self.snapshots@.len());
            assert(old(self).log().len() == old(self).snapshots@.len());
        }
        self.branches = out;
        self.next_id = next;
        if exhausted {
            return Err(EngineError::BackendFailure);
        }
        match stop {
            None => {
                self.base = BaseBranch { upstream_head: head, merge_base: head, last_integrated: head, divergence: 0 };
                Ok(IntegrationResult { rebased, conflicted_at: None })
            },
            Some((b, c)) => {
                self.mode = Mode::Edit { branch: b, commit: c, snapshot: snap };
                Ok(IntegrationResult { rebased, conflicted_at: Some(c) })
            },
        }
    }
}

impl Workspace {
    /// Hands commit `commit` of `branch` to the user for editing on its own.
    pub fn enter_edit(&mut self, branch: u64, commit: u64) -> (r: Result<(), EngineError>)
        requires
            old(self).wf(),
        ensures
            final(self).wf(),
            final(self).log() == old(self).log_after(Operation::EnterEdit),
            old(self).lookup_error(branch, commit) matches Some(e) ==> r == Err::<(), EngineError>(e),
            r is Err ==> final(self).unchanged(*old(self)),
            old(self).lookup_error(branch, commit) is None ==> r is Ok && final(self).mode == (Mode::Edit {
                branch: branch,
                commit: commit,
                snapshot: old(self).snapshots@.len() as u64,
            }) && final(self).state() == old(self).state() && final(self).next_id == old(self).next_id
                && final(self).ledger.clock == old(self).ledger.clock,
    {
        self.open_stack(Operation::EnterEdit, branch, commit)?;
        proof {
            assert(self.log().len() == self.snapshots@.len());
            assert(old(self).log().len() == old(self).snapshots@.len());
        }
        let snap = (self.snapshots.len() - 1) as u64;
        self.mode = Mode::Edit { branch, commit, snapshot: snap };
        Ok(())
    }

    /// Why `save_edit` and `abort_edit` cannot start.
    pub open spec fn edit_error(&self) -> Option<EngineError> {
        if self.snapshots@.len() + 1 >= u64::MAX {
            Some(EngineError::BackendFailure)
        } else if self.mode == Mode::Normal {
            Some(EngineError::NotInEditMode)
        } else {
            None
        }
    }

    /// Rewrites the commit being edited with the changes `changes` taken from
    /// the working directory, and every commit above it; then leaves edit
    /// mode. On a conflict nothing changes and edit mode stays.
    pub fn save_edit(&mut self, changes: &Vec<Hunk>) -> (r: Result<(), EngineError>)
        requires
            old(self).wf(),
        ensures
            final(self).wf(),
            final(self).log() == old(self).log_after(Operation::SaveEdit),
            old(self).edit_error() matches Some(e) ==> r == Err::<(), EngineError>(e),
            r is Err ==> final(self).unchanged(*old(self)),
            old(self).edit_error() is None ==> {
                let branch = old(self).mode->branch;
                let commit = old(self).mode->commit;
                let cs = old(self).stack_of(branch);
                let k = old(self).commit_at(branch, commit);
                &&& !old(self).has_branch(branch) ==> r == Err::<(), EngineError>(EngineError::BranchNotFound)
                &&& old(self).has_branch(branch) && !has_commit(cs, commit) ==> r == Err::<(), EngineError>(EngineError::CommitNotFound)
                &&& old(self).has_branch(branch) && has_commit(cs, commit) && old(self).next_id + cs.len() + 1 > u64::MAX
                    ==> r == Err::<(), EngineError>(EngineError::BackendFailure)
                &&& old(self).has_branch(branch) && has_commit(cs, commit) && old(self).next_id + cs.len() + 1 <= u64::MAX ==> {
                    &&& r is Err <==> !clean_range(cs, k + 1, cs.len() as int, fresh(changes@, cs[k].changes))
                    &&& r matches Err(e) ==> rewrite_conflict(cs, k + 1, cs.len() as int, fresh(changes@, cs[k].changes), e)
                    &&& r is Ok ==> final(self).mode == Mode::Normal && branch_views(final(self).branches@)
                        == branch_views(old(self).branches@).update(
                        branch_index(branch_views(old(self).branches@), branch),
                        with_stack(
                            old(self).branch_at(branch),
                            rewritten(cs.update(k, with_changes(cs[k], changes@)), k, old(self).branch_at(branch).base, old(self).next_id),
                        ),
                    ) && final(self).next_id == old(self).next_id + cs.len() && final(self).base == old(self).base
                        && final(self).ledger == old(self).ledger
                }
            },
    {
        self.capture(Operation::SaveEdit)?;
        let (branch, commit) = match self.mode {
            Mode::Normal => return Err(EngineError::NotInEditMode),
            Mode::Edit { branch, commit, .. } => (branch, commit),
        };
        let i = match self.locate(branch) {
            None => return Err(EngineError::BranchNotFound),
            Some(i) => i,
        };
        proof {
            assert(branch_views(self.branches@)[i as int] == branch_views(old(self).branches@)[i as int]);
        }
        let k = match self.locate_commit(i, commit) {
            None => return Err(EngineError::CommitNotFound),
            Some(k) => k,
        };
        let len = self.branches[i].commits.len();
        if self.next_id as u128 + len as u128 + 1 > u64::MAX as u128 {
            return Err(EngineError::BackendFailure);
        }
        let ns = edit_stack(&self.branches[i].commits, self.branches[i].base, k, changes, self.next_id)?;
        self.install(i, ns, len as u64);
        self.mode = Mode::Normal;
        Ok(())
    }

    /// Leaves edit mode, restoring the ledger and refs recorded when it was
    /// entered.
    pub fn abort_edit(&mut self) -> (r: Result<(), EngineError>)
        requires
            old(self).wf(),
        ensures
            final(self).wf(),
            final(self).log() == old(self).log_after(Operation::AbortEdit),
            old(self).edit_error() matches Some(e) ==> r == Err::<(), EngineError>(e) && final(self).unchanged(*old(self)),
            old(self).edit_error() is None ==> r is Ok && final(self).mode == Mode::Normal
                && final(self).state() == old(self).log()[old(self).mode->snapshot as int].state
                && final(self).next_id == old(self).next_id && final(self).ledger.clock == old(self).ledger.clock,
    {
        self.capture(Operation::AbortEdit)?;
        let snap = match self.mode {
            Mode::Normal => return Err(EngineError::NotInEditMode),
            Mode::Edit { snapshot, .. } => snapshot,
        };
        proof {
            assert(self.log().len() == self.snapshots@.len());
            assert(old(self).log().len() == old(self).snapshots@.len());
            assert(self.log()[snap as int] == old(self).log()[snap as int]);
        }
        let n = self.snapshots.len();
        assert(snap < n);
        let k = snap as usize;
        let entries = copy_claims(&self.snapshots[k].ledger);
        let branches = copy_branches(&self.snapshots[k].branches);
        self.ledger.entries = entries;
        self.branches = branches;
        self.base = self.snapshots[k].base;
        self.mode = Mode::Normal;
        Ok(())
    }

    /// Why an operation on branch `branch` alone cannot start.
    pub open spec fn branch_error(&self, branch: u64) -> Option<EngineError> {
        if self.gate() is Some {
            self.gate()
        } else if !self.has_branch(branch) {
            Some(EngineError::BranchNotFound)
        } else {
            None
        }
    }

    /// Removes branch `branch`; the hunks it owned become unassigned. Without
    /// `force`, fails with `UnpushedCommits` where a commit of it was never pushed.
    pub fn delete_branch(&mut self, branch: u64, force: bool) -> (r: Result<(), EngineError>)
        requires
            old(self).wf(),
        ensures
            final(self).wf(),
            final(self).log() == old(self).log_after(Operation::DeleteBranch),
            old(self).branch_error(branch) matches Some(e) ==> r == Err::<(), EngineError>(e),
            r is Err ==> final(self).unchanged(*old(self)),
            old(self).branch_error(branch) is None ==> {
                let cs = old(self).stack_of(branch);
                let unpushed = exists|k: int| 0 <= k < cs.len() && !(#[trigger] cs[k]).pushed;
                &&& !force && unpushed ==> r == Err::<(), EngineError>(EngineError::UnpushedCommits)
                &&& (force || !unpushed) ==> r is Ok && branch_views(final(self).branches@) == branch_views(old(self).branches@).remove(
                    branch_index(branch_views(old(self).branches@), branch),
                ) && final(self).ledger.entries@ == released_all(old(self).ledger.entries@, branch)
                    && final(self).ledger.clock == old(self).ledger.clock && final(self).base == old(self).base
                    && final(self).mode == old(self).mode && final(self).next_id == old(self).next_id
            },
    {
        self.begin(Operation::DeleteBranch)?;
        let i = match self.locate(branch) {
            None => return Err(EngineError::BranchNotFound),
            Some(i) => i,
        };
        proof {
            assert(branch_views(self.branches@)[i as int] == branch_views(old(self).branches@)[i as int]);
        }
        proof {
            assert(self.branches@[i as int]@.commits == old(self).stack_of(branch));
        }
        if !force && has_unpushed(&self.branches[i].commits) {
            return Err(EngineError::UnpushedCommits);
        }
        let _gone = self.branches.remove(i);
        proof {
            assert(branch_views(self.branches@) =~= branch_views(old(self).branches@).remove(i as int));
        }
        self.ledger.release_branch(branch);
        Ok(())
    }

    /// Turns branch `branch` into a plain branch reference: returns the id of
    /// its head commit, for the reference to point at, and removes the
    /// virtual branch; the hunks it owned become unassigned.
    pub fn convert_to_real_branch(&mut self, branch: u64) -> (r: Result<u64, EngineError>)
        requires
            old(self).wf(),
        ensures
            final(self).wf(),
            final(self).log() == old(self).log_after(Operation::ConvertToRealBranch),
            old(self).branch_error(branch) matches Some(e) ==> r == Err::<u64, EngineError>(e),
            r is Err ==> final(self).unchanged(*old(self)),
            old(self).branch_error(branch) is None ==> r == Ok::<u64, EngineError>(
                crate::stack::head_of(old(self).stack_of(branch), old(self).branch_at(branch).base),
            ) && branch_views(final(self).branches@) == branch_views(old(self).branches@).remove(
                branch_index(branch_views(old(self).branches@), branch),
            ) && final(self).ledger.entries@ == released_all(old(self).ledger.entries@, branch)
                && final(self).base == old(self).base && final(self).mode == old(self).mode
                && final(self).next_id == old(self).next_id,
    {
        self.begin(Operation::ConvertToRealBranch)?;
        let i = match self.locate(branch) {
            None => return Err(EngineError::BranchNotFound),
            Some(i) => i,
        };
        let head = self.branches[i].head();
        let _gone = self.branches.remove(i);
        proof {
            assert(branch_views(self.branches@) =~= branch_views(old(self).branches@).remove(i as int));
        }
        self.ledger.release_branch(branch);
        Ok(head)
    }

    /// Sets whether branch `branch` is applied to the working directory, and
    /// its place in the order of branches.
    pub fn update_branch(&mut self, branch: u64, applied: bool, order: u64) -> (r: Result<(), EngineError>)
        requires
            old(self).wf(),
        ensures
            final(self).wf(),
            final(self).log() == old(self).log_after(Operation::UpdateBranch),
            old(self).branch_error(branch) matches Some(e) ==> r == Err::<(), EngineError>(e),
            r is Err ==> final(self).unchanged(*old(self)),
            old(self).branch_error(branch) is None ==> r is Ok && branch_views(final(self).branches@) == branch_views(old(self).branches@).update(
                branch_index(branch_views(old(self).branches@), branch),
                BranchView { applied: applied, order: order, ..old(self).branch_at(branch) },
            ) && final(self).ledger == old(self).ledger && final(self).base == old(self).base
                && final(self).mode == old(self).mode && final(self).next_id == old(self).next_id,
    {
        self.begin(Operation::UpdateBranch)?;
        let i = match self.locate(branch) {
            None => return Err(EngineError::BranchNotFound),
            Some(i) => i,
        };
        let b = &self.branches[i];
        let nb = VirtualBranch {
            id: b.id,
            name: b.name.clone(),
            commits: copy_stack(&b.commits),
            base: b.base,
            applied,
            order,
        };
        self.put_branch(i, nb);
        Ok(())
    }

    /// Records that every commit of branch `branch` was pushed.
    pub fn mark_pushed(&mut self, branch: u64) -> (r: Result<(), EngineError>)
        requires
            old(self).wf(),
        ensures
            final(self).wf(),
            final(self).log() == old(self).log_after(Operation::MarkPushed),
            old(self).branch_error(branch) matches Some(e) ==> r == Err::<(), EngineError>(e),
            r is Err ==> final(self).unchanged(*old(self)),
            old(self).branch_error(branch) is None ==> r is Ok && final(self).restacked(
                *old(self),
                branch,
                Seq::new(
                    old(self).stack_of(branch).len(),
                    |k: int| CommitView { pushed: true, ..old(self).stack_of(branch)[k] },
                ),
                0,
            ),
    {
        self.begin(Operation::MarkPushed)?;
        let i = match self.locate(branch) {
            None => return Err(EngineError::BranchNotFound),
            Some(i) => i,
        };
        proof {
            assert(branch_views(self.branches@)[i as int] == branch_views(old(self).branches@)[i as int]);
        }
        let ghost target = Seq::new(
            old(self).stack_of(branch).len(),
            |k: int| CommitView { pushed: true, ..old(self).stack_of(branch)[k] },
        );
        let mut ns: Vec<Commit> = Vec::new();
        let mut k: usize = 0;
        while k < self.branches[i].commits.len()
            invariant
                i < self.branches@.len(),
                self.branches@[i as int]@ == old(self).branch_at(branch),
                target == Seq::new(
                    old(self).stack_of(branch).len(),
                    |k: int| CommitView { pushed: true, ..old(self).stack_of(branch)[k] },
                ),
                0 <= k <= self.branches@[i as int].commits@.len(),
                ns@.len() == k,
                forall|m: int| 0 <= m < k ==> (#[trigger] ns@[m])@ == target[m],
            decreases self.branches@[i as int].commits@.len() - k,
        {
            let c = &self.branches[i].commits[k];
            proof {
                assert(c@ == old(self).stack_of(branch)[k as int]);
            }
            ns.push(Commit {
                id: c.id,
                parent: c.parent,
                message: c.message.clone(),
                changes: crate::stack::copy_hunks(&c.changes),
                change_ref: c.change_ref,
                pushed: true,
            });
            k = k + 1;
        }
        proof {
            assert(views(ns@) =~= target);
        }
        self.install(i, ns, 0);
        Ok(())
    }

    /// The hunks that branch `branch` owns, in ledger order.
    pub fn owned_hunks(&self, branch: u64) -> (r: Vec<Hunk>)
        ensures
            r@ == crate::ledger::owned_by(self.ledger.entries@, branch),
    {
        let mut r: Vec<Hunk> = Vec::new();
        let mut i: usize = 0;
        while i < self.ledger.entries.len()
            invariant
                0 <= i <= self.ledger.entries@.len(),
                r@ == crate::ledger::owned_by(self.ledger.entries@.take(i as int), branch),
            decreases self.ledger.entries@.len() - i,
        {
            proof {
                assert(self.ledger.entries@.take(i + 1).drop_last() =~= self.ledger.entries@.take(i as int));
            }
            let c = self.ledger.entries[i];
            if c.owner == Some(branch) {
                r.push(c.hunk);
            }
            i = i + 1;
        }
        proof {
            assert(self.ledger.entries@.take(self.ledger.entries@.len() as int) =~= self.ledger.entries@);
        }
        r
    }
}

/// `h` is owned differently in the ledgers `a` and `b`: it is in one only, or
/// has another owner.
pub open spec fn ownership_differs(a: Seq<Claim>, b: Seq<Claim>, h: Hunk) -> bool {
    if has_hunk(a, h) && has_hunk(b, h) {
        claim_of(a, h).owner != claim_of(b, h).owner
    } else {
        has_hunk(a, h) || has_hunk(b, h)
    }
}

/// The position of the claim for `h` in `s`.
pub fn find_claim(s: &Vec<Claim>, h: &Hunk) -> (r: Option<usize>)
    requires
        distinct_hunks(s@),
    ensures
        r is None <==> !has_hunk(s@, *h),
        r matches Some(i) ==> i < s@.len() && s@[i as int].hunk == *h && claim_of(s@, *h) == s@[i as int],
{
    let mut i: usize = 0;
    while i < s.len()
        invariant
            distinct_hunks(s@),
            0 <= i <= s@.len(),
            forall|k: int| 0 <= k < i ==> s@[k].hunk != *h,
        decreases s@.len() - i,
    {
        if s[i].hunk == *h {
            proof {
                crate::ledger::lemma_claim_at(s@, i as int);
            }
            return Some(i);
        }
        i = i + 1;
    }
    None
}

/// The hunks owned differently in `a` and in `b`, once each.
pub fn ownership_delta(a: &Vec<Claim>, b: &Vec<Claim>) -> (r: Vec<Hunk>)
    requires
        distinct_hunks(a@),
        distinct_hunks(b@),
    ensures
        forall|k: int| 0 <= k < r@.len() ==> ownership_differs(a@, b@, #[trigger] r@[k]),
        forall|h: Hunk| ownership_differs(a@, b@, h) ==> r@.contains(h),
        forall|x: int, y: int| 0 <= x < y < r@.len() ==> r@[x] != r@[y],
{
    let mut r: Vec<Hunk> = Vec::new();
    let mut j: usize = 0;
    while j < b.len()
        invariant
            distinct_hunks(a@),
            distinct_hunks(b@),
            0 <= j <= b@.len(),
            forall|k: int| 0 <= k < r@.len() ==> ownership_differs(a@, b@, #[trigger] r@[k]),
            forall|k: int| 0 <= k < r@.len() ==> exists|m: int| 0 <= m < j && b@[m].hunk == #[trigger] r@[k],
            forall|m: int| 0 <= m < j && ownership_differs(a@, b@, #[trigger] b@[m].hunk) ==> r@.contains(b@[m].hunk),
            forall|x: int, y: int| 0 <= x < y < r@.len() ==> r@[x] != r@[y],
        decreases b@.len() - j,
    {
        let c = b[j];
        proof {
            crate::ledger::lemma_claim_at(b@, j as int);
        }
        let differs = match find_claim(a, &c.hunk) {
            None => true,
            Some(i) => a[i].owner != c.owner,
        };
        let ghost r0 = r@;
        if differs {
            r.push(c.hunk);
            proof {
                assert(r@[r0.len() as int] == c.hunk);
                assert forall|k: int| 0 <= k < r@.len() implies exists|m: int| 0 <= m < j + 1 && b@[m].hunk == #[trigger] r@[k] by {
                    if k < r0.len() {
                        assert(r0[k] == r@[k]);
                    } else {
                        assert(b@[j as int].hunk == r@[k]);
                    }
                }
                assert forall|x: int, y: int| 0 <= x < y < r@.len() implies r@[x] != r@[y] by {
                    if y == r0.len() {
                        assert(r0[x] == r@[x]);
                        let m = choose|m: int| 0 <= m < j && b@[m].hunk == #[trigger] r0[x];
                    }
                }
            }
        }
        proof {
            assert forall|m: int| 0 <= m < j + 1 && ownership_differs(a@, b@, #[trigger] b@[m].hunk) implies r@.contains(b@[m].hunk) by {
                if m < j {
                    let q = choose|q: int| 0 <= q < r0.len() && r0[q] == b@[m].hunk;
                    assert(r@[q] == r0[q]);
                } else {
                    assert(r@[r@.len() - 1] == c.hunk);
                }
            }
        }
        j = j + 1;
    }
    let mut i: usize = 0;
    while i < a.len()
        invariant
            distinct_hunks(a@),
            distinct_hunks(b@),
            0 <= i <= a@.len(),
            forall|k: int| 0 <= k < r@.len() ==> ownership_differs(a@, b@, #[trigger] r@[k]),
            forall|k: int| 0 <= k < r@.len() ==> has_hunk(b@, #[trigger] r@[k]) || exists|m: int| 0 <= m < i && a@[m].hunk == r@[k],
            forall|m: int| 0 <= m < b@.len() && ownership_differs(a@, b@, #[trigger] b@[m].hunk) ==> r@.contains(b@[m].hunk),
            forall|m: int| 0 <= m < i && ownership_differs(a@, b@, #[trigger] a@[m].hunk) ==> r@.contains(a@[m].hunk),
            forall|x: int, y: int| 0 <= x < y < r@.len() ==> r@[x] != r@[y],
        decreases a@.len() - i,
    {
        let c = a[i];
        proof {
            crate::ledger::lemma_claim_at(a@, i as int);
        }
        let ghost r0 = r@;
        if find_claim(b, &c.hunk).is_none() {
            r.push(c.hunk);
            proof {
                assert(r@[r0.len() as int] == c.hunk);
                assert forall|k: int| 0 <= k < r@.len() implies has_hunk(b@, #[trigger] r@[k]) || exists|m: int| 0 <= m < i + 1 && a@[m].hunk == r@[k] by {
                    if k < r0.len() {
                        assert(r0[k] == r@[k]);
                        if !has_hunk(b@, r0[k]) {
                            let m = choose|m: int| 0 <= m < i && a@[m].hunk == r0[k];
                            assert(a@[m].hunk == r@[k]);
                        }
                    } else {
                        assert(a@[i as int].hunk == r@[k]);
                    }
                }
                assert forall|x: int, y: int| 0 <= x < y < r@.len() implies r@[x] != r@[y] by {
                    if y == r0.len() {
                        assert(r0[x] == r@[x]);
                        if !has_hunk(b@, r0[x]) {
                            let m = choose|m: int| 0 <= m < i && a@[m].hunk == r0[x];
                        }
                    }
                }
                assert forall|m: int| 0 <= m < b@.len() && ownership_differs(a@, b@, #[trigger] b@[m].hunk) implies r@.contains(b@[m].hunk) by {
                    let q = choose|q: int| 0 <= q < r0.len() && r0[q] == b@[m].hunk;
                    assert(r@[q] == r0[q]);
                }
            }
        }
        proof {
            assert forall|m: int| 0 <= m < i + 1 && ownership_differs(a@, b@, #[trigger] a@[m].hunk) implies r@.contains(a@[m].hunk) by {
                if m < i {
                    let q = choose|q: int| 0 <= q < r0.len() && r0[q] == a@[m].hunk;
                    assert(r@[q] == r0[q]);
                } else if has_hunk(b@, c.hunk) {
                    let q = choose|q: int| 0 <= q < b@.len() && b@[q].hunk == c.hunk;
                    assert(ownership_differs(a@, b@, b@[q].hunk));
                    let z = choose|z: int| 0 <= z < r0.len() && r0[z] == b@[q].hunk;
                    assert(r@[z] == r0[z]);
                } else {
                    assert(r@[r@.len() - 1] == c.hunk);
                }
            }
        }
        i = i + 1;
    }
    proof {
        assert forall|h: Hunk| ownership_differs(a@, b@, h) implies r@.contains(h) by {
            if has_hunk(b@, h) {
                let m = choose|m: int| 0 <= m < b@.len() && b@[m].hunk == h;
                assert(ownership_differs(a@, b@, b@[m].hunk));
            } else {
                let m = choose|m: int| 0 <= m < a@.len() && a@[m].hunk == h;
                assert(ownership_differs(a@, b@, a@[m].hunk));
            }
        }
    }
    r
}

impl Workspace {
    /// The ledger that snapshot `id` is compared against: that of the snapshot
    /// before it, or an empty one for the first.
    pub open spec fn previous_ledger(&self, id: int) -> Seq<Claim> {
        if id == 0 {
            Seq::empty()
        } else {
            self.log()[id - 1].state.ledger
        }
    }

    /// The hunks whose ownership snapshot `id` records differently from the
    /// snapshot before it, once each.
    pub fn snapshot_diff(&self, id: u64) -> (r: Result<Vec<Hunk>, EngineError>)
        requires
            self.wf(),
        ensures
            id >= self.snapshots@.len() ==> r == Err::<Vec<Hunk>, EngineError>(EngineError::SnapshotNotFound),
            id < self.snapshots@.len() ==> (r matches Ok(d) && {
                let a = self.previous_ledger(id as int);
                let b = self.log()[id as int].state.ledger;
                &&& forall|k: int| 0 <= k < d@.len() ==> ownership_differs(a, b, #[trigger] d@[k])
                &&& forall|h: Hunk| ownership_differs(a, b, h) ==> d@.contains(h)
                &&& forall|x: int, y: int| 0 <= x < y < d@.len() ==> d@[x] != d@[y]
            }),
    {
        let n = self.snapshots.len();
        if id >= n as u64 {
            return Err(EngineError::SnapshotNotFound);
        }
        let k = id as usize;
        let empty: Vec<Claim> = Vec::new();
        let d = if k == 0 {
            ownership_delta(&empty, &self.snapshots[k].ledger)
        } else {
            ownership_delta(&self.snapshots[k - 1].ledger, &self.snapshots[k].ledger)
        };
        proof {
            assert(empty@ =~= Seq::<Claim>::empty());
        }
        Ok(d)
    }
}

} // verus!
