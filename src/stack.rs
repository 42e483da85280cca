use vstd::prelude::*;

use crate::error::EngineError;
use crate::hunk::{conflicts, any_overlap, Hunk};

verus! {

/// A commit of a virtual branch's stack. `changes` are the hunks the commit
/// introduces over its parent; `change_ref` is the commit's logical identity,
/// which survives every rewrite that gives it a new `id`.
#[derive(Debug)]
pub struct Commit {
    pub id: u64,
    pub parent: u64,
    pub message: String,
    pub changes: Vec<Hunk>,
    pub change_ref: u64,
    pub pushed: bool,
}

pub ghost struct CommitView {
    pub id: u64,
    pub parent: u64,
    pub message: Seq<char>,
    pub changes: Seq<Hunk>,
    pub change_ref: u64,
    pub pushed: bool,
}

impl View for Commit {
    type V = CommitView;

    open spec fn view(&self) -> CommitView {
        CommitView {
            id: self.id,
            parent: self.parent,
            message: self.message@,
            changes: self.changes@,
            change_ref: self.change_ref,
            pushed: self.pushed,
        }
    }
}

/// The views of a stack's commits, oldest first.
pub open spec fn views(cs: Seq<Commit>) -> Seq<CommitView> {
    Seq::new(cs.len(), |i: int| cs[i]@)
}

/// The stack `cs` with every commit from position `from` on written anew:
/// fresh ids `first`, `first + 1`, ..., each parented on the commit below it
/// (the first on `base`), no longer pushed, all else kept.
pub open spec fn rewritten(cs: Seq<CommitView>, from: int, base: u64, first: u64) -> Seq<CommitView> {
    Seq::new(
        cs.len(),
        |k: int|
            if k < from {
                cs[k]
            } else {
                CommitView {
                    id: (first + (k - from)) as u64,
                    parent: if k == 0 {
                        base
                    } else if k == from {
                        cs[k - 1].id
                    } else {
                        (first + (k - from) - 1) as u64
                    },
                    message: cs[k].message,
                    changes: cs[k].changes,
                    change_ref: cs[k].change_ref,
                    pushed: false,
                }
            },
    )
}

/// The id a stack's newest commit has, or `base` for an empty stack.
pub open spec fn head_of(cs: Seq<CommitView>, base: u64) -> u64 {
    if cs.len() == 0 {
        base
    } else {
        cs.last().id
    }
}

/// A copy of `v`.
pub fn copy_hunks(v: &Vec<Hunk>) -> (r: Vec<Hunk>)
    ensures
        r@ == v@,
{
    let mut r: Vec<Hunk> = Vec::new();
    let mut i: usize = 0;
    while i < v.len()
        invariant
            0 <= i <= v@.len(),
            r@ == v@.take(i as int),
        decreases v@.len() - i,
    {
        r.push(v[i]);
        i = i + 1;
        proof {
            assert(r@ =~= v@.take(i as int));
        }
    }
    proof {
        assert(v@.take(v@.len() as int) =~= v@);
    }
    r
}

/// The hunks of `a` followed by those of `b`.
pub fn concat_hunks(a: &Vec<Hunk>, b: &Vec<Hunk>) -> (r: Vec<Hunk>)
    ensures
        r@ == a@ + b@,
{
    let mut r = copy_hunks(a);
    let mut i: usize = 0;
    while i < b.len()
        invariant
            0 <= i <= b@.len(),
            r@ == a@ + b@.take(i as int),
        decreases b@.len() - i,
    {
        r.push(b[i]);
        i = i + 1;
        proof {
            assert(r@ =~= a@ + b@.take(i as int));
        }
    }
    proof {
        assert(b@.take(b@.len() as int) =~= b@);
    }
    r
}

impl Commit {
    /// A copy of this commit.
    pub fn copy(&self) -> (r: Commit)
        ensures
            r@ == self@,
    {
        Commit {
            id: self.id,
            parent: self.parent,
            message: self.message.clone(),
            changes: copy_hunks(&self.changes),
            change_ref: self.change_ref,
            pushed: self.pushed,
        }
    }
}

/// A copy of the stack `cs`.
pub fn copy_stack(cs: &Vec<Commit>) -> (r: Vec<Commit>)
    ensures
        views(r@) == views(cs@),
{
    let mut r: Vec<Commit> = Vec::new();
    let mut i: usize = 0;
    while i < cs.len()
        invariant
            0 <= i <= cs@.len(),
            r@.len() == i,
            views(r@) == views(cs@.take(i as int)),
        decreases cs@.len() - i,
    {
        let c = cs[i].copy();
        let ghost prev = r@;
        r.push(c);
        i = i + 1;
        proof {
            assert forall|m: int| 0 <= m < i implies views(r@)[m] == views(cs@.take(i as int))[m] by {
                if m < i - 1 {
                    assert(views(prev)[m] == views(cs@.take(i - 1))[m]);
                }
            }
            assert(views(r@) =~= views(cs@.take(i as int)));
        }
    }
    proof {
        assert(cs@.take(cs@.len() as int) =~= cs@);
    }
    r
}

/// Writes anew every commit of `cs` from position `from` on (see `rewritten`).
pub fn restack(cs: &Vec<Commit>, from: usize, base: u64, first: u64) -> (r: Vec<Commit>)
    requires
        from <= cs@.len(),
        first + cs@.len() <= u64::MAX,
    ensures
        views(r@) == rewritten(views(cs@), from as int, base, first),
{
    let ghost target = rewritten(views(cs@), from as int, base, first);
    let mut r: Vec<Commit> = Vec::new();
    let mut k: usize = 0;
    while k < cs.len()
        invariant
            from <= cs@.len(),
            first + cs@.len() <= u64::MAX,
            target == rewritten(views(cs@), from as int, base, first),
            0 <= k <= cs@.len(),
            r@.len() == k,
            views(r@) == target.take(k as int),
        decreases cs@.len() - k,
    {
        let c = if k < from {
            cs[k].copy()
        } else {
            let parent = if k == 0 {
                base
            } else if k == from {
                cs[k - 1].id
            } else {
                first + (k - from) as u64 - 1
            };
            Commit {
                id: first + (k - from) as u64,
                parent,
                message: cs[k].message.clone(),
                changes: copy_hunks(&cs[k].changes),
                change_ref: cs[k].change_ref,
                pushed: false,
            }
        };
        proof {
            assert(c@ == target[k as int]);
        }
        let ghost prev = r@;
        r.push(c);
        k = k + 1;
        proof {
            assert forall|m: int| 0 <= m < k implies views(r@)[m] == target.take(k as int)[m] by {
                if m < k - 1 {
                    assert(views(prev)[m] == target.take(k - 1)[m]);
                }
            }
            assert(views(r@) =~= target.take(k as int));
        }
    }
    proof {
        assert(target.take(cs@.len() as int) =~= target);
    }
    r
}

/// The first commit at a position in `lo..hi` whose changes overlap `hunks`.
pub fn first_conflicting(cs: &Vec<Commit>, lo: usize, hi: usize, hunks: &Vec<Hunk>) -> (r: Option<usize>)
    requires
        lo <= hi <= cs@.len(),
    ensures
        r is None <==> forall|k: int| lo <= k < hi ==> !conflicts(#[trigger] views(cs@)[k].changes, hunks@),
        r matches Some(k) ==> lo <= k < hi && conflicts(views(cs@)[k as int].changes, hunks@) && forall|m: int|
            lo <= m < k ==> !conflicts(#[trigger] views(cs@)[m].changes, hunks@),
{
    let mut k: usize = lo;
    while k < hi
        invariant
            lo <= k <= hi <= cs@.len(),
            forall|m: int| lo <= m < k ==> !conflicts(#[trigger] views(cs@)[m].changes, hunks@),
        decreases hi - k,
    {
        let hit = any_overlap(&cs[k].changes, hunks);
        assert(views(cs@)[k as int].changes == cs@[k as int].changes@);
        if hit {
            return Some(k);
        }
        k = k + 1;
    }
    None
}

} // verus!
