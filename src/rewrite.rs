use vstd::prelude::*;

use crate::error::EngineError;
use crate::hunk::{conflicts, Hunk};
use crate::stack::{
    concat_hunks, copy_hunks, first_conflicting, restack, rewritten, views, Commit, CommitView,
};

verus! {

/// `c` with its changes replaced by `changes`.
pub open spec fn with_changes(c: CommitView, changes: Seq<Hunk>) -> CommitView {
    CommitView { changes: changes, ..c }
}

/// The stack after amending `hunks` into the commit at `idx`.
pub open spec fn amended(cs: Seq<CommitView>, base: u64, idx: int, hunks: Seq<Hunk>, first: u64) -> Seq<CommitView> {
    rewritten(cs.update(idx, with_changes(cs[idx], cs[idx].changes + hunks)), idx, base, first)
}

/// The error for the first commit at a position in `lo..hi` whose changes
/// overlap `hunks`, where there is one.
pub open spec fn rewrite_conflict(cs: Seq<CommitView>, lo: int, hi: int, hunks: Seq<Hunk>, e: EngineError) -> bool {
    exists|k: int|
        lo <= k < hi && conflicts(cs[k].changes, hunks) && (forall|m: int|
            lo <= m < k ==> !conflicts(#[trigger] cs[m].changes, hunks)) && e
            == EngineError::RewriteConflict { commit_id: cs[k].id }
}

/// No commit at a position in `lo..hi` has changes that overlap `hunks`.
pub open spec fn clean_range(cs: Seq<CommitView>, lo: int, hi: int, hunks: Seq<Hunk>) -> bool {
    forall|k: int| lo <= k < hi ==> !conflicts(#[trigger] cs[k].changes, hunks)
}

/// `cs` with `n` commits from position `lo` replaced by those of `ins`.
pub fn splice(cs: &Vec<Commit>, lo: usize, n: usize, ins: &Vec<Commit>) -> (r: Vec<Commit>)
    requires
        lo + n <= cs@.len(),
    ensures
        r@.len() == cs@.len() - n + ins@.len(),
        views(r@) == views(cs@).take(lo as int) + views(ins@) + views(cs@).skip(lo + n),
{
    let ghost target = views(cs@).take(lo as int) + views(ins@) + views(cs@).skip(lo + n);
    let mut r: Vec<Commit> = Vec::new();
    let mut i: usize = 0;
    while i < lo
        invariant
            lo + n <= cs@.len(),
            0 <= i <= lo,
            r@.len() == i,
            forall|m: int| 0 <= m < i ==> (#[trigger] r@[m])@ == target[m],
            target == views(cs@).take(lo as int) + views(ins@) + views(cs@).skip(lo + n),
        decreases lo - i,
    {
        r.push(cs[i].copy());
        i = i + 1;
    }
    let mut j: usize = 0;
    while j < ins.len()
        invariant
            lo + n <= cs@.len(),
            0 <= j <= ins@.len(),
            r@.len() == lo + j,
            forall|m: int| 0 <= m < lo + j ==> (#[trigger] r@[m])@ == target[m],
            target == views(cs@).take(lo as int) + views(ins@) + views(cs@).skip(lo + n),
        decreases ins@.len() - j,
    {
        r.push(ins[j].copy());
        j = j + 1;
    }
    let len = cs.len();
    let mut k: usize = lo + n;
    while k < cs.len()
        invariant
            lo + n <= k <= cs@.len(),
            r@.len() == lo + ins@.len() + (k - lo - n),
            forall|m: int| 0 <= m < r@.len() ==> (#[trigger] r@[m])@ == target[m],
            target == views(cs@).take(lo as int) + views(ins@) + views(cs@).skip(lo + n),
        decreases cs@.len() - k,
    {
        r.push(cs[k].copy());
        k = k + 1;
    }
    proof {
        assert(views(r@) =~= target);
    }
    r
}

/// Amends `hunks` into the commit at `idx` and rewrites it and every commit
/// above it. Fails, leaving nothing changed, where a commit above it has
/// changes that overlap `hunks`.
pub fn amend_stack(cs: &Vec<Commit>, base: u64, idx: usize, hunks: &Vec<Hunk>, first: u64) -> (r: Result<Vec<Commit>, EngineError>)
    requires
        idx < cs@.len(),
        first + cs@.len() <= u64::MAX,
    ensures
        r is Err <==> !clean_range(views(cs@), idx + 1, cs@.len() as int, hunks@),
        r matches Err(e) ==> rewrite_conflict(views(cs@), idx + 1, cs@.len() as int, hunks@, e),
        r matches Ok(ns) ==> views(ns@) == amended(views(cs@), base, idx as int, hunks@, first),
{
    let len = cs.len();
    match first_conflicting(cs, idx + 1, len, hunks) {
        Some(k) => {
            proof {
                assert(views(cs@)[k as int] == cs@[k as int]@);
            }
            Err(EngineError::RewriteConflict { commit_id: cs[k].id })
        },
        None => {
            let c = &cs[idx];
            let changed = Commit {
                id: c.id,
                parent: c.parent,
                message: c.message.clone(),
                changes: concat_hunks(&c.changes, hunks),
                change_ref: c.change_ref,
                pushed: c.pushed,
            };
            let ins = vec![changed];
            let spliced = splice(cs, idx, 1, &ins);
            proof {
                assert(views(spliced@) =~= views(cs@).update(
                    idx as int,
                    with_changes(views(cs@)[idx as int], views(cs@)[idx as int].changes + hunks@),
                ));
            }
            Ok(restack(&spliced, idx, base, first))
        },
    }
}

/// A commit with no changes, whose id and change reference are `id`.
pub open spec fn blank(id: u64) -> CommitView {
    CommitView { id: id, parent: 0, message: Seq::empty(), changes: Seq::empty(), change_ref: id, pushed: false }
}

/// The commit that squashing the commits at `idx` and `into` (adjacent) gives.
pub open spec fn combined(cs: Seq<CommitView>, idx: int, into: int, message: Option<String>) -> CommitView {
    let lo = if idx < into { idx } else { into };
    CommitView {
        id: cs[into].id,
        parent: cs[lo].parent,
        message: match message {
            Some(m) => m@,
            None => cs[into].message,
        },
        changes: cs[lo].changes + cs[lo + 1].changes,
        change_ref: cs[into].change_ref,
        pushed: false,
    }
}

/// The hunks of `s` in file `file`, in order.
pub open spec fn in_file(s: Seq<Hunk>, file: u64) -> Seq<Hunk>
    decreases s.len(),
{
    if s.len() == 0 {
        s
    } else if s.last().path == file {
        in_file(s.drop_last(), file).push(s.last())
    } else {
        in_file(s.drop_last(), file)
    }
}

/// The hunks of `s` in other files than `file`, in order.
pub open spec fn outside_file(s: Seq<Hunk>, file: u64) -> Seq<Hunk>
    decreases s.len(),
{
    if s.len() == 0 {
        s
    } else if s.last().path != file {
        outside_file(s.drop_last(), file).push(s.last())
    } else {
        outside_file(s.drop_last(), file)
    }
}

/// The hunks of `s` that `t` does not hold, in order.
pub open spec fn fresh(s: Seq<Hunk>, t: Seq<Hunk>) -> Seq<Hunk>
    decreases s.len(),
{
    if s.len() == 0 {
        s
    } else if !t.contains(s.last()) {
        fresh(s.drop_last(), t).push(s.last())
    } else {
        fresh(s.drop_last(), t)
    }
}

/// Splits `v` into its hunks in file `file` and the others.
pub fn split_by_file(v: &Vec<Hunk>, file: u64) -> (r: (Vec<Hunk>, Vec<Hunk>))
    ensures
        r.0@ == in_file(v@, file),
        r.1@ == outside_file(v@, file),
{
    let mut inside: Vec<Hunk> = Vec::new();
    let mut outside: Vec<Hunk> = Vec::new();
    let mut i: usize = 0;
    while i < v.len()
        invariant
            0 <= i <= v@.len(),
            inside@ == in_file(v@.take(i as int), file),
            outside@ == outside_file(v@.take(i as int), file),
        decreases v@.len() - i,
    {
        proof {
            assert(v@.take(i + 1).drop_last() =~= v@.take(i as int));
        }
        if v[i].path == file {
            inside.push(v[i]);
        } else {
            outside.push(v[i]);
        }
        i = i + 1;
    }
    proof {
        assert(v@.take(v@.len() as int) =~= v@);
    }
    (inside, outside)
}

/// The hunks of `s` that `t` does not hold.
pub fn fresh_hunks(s: &Vec<Hunk>, t: &Vec<Hunk>) -> (r: Vec<Hunk>)
    ensures
        r@ == fresh(s@, t@),
{
    let mut r: Vec<Hunk> = Vec::new();
    let mut i: usize = 0;
    while i < s.len()
        invariant
            0 <= i <= s@.len(),
            r@ == fresh(s@.take(i as int), t@),
        decreases s@.len() - i,
    {
        proof {
            assert(s@.take(i + 1).drop_last() =~= s@.take(i as int));
        }
        if !crate::hunk::contains_hunk(t, &s[i]) {
            r.push(s[i]);
        }
        i = i + 1;
    }
    proof {
        assert(s@.take(s@.len() as int) =~= s@);
    }
    r
}

/// Takes the commit at `idx` out of the stack and rewrites every commit above
/// it. Fails, leaving nothing changed, where a commit above it has changes that
/// overlap those of the commit taken out.
pub fn undo_stack(cs: &Vec<Commit>, base: u64, idx: usize, first: u64) -> (r: Result<Vec<Commit>, EngineError>)
    requires
        idx < cs@.len(),
        first + cs@.len() <= u64::MAX,
    ensures
        r is Err <==> !clean_range(views(cs@), idx + 1, cs@.len() as int, views(cs@)[idx as int].changes),
        r matches Err(e) ==> rewrite_conflict(views(cs@), idx + 1, cs@.len() as int, views(cs@)[idx as int].changes, e),
        r matches Ok(ns) ==> views(ns@) == rewritten(views(cs@).remove(idx as int), idx as int, base, first),
{
    let len = cs.len();
    proof {
        assert(views(cs@)[idx as int].changes == cs@[idx as int].changes@);
    }
    match first_conflicting(cs, idx + 1, len, &cs[idx].changes) {
        Some(k) => Err(EngineError::RewriteConflict { commit_id: cs[k].id }),
        None => {
            let none: Vec<Commit> = Vec::new();
            let spliced = splice(cs, idx, 1, &none);
            proof {
                assert(views(none@) =~= Seq::<CommitView>::empty());
                assert(views(spliced@) =~= views(cs@).remove(idx as int));
            }
            Ok(restack(&spliced, idx, base, first))
        },
    }
}

/// Inserts a commit without changes at position `pos` and rewrites every
/// commit above it. Fails only on a position past the top of the stack.
pub fn insert_blank_stack(cs: &Vec<Commit>, base: u64, pos: usize, first: u64) -> (r: Result<Vec<Commit>, EngineError>)
    requires
        first + cs@.len() + 1 <= u64::MAX,
    ensures
        r is Err <==> pos > cs@.len(),
        r matches Err(e) ==> e == EngineError::InvalidPosition,
        r matches Ok(ns) ==> views(ns@) == rewritten(views(cs@).insert(pos as int, blank(first)), pos as int, base, first),
{
    if pos > cs.len() {
        return Err(EngineError::InvalidPosition);
    }
    let c = Commit { id: first, parent: 0, message: String::new(), changes: Vec::new(), change_ref: first, pushed: false };
    let ins = vec![c];
    let spliced = splice(cs, pos, 0, &ins);
    proof {
        assert(views(ins@) =~= seq![blank(first)]);
        assert(views(spliced@) =~= views(cs@).insert(pos as int, blank(first)));
    }
    Ok(restack(&spliced, pos, base, first))
}

/// Squashes the commit at `idx` into the adjacent commit at `into`: the two
/// become one commit with the changes of both, the message given or else that
/// of `into`, and the change reference of `into`; every commit from there up is
/// rewritten.
pub fn squash_stack(cs: &Vec<Commit>, base: u64, idx: usize, into: usize, message: Option<String>, first: u64) -> (r: Result<Vec<Commit>, EngineError>)
    requires
        idx < cs@.len(),
        into < cs@.len(),
        first + cs@.len() <= u64::MAX,
    ensures
        r is Err <==> !(idx + 1 == into || into + 1 == idx),
        r matches Err(e) ==> e == EngineError::InvalidPosition,
        r matches Ok(ns) ==> {
            let lo = if idx < into { idx as int } else { into as int };
            views(ns@) == rewritten(
                views(cs@).take(lo).push(combined(views(cs@), idx as int, into as int, message))
                    + views(cs@).skip(lo + 2),
                lo,
                base,
                first,
            )
        },
{
    let len = cs.len();
    if !(idx + 1 == into || into + 1 == idx) {
        return Err(EngineError::InvalidPosition);
    }
    let lo = if idx < into { idx } else { into };
    let msg = match message {
        Some(m) => m,
        None => cs[into].message.clone(),
    };
    let c = Commit {
        id: cs[into].id,
        parent: cs[lo].parent,
        message: msg,
        changes: concat_hunks(&cs[lo].changes, &cs[lo + 1].changes),
        change_ref: cs[into].change_ref,
        pushed: false,
    };
    proof {
        assert(c@ == combined(views(cs@), idx as int, into as int, message));
    }
    let ins = vec![c];
    let spliced = splice(cs, lo, 2, &ins);
    proof {
        assert(views(ins@) =~= seq![combined(views(cs@), idx as int, into as int, message)]);
        assert(views(spliced@) =~= views(cs@).take(lo as int).push(combined(views(cs@), idx as int, into as int, message))
            + views(cs@).skip(lo + 2));
    }
    Ok(restack(&spliced, lo, base, first))
}

/// The stack with the commit at `idx` moved to position `pos`.
pub open spec fn moved(cs: Seq<CommitView>, idx: int, pos: int) -> Seq<CommitView> {
    cs.remove(idx).insert(pos, cs[idx])
}

/// Moves the commit at `idx` to position `pos` and rewrites every commit from
/// the lower of the two up. Fails with `DependencyConflict`, leaving nothing
/// changed, where a commit it would pass has changes that overlap its own.
pub fn reorder_stack(cs: &Vec<Commit>, base: u64, idx: usize, pos: usize, first: u64) -> (r: Result<Vec<Commit>, EngineError>)
    requires
        idx < cs@.len(),
        first + cs@.len() <= u64::MAX,
    ensures
        pos >= cs@.len() ==> r == Err::<Vec<Commit>, EngineError>(EngineError::InvalidPosition),
        pos < cs@.len() && pos == idx ==> (r matches Ok(ns) && views(ns@) == views(cs@)),
        pos < cs@.len() && pos != idx ==> {
            let lo = if pos < idx { pos as int } else { idx + 1 };
            let hi = if pos < idx { idx as int } else { pos + 1 };
            &&& r is Err <==> !clean_range(views(cs@), lo, hi, views(cs@)[idx as int].changes)
            &&& r matches Err(e) ==> e == EngineError::DependencyConflict
            &&& r matches Ok(ns) ==> views(ns@) == rewritten(
                moved(views(cs@), idx as int, pos as int),
                if pos < idx { pos as int } else { idx as int },
                base,
                first,
            )
        },
{
    let len = cs.len();
    if pos >= len {
        return Err(EngineError::InvalidPosition);
    }
    if pos == idx {
        return Ok(crate::stack::copy_stack(cs));
    }
    let lo = if pos < idx { pos } else { idx + 1 };
    let hi = if pos < idx { idx } else { pos + 1 };
    proof {
        assert(views(cs@)[idx as int].changes == cs@[idx as int].changes@);
    }
    if first_conflicting(cs, lo, hi, &cs[idx].changes).is_some() {
        return Err(EngineError::DependencyConflict);
    }
    let none: Vec<Commit> = Vec::new();
    let removed = splice(cs, idx, 1, &none);
    let ins = vec![cs[idx].copy()];
    let placed = splice(&removed, pos, 0, &ins);
    proof {
        assert(views(none@) =~= Seq::<CommitView>::empty());
        assert(views(removed@) =~= views(cs@).remove(idx as int));
        assert(views(ins@) =~= seq![views(cs@)[idx as int]]);
        assert(views(placed@) =~= moved(views(cs@), idx as int, pos as int));
    }
    let from = if pos < idx { pos } else { idx };
    Ok(restack(&placed, from, base, first))
}

/// The stack after moving the changes of file `file` from the commit at `src`
/// to the commit at `dst`.
pub open spec fn file_moved(cs: Seq<CommitView>, src: int, file: u64, dst: int) -> Seq<CommitView> {
    cs.update(src, with_changes(cs[src], outside_file(cs[src].changes, file))).update(
        dst,
        with_changes(cs[dst], cs[dst].changes + in_file(cs[src].changes, file)),
    )
}

/// Moves the changes of file `file` from the commit at `src` to the commit at
/// `dst` and rewrites every commit from the lower of the two up. Fails with
/// `PathNotFound` where the source commit does not change the file, and with
/// `RewriteConflict`, leaving nothing changed, where a commit between the two
/// has changes that overlap those moved.
pub fn move_file_stack(cs: &Vec<Commit>, base: u64, src: usize, file: u64, dst: usize, first: u64) -> (r: Result<Vec<Commit>, EngineError>)
    requires
        src < cs@.len(),
        dst < cs@.len(),
        first + cs@.len() <= u64::MAX,
    ensures
        src == dst ==> r == Err::<Vec<Commit>, EngineError>(EngineError::InvalidPosition),
        src != dst && in_file(views(cs@)[src as int].changes, file).len() == 0 ==> r == Err::<
            Vec<Commit>,
            EngineError,
        >(EngineError::PathNotFound),
        src != dst && in_file(views(cs@)[src as int].changes, file).len() > 0 ==> {
            let lo = if src < dst { src + 1 } else { dst + 1 };
            let hi = if src < dst { dst as int } else { src as int };
            let hunks = in_file(views(cs@)[src as int].changes, file);
            &&& r is Err <==> !clean_range(views(cs@), lo, hi, hunks)
            &&& r matches Err(e) ==> rewrite_conflict(views(cs@), lo, hi, hunks, e)
            &&& r matches Ok(ns) ==> views(ns@) == rewritten(
                file_moved(views(cs@), src as int, file, dst as int),
                if src < dst { src as int } else { dst as int },
                base,
                first,
            )
        },
{
    if src == dst {
        return Err(EngineError::InvalidPosition);
    }
    let (hunks, rest) = split_by_file(&cs[src].changes, file);
    if hunks.len() == 0 {
        return Err(EngineError::PathNotFound);
    }
    let lo = if src < dst { src + 1 } else { dst + 1 };
    let hi = if src < dst { dst } else { src };
    match first_conflicting(cs, lo, hi, &hunks) {
        Some(k) => Err(EngineError::RewriteConflict { commit_id: cs[k].id }),
        None => {
            let s = &cs[src];
            let d = &cs[dst];
            let new_src = Commit {
                id: s.id,
                parent: s.parent,
                message: s.message.clone(),
                changes: rest,
                change_ref: s.change_ref,
                pushed: s.pushed,
            };
            let new_dst = Commit {
                id: d.id,
                parent: d.parent,
                message: d.message.clone(),
                changes: concat_hunks(&d.changes, &hunks),
                change_ref: d.change_ref,
                pushed: d.pushed,
            };
            let ins_src = vec![new_src];
            let ins_dst = vec![new_dst];
            let step = splice(cs, src, 1, &ins_src);
            let done = splice(&step, dst, 1, &ins_dst);
            proof {
                assert(views(ins_src@) =~= seq![new_src@]);
                assert(views(ins_dst@) =~= seq![new_dst@]);
                assert(views(step@) =~= views(cs@).update(src as int, new_src@));
                assert(views(done@) =~= file_moved(views(cs@), src as int, file, dst as int));
            }
            let from = if src < dst { src } else { dst };
            Ok(restack(&done, from, base, first))
        },
    }
}

/// Replays the stack onto `new_base`, oldest commit first, where `upstream`
/// are the changes between the old base and the new one. Replay stops at the
/// first commit whose changes overlap `upstream`: the commits below it are
/// rewritten, it and those above it are kept as they were, and its position is
/// returned.
pub fn rebase_stack(cs: &Vec<Commit>, new_base: u64, upstream: &Vec<Hunk>, first: u64) -> (r: (Vec<Commit>, Option<usize>))
    requires
        first + cs@.len() <= u64::MAX,
    ensures
        r.1 is None <==> clean_range(views(cs@), 0, cs@.len() as int, upstream@),
        r.1 is None ==> views(r.0@) == rewritten(views(cs@), 0, new_base, first),
        r.1 matches Some(k) ==> k < cs@.len() && conflicts(views(cs@)[k as int].changes, upstream@)
            && clean_range(views(cs@), 0, k as int, upstream@) && views(r.0@) == rewritten(
            views(cs@).take(k as int),
            0,
            new_base,
            first,
        ) + views(cs@).skip(k as int),
{
    let len = cs.len();
    match first_conflicting(cs, 0, len, upstream) {
        None => (restack(cs, 0, new_base, first), None),
        Some(k) => {
            let none: Vec<Commit> = Vec::new();
            let below = splice(cs, k, len - k, &none);
            let above = splice(cs, 0, k, &none);
            proof {
                assert(views(none@) =~= Seq::<CommitView>::empty());
                assert(views(below@) =~= views(cs@).take(k as int));
                assert(views(above@) =~= views(cs@).skip(k as int));
            }
            let moved_below = restack(&below, 0, new_base, first);
            let blen = moved_below.len();
            let joined = splice(&moved_below, blen, 0, &above);
            proof {
                assert(views(moved_below@).take(blen as int) =~= views(moved_below@));
                assert(views(moved_below@).skip(blen as int) =~= Seq::<CommitView>::empty());
                assert(views(joined@) =~= views(moved_below@) + views(above@));
            }
            (joined, Some(k))
        },
    }
}

/// Replaces the changes of the commit at `idx` with `changes` and rewrites it
/// and every commit above it. Fails, leaving nothing changed, where a commit
/// above it has changes that overlap the hunks it did not hold before.
pub fn edit_stack(cs: &Vec<Commit>, base: u64, idx: usize, changes: &Vec<Hunk>, first: u64) -> (r: Result<Vec<Commit>, EngineError>)
    requires
        idx < cs@.len(),
        first + cs@.len() <= u64::MAX,
    ensures
        r is Err <==> !clean_range(views(cs@), idx + 1, cs@.len() as int, fresh(changes@, views(cs@)[idx as int].changes)),
        r matches Err(e) ==> rewrite_conflict(views(cs@), idx + 1, cs@.len() as int, fresh(changes@, views(cs@)[idx as int].changes), e),
        r matches Ok(ns) ==> views(ns@) == rewritten(
            views(cs@).update(idx as int, with_changes(views(cs@)[idx as int], changes@)),
            idx as int,
            base,
            first,
        ),
{
    let len = cs.len();
    let added = fresh_hunks(changes, &cs[idx].changes);
    match first_conflicting(cs, idx + 1, len, &added) {
        Some(k) => Err(EngineError::RewriteConflict { commit_id: cs[k].id }),
        None => {
            let c = &cs[idx];
            let changed = Commit {
                id: c.id,
                parent: c.parent,
                message: c.message.clone(),
                changes: copy_hunks(changes),
                change_ref: c.change_ref,
                pushed: c.pushed,
            };
            let ins = vec![changed];
            let spliced = splice(cs, idx, 1, &ins);
            proof {
                assert(views(spliced@) =~= views(cs@).update(idx as int, with_changes(views(cs@)[idx as int], changes@)));
            }
            Ok(restack(&spliced, idx, base, first))
        },
    }
}

} // verus!
