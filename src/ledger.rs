use vstd::prelude::*;

use crate::error::EngineError;
use crate::hunk::{overlaps, Hunk};

verus! {

/// One hunk of the working-directory diff, its owning branch (`None`:
/// unassigned) and the ledger clock at which a branch last claimed it.
#[derive(Clone, Copy, Debug, PartialEq, Eq, Structural)]
pub struct Claim {
    pub hunk: Hunk,
    pub owner: Option<u64>,
    pub touched: u64,
}

/// Maps every hunk of the working-directory diff to at most one branch.
#[derive(Debug)]
pub struct Ledger {
    pub entries: Vec<Claim>,
    pub clock: u64,
}

/// No hunk appears twice.
pub open spec fn distinct_hunks(s: Seq<Claim>) -> bool {
    forall|i: int, j: int| 0 <= i < j < s.len() ==> s[i].hunk != s[j].hunk
}

pub open spec fn has_hunk(s: Seq<Claim>, h: Hunk) -> bool {
    exists|i: int| 0 <= i < s.len() && s[i].hunk == h
}

/// The claim of `s` for `h`.
pub open spec fn claim_of(s: Seq<Claim>, h: Hunk) -> Claim
    recommends
        has_hunk(s, h),
{
    s[choose|i: int| 0 <= i < s.len() && s[i].hunk == h]
}

/// The observable ownership map: each hunk of the ledger to its owner.
pub open spec fn ownership(s: Seq<Claim>) -> Map<Hunk, Option<u64>> {
    Map::new(|h: Hunk| has_hunk(s, h), |h: Hunk| claim_of(s, h).owner)
}

/// Among the claimed hunks of `s` that overlap `h`, the owner and clock of the
/// most recently touched one (the later entry on a tie).
pub open spec fn fuzzy_owner(s: Seq<Claim>, h: Hunk) -> Option<(u64, u64)>
    decreases s.len(),
{
    if s.len() == 0 {
        None
    } else {
        let rest = fuzzy_owner(s.drop_last(), h);
        let c = s.last();
        if c.owner is Some && overlaps(c.hunk, h) && (rest is None || rest.unwrap().1 <= c.touched) {
            Some((c.owner.unwrap(), c.touched))
        } else {
            rest
        }
    }
}

/// The claim that `h` has after reconciling against the claims `s`: that of an
/// identical hunk, else that of the most recently touched overlapping claim,
/// else none.
pub open spec fn inherited(s: Seq<Claim>, h: Hunk) -> Claim {
    if has_hunk(s, h) {
        claim_of(s, h)
    } else {
        match fuzzy_owner(s, h) {
            Some(p) => Claim { hunk: h, owner: Some(p.0), touched: p.1 },
            None => Claim { hunk: h, owner: None, touched: 0 },
        }
    }
}

/// Some hunk of `diff` is `h` or overlaps it.
pub open spec fn survives(diff: Seq<Hunk>, h: Hunk) -> bool {
    exists|j: int| 0 <= j < diff.len() && (diff[j] == h || overlaps(diff[j], h))
}

/// A claimed hunk of `s` that nothing in `diff` carries on.
pub open spec fn is_lost(s: Seq<Claim>, diff: Seq<Hunk>, h: Hunk) -> bool {
    has_hunk(s, h) && claim_of(s, h).owner is Some && !survives(diff, h)
}

/// The hunks of `s` owned by `branch`, in ledger order.
pub open spec fn owned_by(s: Seq<Claim>, branch: u64) -> Seq<Hunk>
    decreases s.len(),
{
    if s.len() == 0 {
        Seq::empty()
    } else if s.last().owner == Some(branch) {
        owned_by(s.drop_last(), branch).push(s.last().hunk)
    } else {
        owned_by(s.drop_last(), branch)
    }
}

/// In a ledger without duplicates the claim of the hunk at `i` is that entry.
pub proof fn lemma_claim_at(s: Seq<Claim>, i: int)
    requires
        distinct_hunks(s),
        0 <= i < s.len(),
    ensures
        has_hunk(s, s[i].hunk),
        claim_of(s, s[i].hunk) == s[i],
{
}

/// Rewriting the clock of one entry leaves the ownership map as it was.
pub proof fn lemma_ownership_ignores_clock(s: Seq<Claim>, i: int, c: Claim)
    requires
        distinct_hunks(s),
        0 <= i < s.len(),
        c.hunk == s[i].hunk,
        c.owner == s[i].owner,
    ensures
        distinct_hunks(s.update(i, c)),
        ownership(s.update(i, c)) == ownership(s),
{
    let t = s.update(i, c);
    assert(distinct_hunks(t));
    assert forall|h: Hunk| has_hunk(t, h) == has_hunk(s, h) by {
        if has_hunk(s, h) {
            let k = choose|k: int| 0 <= k < s.len() && s[k].hunk == h;
            assert(t[k].hunk == h);
        }
        if has_hunk(t, h) {
            let k = choose|k: int| 0 <= k < t.len() && t[k].hunk == h;
            assert(s[k].hunk == h);
        }
    }
    assert forall|h: Hunk| has_hunk(s, h) implies claim_of(t, h).owner == claim_of(s, h).owner by {
        let k = choose|k: int| 0 <= k < s.len() && s[k].hunk == h;
        lemma_claim_at(s, k);
        assert(t[k].hunk == h);
        lemma_claim_at(t, k);
    }
    assert(ownership(t) =~= ownership(s));
}

/// What `claim` does: `r` and `l1` are its result and the ledger after it, on `l0`.
pub open spec fn claim_outcome(l0: Ledger, l1: Ledger, h: Hunk, branch: u64, force: bool, r: Result<(), EngineError>) -> bool {
    if !has_hunk(l0.entries@, h) {
        r == Err::<(), EngineError>(EngineError::HunkNotFound) && l1.entries@ == l0.entries@ && l1.clock == l0.clock
    } else if claim_of(l0.entries@, h).owner is Some && claim_of(l0.entries@, h).owner != Some(branch) && !force {
        r == Err::<(), EngineError>(EngineError::OwnershipConflict) && l1.entries@ == l0.entries@ && l1.clock == l0.clock
    } else {
        r is Ok && l1.clock == l0.ledger_next_clock() && exists|i: int|
            0 <= i < l0.entries@.len() && l0.entries@[i].hunk == h && l1.entries@ == l0.entries@.update(
                i,
                Claim { hunk: h, owner: Some(branch), touched: l1.clock },
            )
    }
}

/// What `release` does: `r` and `l1` are its result and the ledger after it, on `l0`.
pub open spec fn release_outcome(l0: Ledger, l1: Ledger, h: Hunk, r: Result<(), EngineError>) -> bool {
    &&& l1.clock == l0.clock
    &&& !has_hunk(l0.entries@, h) ==> r == Err::<(), EngineError>(EngineError::HunkNotFound) && l1.entries@ == l0.entries@
    &&& has_hunk(l0.entries@, h) ==> r is Ok && exists|i: int|
        0 <= i < l0.entries@.len() && l0.entries@[i].hunk == h && l1.entries@ == l0.entries@.update(
            i,
            Claim { hunk: h, owner: None, touched: l0.entries@[i].touched },
        )
}

/// What `reconcile` does with `diff`: `l1` and `lost` are the ledger after it
/// and its result, on `l0`.
pub open spec fn reconcile_outcome(l0: Ledger, l1: Ledger, diff: Seq<Hunk>, lost: Seq<Hunk>) -> bool {
    &&& distinct_hunks(l1.entries@)
    &&& l1.clock == l0.clock
    &&& forall|i: int| 0 <= i < l1.entries@.len() ==> diff.contains(#[trigger] l1.entries@[i].hunk)
        && l1.entries@[i] == inherited(l0.entries@, l1.entries@[i].hunk)
    &&& forall|j: int| 0 <= j < diff.len() ==> has_hunk(l1.entries@, #[trigger] diff[j])
    &&& forall|k: int| 0 <= k < lost.len() ==> is_lost(l0.entries@, diff, #[trigger] lost[k])
    &&& forall|h: Hunk| is_lost(l0.entries@, diff, h) ==> lost.contains(h)
    &&& forall|a: int, b: int| 0 <= a < b < lost.len() ==> lost[a] != lost[b]
}

impl Ledger {
    pub open spec fn wf(&self) -> bool {
        distinct_hunks(self.entries@)
    }

    pub open spec fn ownership(&self) -> Map<Hunk, Option<u64>> {
        ownership(self.entries@)
    }

    /// An empty ledger.
    pub fn new() -> (r: Ledger)
        ensures
            r.wf(),
            r.entries@.len() == 0,
            r.clock == 0,
    {
        Ledger { entries: Vec::new(), clock: 0 }
    }

    /// The index of the entry for `h`.
    pub fn find(&self, h: &Hunk) -> (r: Option<usize>)
        requires
            self.wf(),
        ensures
            r is None <==> !has_hunk(self.entries@, *h),
            r matches Some(i) ==> i < self.entries@.len() && self.entries@[i as int].hunk == *h
                && claim_of(self.entries@, *h) == self.entries@[i as int],
    {
        let mut i: usize = 0;
        while i < self.entries.len()
            invariant
                self.wf(),
                0 <= i <= self.entries@.len(),
                forall|k: int| 0 <= k < i ==> self.entries@[k].hunk != *h,
            decreases self.entries@.len() - i,
        {
            if self.entries[i].hunk == *h {
                proof {
                    lemma_claim_at(self.entries@, i as int);
                }
                return Some(i);
            }
            i = i + 1;
        }
        None
    }

    /// Gives `h` to `branch`. Fails with `OwnershipConflict` where another branch
    /// holds it and `force` is not set; with `force` the previous owner loses it.
    pub fn claim(&mut self, h: Hunk, branch: u64, force: bool) -> (r: Result<(), EngineError>)
        requires
            old(self).wf(),
        ensures
            final(self).wf(),
            claim_outcome(*old(self), *final(self), h, branch, force, r),
    {
        match self.find(&h) {
            None => Err(EngineError::HunkNotFound),
            Some(i) => {
                let c = self.entries[i];
                if c.owner.is_some() && c.owner != Some(branch) && !force {
                    return Err(EngineError::OwnershipConflict);
                }
                let t = if self.clock < u64::MAX { self.clock + 1 } else { self.clock };
                self.clock = t;
                self.entries.set(i, Claim { hunk: h, owner: Some(branch), touched: t });
                proof {
                    assert(distinct_hunks(self.entries@));
                }
                Ok(())
            }
        }
    }

    pub open spec fn ledger_next_clock(&self) -> u64 {
        if self.clock < u64::MAX { (self.clock + 1) as u64 } else { self.clock }
    }

    /// Makes `h` unassigned.
    pub fn release(&mut self, h: Hunk) -> (r: Result<(), EngineError>)
        requires
            old(self).wf(),
        ensures
            final(self).wf(),
            release_outcome(*old(self), *final(self), h, r),
    {
        match self.find(&h) {
            None => Err(EngineError::HunkNotFound),
            Some(i) => {
                let c = self.entries[i];
                self.entries.set(i, Claim { hunk: h, owner: None, touched: c.touched });
                proof {
                    assert(distinct_hunks(self.entries@));
                }
                Ok(())
            }
        }
    }
}

impl Ledger {
    /// The owner and clock of the most recently touched claim overlapping `h`.
    pub fn fuzzy_owner(&self, h: &Hunk) -> (r: Option<(u64, u64)>)
        ensures
            r == fuzzy_owner(self.entries@, *h),
    {
        let mut best: Option<(u64, u64)> = None;
        let mut i: usize = 0;
        while i < self.entries.len()
            invariant
                0 <= i <= self.entries@.len(),
                best == fuzzy_owner(self.entries@.take(i as int), *h),
            decreases self.entries@.len() - i,
        {
            let c = self.entries[i];
            proof {
                assert(self.entries@.take(i + 1).drop_last() =~= self.entries@.take(i as int));
            }
            if c.owner.is_some() && c.hunk.overlaps(h) {
                let better = match best {
                    None => true,
                    Some(p) => p.1 <= c.touched,
                };
                if better {
                    best = Some((c.owner.unwrap(), c.touched));
                }
            }
            i = i + 1;
        }
        proof {
            assert(self.entries@.take(self.entries@.len() as int) =~= self.entries@);
        }
        best
    }

    /// The claim that `h` inherits from this ledger.
    pub fn inherit(&self, h: &Hunk) -> (r: Claim)
        requires
            self.wf(),
        ensures
            r == inherited(self.entries@, *h),
    {
        match self.find(h) {
            Some(i) => self.entries[i],
            None => match self.fuzzy_owner(h) {
                Some(p) => Claim { hunk: *h, owner: Some(p.0), touched: p.1 },
                None => Claim { hunk: *h, owner: None, touched: 0 },
            },
        }
    }

    /// Reconciles the claims with a new working-directory diff. Each hunk of
    /// `diff` appears once and inherits its claim (see `inherited`); the result
    /// lists the claimed hunks that nothing in `diff` carries on.
    pub fn reconcile(&mut self, diff: &Vec<Hunk>) -> (lost: Vec<Hunk>)
        requires
            old(self).wf(),
        ensures
            final(self).wf(),
            reconcile_outcome(*old(self), *final(self), diff@, lost@),
    {
        let mut next = Ledger { entries: Vec::new(), clock: self.clock };
        let mut j: usize = 0;
        while j < diff.len()
            invariant
                self.wf(),
                next.wf(),
                next.clock == self.clock,
                0 <= j <= diff@.len(),
                forall|i: int| 0 <= i < next.entries@.len() ==> diff@.contains(
                    #[trigger] next.entries@[i].hunk,
                ) && next.entries@[i] == inherited(self.entries@, next.entries@[i].hunk),
                forall|k: int| 0 <= k < j ==> has_hunk(next.entries@, #[trigger] diff@[k]),
            decreases diff@.len() - j,
        {
            let h = diff[j];
            if next.find(&h).is_none() {
                let c = self.inherit(&h);
                let ghost prev = next.entries@;
                next.entries.push(c);
                proof {
                    assert(next.entries@[prev.len() as int] == c);
                    assert forall|k: int| 0 <= k <= j implies has_hunk(next.entries@, #[trigger] diff@[k]) by {
                        if k < j {
                            let m = choose|m: int| 0 <= m < prev.len() && prev[m].hunk == diff@[k];
                            assert(next.entries@[m].hunk == diff@[k]);
                        } else {
                            assert(next.entries@[prev.len() as int].hunk == diff@[k]);
                        }
                    }
                    assert(diff@[j as int] == h);
                }
            }
            j = j + 1;
        }
        let mut lost: Vec<Hunk> = Vec::new();
        let mut i: usize = 0;
        while i < self.entries.len()
            invariant
                self.wf(),
                0 <= i <= self.entries@.len(),
                forall|k: int| 0 <= k < lost@.len() ==> is_lost(self.entries@, diff@, #[trigger] lost@[k]),
                forall|k: int| 0 <= k < i && is_lost(self.entries@, diff@, #[trigger] self.entries@[k].hunk)
                    ==> lost@.contains(self.entries@[k].hunk),
                forall|k: int| 0 <= k < lost@.len() ==> exists|m: int| 0 <= m < i && self.entries@[m].hunk == #[trigger] lost@[k],
                forall|a: int, b: int| 0 <= a < b < lost@.len() ==> lost@[a] != lost@[b],
            decreases self.entries@.len() - i,
        {
            let c = self.entries[i];
            proof {
                lemma_claim_at(self.entries@, i as int);
            }
            let ghost before = lost@;
            if c.owner.is_some() && !survives_in(diff, &c.hunk) {
                let ghost prev = lost@;
                lost.push(c.hunk);
                proof {
                    assert(lost@[prev.len() as int] == c.hunk);
                    assert forall|k: int| 0 <= k < lost@.len() implies exists|m: int| 0 <= m < i + 1 && self.entries@[m].hunk == #[trigger] lost@[k] by {
                        if k < prev.len() {
                            assert(prev[k] == lost@[k]);
                        } else {
                            assert(self.entries@[i as int].hunk == lost@[k]);
                        }
                    }
                    assert forall|a: int, b: int| 0 <= a < b < lost@.len() implies lost@[a] != lost@[b] by {
                        if b == prev.len() {
                            assert(prev[a] == lost@[a]);
                            let m = choose|m: int| 0 <= m < i && self.entries@[m].hunk == #[trigger] prev[a];
                            assert(self.entries@[m].hunk != self.entries@[i as int].hunk);
                        }
                    }
                }
            }
            proof {
                assert forall|k: int| 0 <= k < i + 1 && is_lost(self.entries@, diff@, #[trigger] self.entries@[k].hunk)
                    implies lost@.contains(self.entries@[k].hunk) by {
                    if k == i {
                        assert(lost@[lost@.len() - 1] == c.hunk);
                    } else {
                        let m = choose|m: int| 0 <= m < before.len() && before[m] == self.entries@[k].hunk;
                        assert(lost@[m] == before[m]);
                    }
                }
            }
            i = i + 1;
        }
        proof {
            assert forall|h: Hunk| is_lost(self.entries@, diff@, h) implies lost@.contains(h) by {
                let k = choose|k: int| 0 <= k < self.entries@.len() && self.entries@[k].hunk == h;
                assert(is_lost(self.entries@, diff@, self.entries@[k].hunk));
            }
        }
        self.entries = next.entries;
        lost
    }
}

/// `s` with every claim of `branch` made unassigned.
pub open spec fn released_all(s: Seq<Claim>, branch: u64) -> Seq<Claim> {
    Seq::new(
        s.len(),
        |i: int|
            if s[i].owner == Some(branch) {
                Claim { hunk: s[i].hunk, owner: None, touched: s[i].touched }
            } else {
                s[i]
            },
    )
}

/// The set of hunks that `branch` owns in `s`.
pub open spec fn owned_set(s: Seq<Claim>, branch: u64) -> Set<Hunk> {
    Set::new(|h: Hunk| has_hunk(s, h) && claim_of(s, h).owner == Some(branch))
}

/// `t` is `s` without the claims for hunks of `sel`, and `taken` lists, once
/// each, the hunks of `s` that `sel` holds.
pub open spec fn took(s: Seq<Claim>, t: Seq<Claim>, sel: Seq<Hunk>, taken: Seq<Hunk>) -> bool {
    &&& distinct_hunks(t)
    &&& forall|i: int| 0 <= i < t.len() ==> !sel.contains(#[trigger] t[i].hunk) && has_hunk(s, t[i].hunk)
        && t[i] == claim_of(s, t[i].hunk)
    &&& forall|j: int| 0 <= j < s.len() && !sel.contains(#[trigger] s[j].hunk) ==> has_hunk(t, s[j].hunk)
    &&& forall|k: int| 0 <= k < taken.len() ==> sel.contains(#[trigger] taken[k]) && has_hunk(s, taken[k])
    &&& forall|h: Hunk| sel.contains(h) && has_hunk(s, h) ==> taken.contains(h)
    &&& forall|a: int, b: int| 0 <= a < b < taken.len() ==> taken[a] != taken[b]
}

/// `t` is `s` with every hunk of `hs` claimed by `branch` at clock `clock`.
pub open spec fn reclaimed(s: Seq<Claim>, t: Seq<Claim>, hs: Seq<Hunk>, branch: u64, clock: u64) -> bool {
    &&& distinct_hunks(t)
    &&& forall|i: int| 0 <= i < t.len() ==> if hs.contains(#[trigger] t[i].hunk) {
        t[i].owner == Some(branch) && t[i].touched == clock
    } else {
        has_hunk(s, t[i].hunk) && t[i] == claim_of(s, t[i].hunk)
    }
    &&& forall|j: int| 0 <= j < s.len() ==> has_hunk(t, #[trigger] s[j].hunk)
    &&& forall|k: int| 0 <= k < hs.len() ==> has_hunk(t, #[trigger] hs[k])
}

impl Ledger {
    /// Makes every claim of `branch` unassigned.
    pub fn release_branch(&mut self, branch: u64)
        requires
            old(self).wf(),
        ensures
            final(self).wf(),
            final(self).clock == old(self).clock,
            final(self).entries@ == released_all(old(self).entries@, branch),
    {
        let ghost start = self.entries@;
        let mut i: usize = 0;
        while i < self.entries.len()
            invariant
                self.clock == old(self).clock,
                distinct_hunks(start),
                0 <= i <= self.entries@.len(),
                self.entries@.len() == start.len(),
                forall|m: int| 0 <= m < i ==> self.entries@[m] == #[trigger] released_all(start, branch)[m],
                forall|m: int| i <= m < start.len() ==> self.entries@[m] == #[trigger] start[m],
            decreases self.entries@.len() - i,
        {
            let c = self.entries[i];
            if c.owner == Some(branch) {
                self.entries.set(i, Claim { hunk: c.hunk, owner: None, touched: c.touched });
            }
            i = i + 1;
        }
        proof {
            assert(self.entries@ =~= released_all(start, branch));
            assert(distinct_hunks(self.entries@));
        }
    }

    /// Takes the hunks of `sel` out of the ledger (see `took`) and returns them.
    pub fn take(&mut self, sel: &Vec<Hunk>) -> (taken: Vec<Hunk>)
        requires
            old(self).wf(),
        ensures
            final(self).wf(),
            final(self).clock == old(self).clock,
            took(old(self).entries@, final(self).entries@, sel@, taken@),
    {
        let ghost s = self.entries@;
        let mut rest: Vec<Claim> = Vec::new();
        let mut taken: Vec<Hunk> = Vec::new();
        let mut i: usize = 0;
        while i < self.entries.len()
            invariant
                s == self.entries@,
                distinct_hunks(s),
                0 <= i <= s.len(),
                distinct_hunks(rest@),
                forall|k: int| 0 <= k < rest@.len() ==> !sel@.contains(#[trigger] rest@[k].hunk) && has_hunk(s, rest@[k].hunk)
                    && rest@[k] == claim_of(s, rest@[k].hunk),
                forall|k: int| 0 <= k < rest@.len() ==> exists|m: int| 0 <= m < i && s[m].hunk == #[trigger] rest@[k].hunk,
                forall|j: int| 0 <= j < i && !sel@.contains(#[trigger] s[j].hunk) ==> has_hunk(rest@, s[j].hunk),
                forall|k: int| 0 <= k < taken@.len() ==> sel@.contains(#[trigger] taken@[k]) && has_hunk(s, taken@[k]),
                forall|k: int| 0 <= k < taken@.len() ==> exists|m: int| 0 <= m < i && s[m].hunk == #[trigger] taken@[k],
                forall|j: int| 0 <= j < i && sel@.contains(#[trigger] s[j].hunk) ==> taken@.contains(s[j].hunk),
                forall|a: int, b: int| 0 <= a < b < taken@.len() ==> taken@[a] != taken@[b],
            decreases s.len() - i,
        {
            let c = self.entries[i];
            proof {
                lemma_claim_at(s, i as int);
            }
            let ghost rest0 = rest@;
            let ghost taken0 = taken@;
            if crate::hunk::contains_hunk(sel, &c.hunk) {
                taken.push(c.hunk);
                proof {
                    assert(taken@[taken0.len() as int] == c.hunk);
                    assert forall|k: int| 0 <= k < taken@.len() implies exists|m: int| 0 <= m < i + 1 && s[m].hunk == #[trigger] taken@[k] by {
                        if k < taken0.len() {
                            assert(taken0[k] == taken@[k]);
                        } else {
                            assert(s[i as int].hunk == taken@[k]);
                        }
                    }
                    assert forall|a: int, b: int| 0 <= a < b < taken@.len() implies taken@[a] != taken@[b] by {
                        if b == taken0.len() {
                            assert(taken0[a] == taken@[a]);
                            let m = choose|m: int| 0 <= m < i && s[m].hunk == #[trigger] taken0[a];
                        }
                    }
                    assert forall|j: int| 0 <= j < i + 1 && sel@.contains(#[trigger] s[j].hunk) implies taken@.contains(s[j].hunk) by {
                        if j < i {
                            let m = choose|m: int| 0 <= m < taken0.len() && taken0[m] == s[j].hunk;
                            assert(taken@[m] == taken0[m]);
                        } else {
                            assert(taken@[taken0.len() as int] == s[j].hunk);
                        }
                    }
                }
            } else {
                rest.push(c);
                proof {
                    assert(rest@[rest0.len() as int] == c);
                    assert forall|k: int| 0 <= k < rest@.len() implies exists|m: int| 0 <= m < i + 1 && s[m].hunk == #[trigger] rest@[k].hunk by {
                        if k < rest0.len() {
                            assert(rest0[k] == rest@[k]);
                        } else {
                            assert(s[i as int].hunk == rest@[k].hunk);
                        }
                    }
                    assert forall|a: int, b: int| 0 <= a < b < rest@.len() implies rest@[a].hunk != rest@[b].hunk by {
                        if b == rest0.len() {
                            assert(rest0[a] == rest@[a]);
                            let m = choose|m: int| 0 <= m < i && s[m].hunk == #[trigger] rest0[a].hunk;
                        }
                    }
                    assert forall|j: int| 0 <= j < i + 1 && !sel@.contains(#[trigger] s[j].hunk) implies has_hunk(rest@, s[j].hunk) by {
                        if j < i {
                            let m = choose|m: int| 0 <= m < rest0.len() && rest0[m].hunk == s[j].hunk;
                            assert(rest@[m] == rest0[m]);
                        } else {
                            assert(rest@[rest0.len() as int].hunk == s[j].hunk);
                        }
                    }
                }
            }
            i = i + 1;
        }
        proof {
            assert forall|h: Hunk| sel@.contains(h) && has_hunk(s, h) implies taken@.contains(h) by {
                let m = choose|m: int| 0 <= m < s.len() && s[m].hunk == h;
                assert(sel@.contains(s[m].hunk));
            }
        }
        self.entries = rest;
        taken
    }

    /// Gives every hunk of `hs` to `branch`, adding those the ledger lacks (see
    /// `reclaimed`); the clock advances once.
    pub fn reclaim(&mut self, hs: &Vec<Hunk>, branch: u64)
        requires
            old(self).wf(),
        ensures
            final(self).wf(),
            final(self).clock == old(self).ledger_next_clock(),
            reclaimed(old(self).entries@, final(self).entries@, hs@, branch, final(self).clock),
    {
        let ghost s = self.entries@;
        let t = if self.clock < u64::MAX { self.clock + 1 } else { self.clock };
        self.clock = t;
        let mut k: usize = 0;
        while k < hs.len()
            invariant
                distinct_hunks(s),
                self.wf(),
                self.clock == t,
                0 <= k <= hs@.len(),
                forall|i: int| 0 <= i < self.entries@.len() ==> if hs@.take(k as int).contains(#[trigger] self.entries@[i].hunk) {
                    self.entries@[i].owner == Some(branch) && self.entries@[i].touched == t
                } else {
                    has_hunk(s, self.entries@[i].hunk) && self.entries@[i] == claim_of(s, self.entries@[i].hunk)
                },
                forall|j: int| 0 <= j < s.len() ==> has_hunk(self.entries@, #[trigger] s[j].hunk),
                forall|m: int| 0 <= m < k ==> has_hunk(self.entries@, #[trigger] hs@[m]),
            decreases hs@.len() - k,
        {
            let h = hs[k];
            let ghost e0 = self.entries@;
            let c = Claim { hunk: h, owner: Some(branch), touched: t };
            match self.find(&h) {
                Some(i) => {
                    self.entries.set(i, c);
                    proof {
                        assert(distinct_hunks(self.entries@));
                        assert forall|j: int| 0 <= j < s.len() implies has_hunk(self.entries@, #[trigger] s[j].hunk) by {
                            let m = choose|m: int| 0 <= m < e0.len() && e0[m].hunk == s[j].hunk;
                            assert(self.entries@[m].hunk == s[j].hunk);
                        }
                        assert forall|m: int| 0 <= m < k + 1 implies has_hunk(self.entries@, #[trigger] hs@[m]) by {
                            if m < k {
                                let q = choose|q: int| 0 <= q < e0.len() && e0[q].hunk == hs@[m];
                                assert(self.entries@[q].hunk == hs@[m]);
                            } else {
                                assert(self.entries@[i as int].hunk == hs@[m]);
                            }
                        }
                    }
                },
                None => {
                    self.entries.push(c);
                    proof {
                        assert(self.entries@[e0.len() as int] == c);
                        assert(distinct_hunks(self.entries@));
                        assert forall|j: int| 0 <= j < s.len() implies has_hunk(self.entries@, #[trigger] s[j].hunk) by {
                            let m = choose|m: int| 0 <= m < e0.len() && e0[m].hunk == s[j].hunk;
                            assert(self.entries@[m].hunk == s[j].hunk);
                        }
                        assert forall|m: int| 0 <= m < k + 1 implies has_hunk(self.entries@, #[trigger] hs@[m]) by {
                            if m < k {
                                let q = choose|q: int| 0 <= q < e0.len() && e0[q].hunk == hs@[m];
                                assert(self.entries@[q].hunk == hs@[m]);
                            } else {
                                assert(self.entries@[e0.len() as int].hunk == hs@[m]);
                            }
                        }
                    }
                },
            }
            proof {
                assert(hs@.take(k + 1) =~= hs@.take(k as int).push(h));
                assert forall|i: int| 0 <= i < self.entries@.len() implies if hs@.take(k + 1).contains(#[trigger] self.entries@[i].hunk) {
                    self.entries@[i].owner == Some(branch) && self.entries@[i].touched == t
                } else {
                    has_hunk(s, self.entries@[i].hunk) && self.entries@[i] == claim_of(s, self.entries@[i].hunk)
                } by {
                    if self.entries@[i].hunk != h {
                        assert(i < e0.len());
                        assert(self.entries@[i] == e0[i]);
                        if hs@.take(k as int).contains(e0[i].hunk) {
                            assert(hs@.take(k + 1).contains(e0[i].hunk));
                        } else {
                            assert(!hs@.take(k + 1).contains(e0[i].hunk));
                        }
                    } else {
                        assert(hs@.take(k + 1)[k as int] == h);
                    }
                }
            }
            k = k + 1;
        }
        proof {
            assert(hs@.take(hs@.len() as int) =~= hs@);
        }
    }
}

/// Committing the hunks `sel` of a branch (they leave the ledger as `taken`)
/// and then undoing that commit (`taken` is claimed back by the branch) leaves
/// the branch owning the set of hunks it owned before.
pub proof fn lemma_commit_undo(
    l0: Seq<Claim>,
    l1: Seq<Claim>,
    l2: Seq<Claim>,
    sel: Seq<Hunk>,
    taken: Seq<Hunk>,
    branch: u64,
    clock: u64,
)
    requires
        distinct_hunks(l0),
        forall|k: int| 0 <= k < sel.len() ==> has_hunk(l0, #[trigger] sel[k]) && claim_of(l0, sel[k]).owner == Some(branch),
        took(l0, l1, sel, taken),
        reclaimed(l1, l2, taken, branch, clock),
    ensures
        owned_set(l2, branch) == owned_set(l0, branch),
{
    assert forall|h: Hunk| owned_set(l2, branch).contains(h) == owned_set(l0, branch).contains(h) by {
        if taken.contains(h) {
            let k = choose|k: int| 0 <= k < taken.len() && taken[k] == h;
            assert(sel.contains(taken[k]));
            let j = choose|j: int| 0 <= j < sel.len() && sel[j] == h;
            assert(has_hunk(l0, sel[j]));
            assert(has_hunk(l2, taken[k]));
            let i = choose|i: int| 0 <= i < l2.len() && l2[i].hunk == h;
            lemma_claim_at(l2, i);
            assert(taken.contains(l2[i].hunk));
        } else {
            if sel.contains(h) {
                let j = choose|j: int| 0 <= j < sel.len() && sel[j] == h;
                assert(has_hunk(l0, sel[j]));
            }
            assert(!sel.contains(h) || !has_hunk(l0, h));
            if has_hunk(l0, h) {
                let j = choose|j: int| 0 <= j < l0.len() && l0[j].hunk == h;
                lemma_claim_at(l0, j);
                assert(!sel.contains(l0[j].hunk));
                assert(has_hunk(l1, l0[j].hunk));
            }
            if has_hunk(l1, h) {
                let i = choose|i: int| 0 <= i < l1.len() && l1[i].hunk == h;
                lemma_claim_at(l1, i);
                assert(!sel.contains(l1[i].hunk));
                assert(has_hunk(l2, l1[i].hunk));
            }
            if has_hunk(l2, h) {
                let i = choose|i: int| 0 <= i < l2.len() && l2[i].hunk == h;
                lemma_claim_at(l2, i);
                assert(!taken.contains(l2[i].hunk));
                assert(has_hunk(l1, h));
                let m = choose|m: int| 0 <= m < l1.len() && l1[m].hunk == h;
                lemma_claim_at(l1, m);
                assert(!sel.contains(l1[m].hunk));
            }
        }
    }
    assert(owned_set(l2, branch) =~= owned_set(l0, branch));
}

/// Whether a hunk of `diff` is `h` or overlaps it.
pub fn survives_in(diff: &Vec<Hunk>, h: &Hunk) -> (r: bool)
    ensures
        r == survives(diff@, *h),
{
    let mut j: usize = 0;
    while j < diff.len()
        invariant
            0 <= j <= diff@.len(),
            forall|k: int| 0 <= k < j ==> !(diff@[k] == *h || overlaps(diff@[k], *h)),
        decreases diff@.len() - j,
    {
        if diff[j] == *h || diff[j].overlaps(h) {
            return true;
        }
        j = j + 1;
    }
    false
}

/// Claiming an unassigned hunk and then releasing it leaves the ownership map
/// as it was.
pub proof fn lemma_claim_release(l0: Ledger, l1: Ledger, l2: Ledger, h: Hunk, branch: u64, force: bool)
    requires
        l0.wf(),
        has_hunk(l0.entries@, h),
        claim_of(l0.entries@, h).owner is None,
        claim_outcome(l0, l1, h, branch, force, Ok(())),
        release_outcome(l1, l2, h, Ok(())),
    ensures
        l2.ownership() == l0.ownership(),
{
    let i = choose|i: int| 0 <= i < l0.entries@.len() && l0.entries@[i].hunk == h
        && l1.entries@ == l0.entries@.update(i, Claim { hunk: h, owner: Some(branch), touched: l1.clock });
    let j = choose|j: int| 0 <= j < l1.entries@.len() && l1.entries@[j].hunk == h
        && l2.entries@ == l1.entries@.update(j, Claim { hunk: h, owner: None, touched: l1.entries@[j].touched });
    assert(distinct_hunks(l1.entries@));
    assert(i == j);
    lemma_claim_at(l0.entries@, i);
    let c = Claim { hunk: h, owner: None, touched: l1.clock };
    assert(l2.entries@ =~= l0.entries@.update(i, c));
    lemma_ownership_ignores_clock(l0.entries@, i, c);
}

/// After a reconcile the ledger holds each hunk of the diff exactly once, and
/// nothing else: owned and unassigned hunks together are the diff.
pub proof fn lemma_reconcile_covers_diff(l0: Ledger, l1: Ledger, diff: Seq<Hunk>, lost: Seq<Hunk>)
    requires
        reconcile_outcome(l0, l1, diff, lost),
    ensures
        distinct_hunks(l1.entries@),
        Set::new(|h: Hunk| has_hunk(l1.entries@, h)) == diff.to_set(),
{
    assert forall|h: Hunk| has_hunk(l1.entries@, h) == diff.to_set().contains(h) by {
        if has_hunk(l1.entries@, h) {
            let i = choose|i: int| 0 <= i < l1.entries@.len() && l1.entries@[i].hunk == h;
            assert(diff.contains(l1.entries@[i].hunk));
        }
        if diff.contains(h) {
            let j = choose|j: int| 0 <= j < diff.len() && diff[j] == h;
            assert(has_hunk(l1.entries@, diff[j]));
        }
    }
    assert(Set::new(|h: Hunk| has_hunk(l1.entries@, h)) =~= diff.to_set());
}

} // verus!
