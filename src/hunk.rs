use vstd::prelude::*;

verus! {

/// A contiguous range of changed lines in one file of the working directory.
///
/// `path` is the identifier of the file, `start..end` the half-open line range
/// and `hash` the content hash of the range.
#[derive(Clone, Copy, Debug, PartialEq, Eq, Structural)]
pub struct Hunk {
    pub path: u64,
    pub start: u64,
    pub end: u64,
    pub hash: u64,
}

/// Two hunks of the same file whose line ranges share at least one line.
pub open spec fn overlaps(a: Hunk, b: Hunk) -> bool {
    a.path == b.path && a.start < b.end && b.start < a.end
}

/// Some hunk of `xs` overlaps some hunk of `ys`: replaying one set of changes
/// over the other cannot be merged cleanly.
pub open spec fn conflicts(xs: Seq<Hunk>, ys: Seq<Hunk>) -> bool {
    exists|i: int, j: int| 0 <= i < xs.len() && 0 <= j < ys.len() && overlaps(xs[i], ys[j])
}

impl Hunk {
    pub fn overlaps(&self, other: &Hunk) -> (r: bool)
        ensures
            r == overlaps(*self, *other),
    {
        self.path == other.path && self.start < other.end && other.start < self.end
    }
}

/// Whether some hunk of `xs` overlaps some hunk of `ys`.
pub fn any_overlap(xs: &Vec<Hunk>, ys: &Vec<Hunk>) -> (r: bool)
    ensures
        r == conflicts(xs@, ys@),
{
    let mut i: usize = 0;
    while i < xs.len()
        invariant
            0 <= i <= xs.len(),
            forall|a: int, b: int| 0 <= a < i && 0 <= b < ys.len() ==> !overlaps(xs@[a], ys@[b]),
        decreases xs.len() - i,
    {
        let mut j: usize = 0;
        while j < ys.len()
            invariant
                0 <= i < xs.len(),
                0 <= j <= ys.len(),
                forall|b: int| 0 <= b < j ==> !overlaps(xs@[i as int], ys@[b]),
            decreases ys.len() - j,
        {
            if xs[i].overlaps(&ys[j]) {
                return true;
            }
            j = j + 1;
        }
        i = i + 1;
    }
    false
}

/// Whether `xs` holds `h`.
pub fn contains_hunk(xs: &Vec<Hunk>, h: &Hunk) -> (r: bool)
    ensures
        r == xs@.contains(*h),
{
    let mut i: usize = 0;
    while i < xs.len()
        invariant
            0 <= i <= xs.len(),
            forall|a: int| 0 <= a < i ==> xs@[a] != *h,
        decreases xs.len() - i,
    {
        if xs[i] == *h {
            return true;
        }
        i = i + 1;
    }
    false
}

} // verus!
