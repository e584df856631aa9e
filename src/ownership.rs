//! One file's claim: its path and the hunks of it that are claimed.
use vstd::prelude::*;
use crate::hunk::{Hunk, hunks_wf, covers, in_hunk, insert_range, subtract_range, range_claimed};

verus! {

/// The hunks of one file that a branch claims.
#[derive(Clone, Debug, PartialEq, Eq)]
pub struct Ownership {
    pub file_path: String,
    pub hunks: Vec<Hunk>,
}

/// Copies a sequence of hunks.
pub fn copy_hunks(v: &Vec<Hunk>) -> (r: Vec<Hunk>)
    ensures
        r@ == v@,
{
    let mut r: Vec<Hunk> = Vec::new();
    let mut i: usize = 0;
    while i < v.len()
        invariant
            i <= v@.len(),
            r@ == v@.subrange(0, i as int),
        decreases v@.len() - i,
    {
        r.push(v[i]);
        i += 1;
    }
    assert(r@ =~= v@);
    r
}

impl Ownership {
    /// The hunks are in normal form.
    pub open spec fn wf(&self) -> bool {
        hunks_wf(self.hunks@)
    }

    /// The claim holds line `l` of its file.
    pub open spec fn claims_line(&self, l: int) -> bool {
        covers(self.hunks@, l)
    }

    /// A copy with the same path and hunks.
    pub fn copy(&self) -> (r: Ownership)
        ensures
            r.file_path@ == self.file_path@,
            r.hunks@ == self.hunks@,
    {
        Ownership { file_path: self.file_path.clone(), hunks: copy_hunks(&self.hunks) }
    }

    /// The union of two claims on the same file, in normal form.
    pub fn plus(&self, other: &Ownership) -> (r: Ownership)
        requires
            self.wf(),
            other.wf(),
            self.file_path@ == other.file_path@,
        ensures
            r.wf(),
            r.file_path@ == self.file_path@,
            forall|l: int| #[trigger] r.claims_line(l) <==> (self.claims_line(l) || other.claims_line(l)),
    {
        let mut acc = copy_hunks(&self.hunks);
        let mut i: usize = 0;
        while i < other.hunks.len()
            invariant
                i <= other.hunks@.len(),
                other.wf(),
                hunks_wf(acc@),
                forall|l: int| #[trigger] covers(acc@, l) <==> (covers(self.hunks@, l)
                    || crate::hunk::covers_between(other.hunks@, 0, i as int, l)),
            decreases other.hunks@.len() - i,
        {
            let h = other.hunks[i];
            let next = insert_range(&acc, h);
            assert forall|l: int| #[trigger] covers(next@, l) <==> (covers(self.hunks@, l)
                || crate::hunk::covers_between(other.hunks@, 0, i + 1, l)) by {
                if crate::hunk::covers_between(other.hunks@, 0, i + 1, l) {
                    let k = choose|k: int| 0 <= k < i + 1 && #[trigger] in_hunk(other.hunks@[k], l);
                    if k < i {
                        assert(crate::hunk::covers_between(other.hunks@, 0, i as int, l));
                    }
                }
                if in_hunk(h, l) {
                    assert(in_hunk(other.hunks@[i as int], l));
                }
                if covers(acc@, l) && !covers(self.hunks@, l) {
                    let k = choose|k: int| 0 <= k < i && #[trigger] in_hunk(other.hunks@[k], l);
                    assert(in_hunk(other.hunks@[k], l));
                }
            }
            acc = next;
            i += 1;
        }
        let r = Ownership { file_path: self.file_path.clone(), hunks: acc };
        assert forall|l: int| #[trigger] r.claims_line(l) <==> (self.claims_line(l) || other.claims_line(l)) by {
            if other.claims_line(l) {
                let k = choose|k: int| 0 <= k < other.hunks@.len() && #[trigger] in_hunk(other.hunks@[k], l);
                assert(in_hunk(other.hunks@[k], l));
            }
            if covers(acc@, l) && !covers(self.hunks@, l) {
                let k = choose|k: int| 0 <= k < other.hunks@.len() && #[trigger] in_hunk(other.hunks@[k], l);
                assert(in_hunk(other.hunks@[k], l));
            }
        }
        r
    }

    /// The lines of this claim that `other` does not hold, or `None` when no
    /// line is left. A claim on another file takes nothing away.
    pub fn minus(&self, other: &Ownership) -> (r: Option<Ownership>)
        requires
            self.wf(),
            other.wf(),
        ensures
            r is None <==> forall|l: int| #[trigger] self.claims_line(l) ==>
                (self.file_path@ == other.file_path@ && other.claims_line(l)),
            match r {
                None => true,
                Some(o) => {
                    &&& o.wf()
                    &&& o.hunks@.len() > 0
                    &&& o.file_path@ == self.file_path@
                    &&& forall|l: int| #[trigger] o.claims_line(l) <==> (self.claims_line(l) && !(
                        self.file_path@ == other.file_path@ && other.claims_line(l)))
                },
            },
    {
        let same = self.file_path == other.file_path;
        let mut acc = copy_hunks(&self.hunks);
        if same {
            let mut i: usize = 0;
            while i < other.hunks.len()
                invariant
                    i <= other.hunks@.len(),
                    other.wf(),
                    hunks_wf(acc@),
                    forall|l: int| #[trigger] covers(acc@, l) <==> (covers(self.hunks@, l)
                        && !crate::hunk::covers_between(other.hunks@, 0, i as int, l)),
                decreases other.hunks@.len() - i,
            {
                let h = other.hunks[i];
                let next = subtract_range(&acc, h);
                assert forall|l: int| #[trigger] covers(next@, l) <==> (covers(self.hunks@, l)
                    && !crate::hunk::covers_between(other.hunks@, 0, i + 1, l)) by {
                    if crate::hunk::covers_between(other.hunks@, 0, i + 1, l) {
                        let k = choose|k: int| 0 <= k < i + 1 && #[trigger] in_hunk(other.hunks@[k], l);
                        if k < i {
                            assert(crate::hunk::covers_between(other.hunks@, 0, i as int, l));
                        } else {
                            assert(in_hunk(h, l));
                        }
                    }
                    if crate::hunk::covers_between(other.hunks@, 0, i as int, l) {
                        let k = choose|k: int| 0 <= k < i && #[trigger] in_hunk(other.hunks@[k], l);
                        assert(in_hunk(other.hunks@[k], l));
                    }
                }
                acc = next;
                i += 1;
            }
            assert forall|l: int| #[trigger] covers(acc@, l) <==> (covers(self.hunks@, l)
                && !covers(other.hunks@, l)) by {
                if covers(other.hunks@, l) {
                    assert(crate::hunk::covers_between(other.hunks@, 0, other.hunks@.len() as int, l));
                }
                if crate::hunk::covers_between(other.hunks@, 0, other.hunks@.len() as int, l) {
                    let k = choose|k: int| 0 <= k < other.hunks@.len() && #[trigger] in_hunk(other.hunks@[k], l);
                    assert(in_hunk(other.hunks@[k], l));
                }
            }
        }
        if acc.len() == 0 {
            assert forall|l: int| #[trigger] self.claims_line(l) implies
                (self.file_path@ == other.file_path@ && other.claims_line(l)) by {
                assert(!covers(acc@, l));
            }
            None
        } else {
            let r = Ownership { file_path: self.file_path.clone(), hunks: acc };
            let ghost first = r.hunks@[0].start as int;
            assert(crate::hunk::in_hunk(r.hunks@[0], first));
            assert(covers(r.hunks@, first));
            assert(self.claims_line(first) && !(self.file_path@ == other.file_path@ && other.claims_line(first)));
            Some(r)
        }
    }

    /// Whether this claim is on the same file and holds every line that
    /// `other` holds.
    pub fn contains(&self, other: &Ownership) -> (r: bool)
        requires
            self.wf(),
        ensures
            r == (self.file_path@ == other.file_path@ && forall|l: int|
                #[trigger] other.claims_line(l) ==> self.claims_line(l)),
    {
        if self.file_path != other.file_path {
            return false;
        }
        let mut i: usize = 0;
        while i < other.hunks.len()
            invariant
                i <= other.hunks@.len(),
                self.wf(),
                forall|l: int| #[trigger] crate::hunk::covers_between(other.hunks@, 0, i as int, l)
                    ==> covers(self.hunks@, l),
            decreases other.hunks@.len() - i,
        {
            let h = other.hunks[i];
            if h.start < h.end {
                if !range_claimed(&self.hunks, h) {
                    assert(exists|l: int| in_hunk(h, l) && !covers(self.hunks@, l));
                    let ghost l = choose|l: int| in_hunk(h, l) && !covers(self.hunks@, l);
                    assert(in_hunk(other.hunks@[i as int], l));
                    assert(other.claims_line(l));
                    return false;
                }
            }
            assert forall|l: int| #[trigger] crate::hunk::covers_between(other.hunks@, 0, i + 1, l)
                implies covers(self.hunks@, l) by {
                let k = choose|k: int| 0 <= k < i + 1 && #[trigger] in_hunk(other.hunks@[k], l);
                if k < i {
                    assert(crate::hunk::covers_between(other.hunks@, 0, i as int, l));
                }
            }
            i += 1;
        }
        assert forall|l: int| #[trigger] other.claims_line(l) implies self.claims_line(l) by {
            let k = choose|k: int| 0 <= k < other.hunks@.len() && #[trigger] in_hunk(other.hunks@[k], l);
            assert(crate::hunk::covers_between(other.hunks@, 0, i as int, l));
        }
        true
    }
}

} // verus!
