//! The virtual branch record and the ownership claims it holds.
use vstd::prelude::*;
use crate::oid::Oid;
use crate::order::{PathOrder, compare_paths, path_less, lemma_less_transitive, lemma_less_asymmetric};
use crate::ownership::Ownership;

verus! {

/// A virtual branch's persisted state.
#[derive(Clone, Debug, PartialEq)]
pub struct Branch {
    pub id: String,
    pub name: String,
    pub applied: bool,
    pub upstream: String,
    pub created_timestamp_ms: u128,
    pub updated_timestamp_ms: u128,
    pub tree: Oid,
    pub head: Oid,
    pub ownership: Vec<Ownership>,
}

/// A request to rename a branch.
#[derive(Debug, Default)]
pub struct BranchUpdateRequest {
    pub id: String,
    pub name: Option<String>,
}

/// Every entry is in normal form and the entries are sorted strictly by
/// path, so no path has two entries.
pub open spec fn ownership_wf(v: Seq<Ownership>) -> bool {
    &&& forall|i: int| 0 <= i < v.len() ==> (#[trigger] v[i]).wf()
    &&& forall|i: int, j: int| 0 <= i < j < v.len() ==>
        path_less((#[trigger] v[i]).file_path@, (#[trigger] v[j]).file_path@)
}

/// Some entry of `v` is for path `p`.
pub open spec fn has_entry(v: Seq<Ownership>, p: Seq<char>) -> bool {
    exists|i: int| 0 <= i < v.len() && (#[trigger] v[i]).file_path@ == p
}

/// Some entry of `v` for path `p` claims line `l`.
pub open spec fn claims(v: Seq<Ownership>, p: Seq<char>, l: int) -> bool {
    exists|i: int| 0 <= i < v.len() && v[i].file_path@ == p && #[trigger] v[i].claims_line(l)
}

/// `after` is `before` with the claim `o` added: its file gains the lines of
/// `o`, and an entry if it had none and `o` has hunks.
pub open spec fn put_result(before: Seq<Ownership>, o: Ownership, after: Seq<Ownership>) -> bool {
    &&& forall|p: Seq<char>| #[trigger] has_entry(after, p) <==> (
        has_entry(before, p) || (p == o.file_path@ && o.hunks@.len() > 0))
    &&& forall|p: Seq<char>, l: int| #[trigger] claims(after, p, l) <==> (
        claims(before, p, l) || (p == o.file_path@ && o.claims_line(l)))
}

/// `after` is `before` with the lines of `o` taken from its file; the entry
/// stays only while it claims some line.
pub open spec fn take_result(before: Seq<Ownership>, o: Ownership, after: Seq<Ownership>) -> bool {
    &&& forall|p: Seq<char>| #[trigger] has_entry(after, p) <==> (
        has_entry(before, p) && (p != o.file_path@ || exists|l: int| claims(after, p, l)))
    &&& forall|p: Seq<char>, l: int| #[trigger] claims(after, p, l) <==> (
        claims(before, p, l) && !(p == o.file_path@ && o.claims_line(l)))
}

/// Some entry of `v` is for the file of `o` and claims every line `o` claims.
pub open spec fn contains_result(v: Seq<Ownership>, o: Ownership) -> bool {
    exists|i: int| 0 <= i < v.len() && (#[trigger] v[i]).file_path@ == o.file_path@ && forall|l: int|
        #[trigger] o.claims_line(l) ==> v[i].claims_line(l)
}

/// Two records agree on every field but the ownership list.
pub open spec fn same_fields(a: Branch, b: Branch) -> bool {
    &&& a.id == b.id
    &&& a.name == b.name
    &&& a.applied == b.applied
    &&& a.upstream == b.upstream
    &&& a.created_timestamp_ms == b.created_timestamp_ms
    &&& a.updated_timestamp_ms == b.updated_timestamp_ms
    &&& a.tree == b.tree
    &&& a.head == b.head
}

impl Branch {
    /// The first index whose entry does not sort before `p`.
    fn position_of(&self, p: &String) -> (r: (usize, bool))
        requires
            ownership_wf(self.ownership@),
        ensures
            r.0 <= self.ownership@.len(),
            forall|k: int| 0 <= k < r.0 ==> path_less((#[trigger] self.ownership@[k]).file_path@, p@),
            r.1 <==> (r.0 < self.ownership@.len() && self.ownership@[r.0 as int].file_path@ == p@),
            !r.1 && r.0 < self.ownership@.len() ==> path_less(p@, self.ownership@[r.0 as int].file_path@),
    {
        let n = self.ownership.len();
        let mut i: usize = 0;
        while i < n
            invariant
                i <= n == self.ownership@.len(),
                forall|k: int| 0 <= k < i ==> path_less((#[trigger] self.ownership@[k]).file_path@, p@),
            decreases n - i,
        {
            match compare_paths(self.ownership[i].file_path.as_str(), p.as_str()) {
                PathOrder::Less => {},
                PathOrder::Equal => {
                    return (i, true);
                },
                PathOrder::Greater => {
                    proof { lemma_less_asymmetric(p@, self.ownership@[i as int].file_path@); }
                    return (i, false);
                },
            }
            i += 1;
        }
        (i, false)
    }

    /// Adds the claim `o` to this branch: an entry for its file is merged
    /// with it, otherwise a new entry is placed in path order. A claim of no
    /// hunks on a file without an entry changes nothing. Every other field,
    /// `updated_timestamp_ms` included, is left as it is: the caller, who
    /// knows the time, sets the timestamp.
    pub fn put(&mut self, o: &Ownership)
        requires
            ownership_wf(old(self).ownership@),
            o.wf(),
        ensures
            ownership_wf(final(self).ownership@),
            same_fields(*final(self), *old(self)),
            put_result(old(self).ownership@, *o, final(self).ownership@),
    {
        let ghost v = self.ownership@;
        let (i, found) = self.position_of(&o.file_path);
        if found {
            let merged = self.ownership[i].plus(o);
            let _ = self.ownership.remove(i);
            self.ownership.insert(i, merged);
            let ghost w = self.ownership@;
            assert(w =~= v.update(i as int, merged));
            assert forall|a: int, b: int| 0 <= a < b < w.len() implies
                path_less((#[trigger] w[a]).file_path@, (#[trigger] w[b]).file_path@) by {
                assert(path_less(v[a].file_path@, v[b].file_path@));
            }
            assert forall|p: Seq<char>| #[trigger] has_entry(w, p) <==> (
                has_entry(v, p) || (p == o.file_path@ && o.hunks@.len() > 0)) by {
                if has_entry(v, p) {
                    let k = choose|k: int| 0 <= k < v.len() && (#[trigger] v[k]).file_path@ == p;
                    assert(w[k].file_path@ == p);
                }
                if p == o.file_path@ {
                    assert(w[i as int].file_path@ == p);
                }
                if has_entry(w, p) {
                    let k = choose|k: int| 0 <= k < w.len() && (#[trigger] w[k]).file_path@ == p;
                    assert(v[k].file_path@ == p);
                }
            }
            assert forall|p: Seq<char>, l: int| #[trigger] claims(w, p, l) <==> (
                claims(v, p, l) || (p == o.file_path@ && o.claims_line(l))) by {
                if claims(v, p, l) {
                    let k = choose|k: int| 0 <= k < v.len() && v[k].file_path@ == p && #[trigger] v[k].claims_line(l);
                    assert(w[k].claims_line(l));
                }
                if p == o.file_path@ && o.claims_line(l) {
                    assert(w[i as int].claims_line(l));
                }
                if claims(w, p, l) {
                    let k = choose|k: int| 0 <= k < w.len() && w[k].file_path@ == p && #[trigger] w[k].claims_line(l);
                    if k != i {
                        assert(v[k].claims_line(l));
                    } else if !o.claims_line(l) {
                        assert(v[k].claims_line(l));
                    }
                }
            }
        } else if o.hunks.len() > 0 {
            let x = o.copy();
            self.ownership.insert(i, x);
            let ghost w = self.ownership@;
            assert forall|a: int, b: int| 0 <= a < b < w.len() implies
                path_less((#[trigger] w[a]).file_path@, (#[trigger] w[b]).file_path@) by {
                if b < i {
                    assert(path_less(v[a].file_path@, v[b].file_path@));
                } else if b == i {
                } else if a < i {
                    assert(path_less(v[a].file_path@, o.file_path@));
                    assert(path_less(o.file_path@, v[i as int].file_path@));
                    if b - 1 > i {
                        assert(path_less(v[i as int].file_path@, v[b - 1].file_path@));
                        lemma_less_transitive(o.file_path@, v[i as int].file_path@, v[b - 1].file_path@);
                    }
                    lemma_less_transitive(v[a].file_path@, o.file_path@, v[b - 1].file_path@);
                } else if a == i {
                    if b - 1 > i {
                        assert(path_less(v[i as int].file_path@, v[b - 1].file_path@));
                        lemma_less_transitive(o.file_path@, v[i as int].file_path@, v[b - 1].file_path@);
                    }
                } else {
                    assert(path_less(v[a - 1].file_path@, v[b - 1].file_path@));
                }
            }
            assert forall|a: int| 0 <= a < w.len() implies (#[trigger] w[a]).wf() by {
                if a > i {
                    assert(v[a - 1].wf());
                }
            }
            assert forall|p: Seq<char>| #[trigger] has_entry(w, p) <==> (
                has_entry(v, p) || (p == o.file_path@ && o.hunks@.len() > 0)) by {
                if has_entry(v, p) {
                    let k = choose|k: int| 0 <= k < v.len() && (#[trigger] v[k]).file_path@ == p;
                    if k < i {
                        assert(w[k].file_path@ == p);
                    } else {
                        assert(w[k + 1].file_path@ == p);
                    }
                }
                if p == o.file_path@ {
                    assert(w[i as int].file_path@ == p);
                }
                if has_entry(w, p) {
                    let k = choose|k: int| 0 <= k < w.len() && (#[trigger] w[k]).file_path@ == p;
                    if k < i {
                        assert(v[k].file_path@ == p);
                    } else if k > i {
                        assert(v[k - 1].file_path@ == p);
                    }
                }
            }
            assert forall|p: Seq<char>, l: int| #[trigger] claims(w, p, l) <==> (
                claims(v, p, l) || (p == o.file_path@ && o.claims_line(l))) by {
                if claims(v, p, l) {
                    let k = choose|k: int| 0 <= k < v.len() && v[k].file_path@ == p && #[trigger] v[k].claims_line(l);
                    if k < i {
                        assert(w[k].claims_line(l));
                    } else {
                        assert(w[k + 1].claims_line(l));
                    }
                }
                if p == o.file_path@ && o.claims_line(l) {
                    assert(w[i as int].claims_line(l));
                }
                if claims(w, p, l) {
                    let k = choose|k: int| 0 <= k < w.len() && w[k].file_path@ == p && #[trigger] w[k].claims_line(l);
                    if k < i {
                        assert(v[k].claims_line(l));
                    } else if k > i {
                        assert(v[k - 1].claims_line(l));
                    }
                }
            }
        } else {
            assert forall|p: Seq<char>, l: int| #[trigger] claims(v, p, l) <==> (
                claims(v, p, l) || (p == o.file_path@ && o.claims_line(l))) by {
                if p == o.file_path@ && o.claims_line(l) {
                    let k = choose|k: int| 0 <= k < o.hunks@.len() && #[trigger] crate::hunk::in_hunk(o.hunks@[k], l);
                }
            }
        }
    }

    /// Removes the lines of `o` from this branch's entry for its file; the
    /// entry goes when no line of it is left. Without such an entry nothing
    /// changes. As with `put`, the caller sets `updated_timestamp_ms`.
    pub fn take(&mut self, o: &Ownership)
        requires
            ownership_wf(old(self).ownership@),
            o.wf(),
        ensures
            ownership_wf(final(self).ownership@),
            same_fields(*final(self), *old(self)),
            take_result(old(self).ownership@, *o, final(self).ownership@),
    {
        let ghost v = self.ownership@;
        let (i, found) = self.position_of(&o.file_path);
        if found {
            match self.ownership[i].minus(o) {
                Some(rest) => {
                    let _ = self.ownership.remove(i);
                    self.ownership.insert(i, rest);
                    let ghost w = self.ownership@;
                    assert(w =~= v.update(i as int, rest));
                    assert forall|a: int, b: int| 0 <= a < b < w.len() implies
                        path_less((#[trigger] w[a]).file_path@, (#[trigger] w[b]).file_path@) by {
                        assert(path_less(v[a].file_path@, v[b].file_path@));
                    }
                    assert(rest.claims_line(rest.hunks@[0].start as int)) by {
                        assert(crate::hunk::in_hunk(rest.hunks@[0], rest.hunks@[0].start as int));
                    }
                    assert(w[i as int] == rest);
                    assert(w[i as int].claims_line(rest.hunks@[0].start as int));
                    assert(claims(w, o.file_path@, rest.hunks@[0].start as int));
                    assert forall|p: Seq<char>| #[trigger] has_entry(w, p) <==> (
                        has_entry(v, p) && (p != o.file_path@ || exists|l: int| claims(w, p, l))) by {
                        if has_entry(v, p) {
                            let k = choose|k: int| 0 <= k < v.len() && (#[trigger] v[k]).file_path@ == p;
                            assert(w[k].file_path@ == p);
                        }
                        if has_entry(w, p) {
                            let k = choose|k: int| 0 <= k < w.len() && (#[trigger] w[k]).file_path@ == p;
                            assert(v[k].file_path@ == p);
                        }
                    }
                    assert forall|p: Seq<char>, l: int| #[trigger] claims(w, p, l) <==> (
                        claims(v, p, l) && !(p == o.file_path@ && o.claims_line(l))) by {
                        if claims(v, p, l) && !(p == o.file_path@ && o.claims_line(l)) {
                            let k = choose|k: int| 0 <= k < v.len() && v[k].file_path@ == p && #[trigger] v[k].claims_line(l);
                            if k != i {
                                assert(w[k].claims_line(l));
                            } else {
                                assert(w[k].claims_line(l));
                            }
                        }
                        if claims(w, p, l) {
                            let k = choose|k: int| 0 <= k < w.len() && w[k].file_path@ == p && #[trigger] w[k].claims_line(l);
                            assert(v[k].claims_line(l));
                            if p == o.file_path@ && k != i {
                                lemma_less_asymmetric(v[k].file_path@, v[i as int].file_path@);
                                lemma_less_asymmetric(v[i as int].file_path@, v[k].file_path@);
                            }
                        }
                    }
                },
                None => {
                    let _ = self.ownership.remove(i);
                    let ghost w = self.ownership@;
                    assert(w =~= v.remove(i as int));
                    assert forall|a: int, b: int| 0 <= a < b < w.len() implies
                        path_less((#[trigger] w[a]).file_path@, (#[trigger] w[b]).file_path@) by {
                        if b < i {
                            assert(path_less(v[a].file_path@, v[b].file_path@));
                        } else if a < i {
                            assert(path_less(v[a].file_path@, v[b + 1].file_path@));
                        } else {
                            assert(path_less(v[a + 1].file_path@, v[b + 1].file_path@));
                        }
                    }
                    assert forall|a: int| 0 <= a < w.len() implies (#[trigger] w[a]).wf() by {
                        if a >= i {
                            assert(v[a + 1].wf());
                        }
                    }
                    assert forall|k: int| 0 <= k < v.len() && k != i implies
                        (#[trigger] v[k]).file_path@ != o.file_path@ by {
                        if k < i {
                            lemma_less_asymmetric(v[k].file_path@, v[i as int].file_path@);
                        } else {
                            lemma_less_asymmetric(v[i as int].file_path@, v[k].file_path@);
                        }
                    }
                    assert forall|p: Seq<char>| #[trigger] has_entry(w, p) <==> (
                        has_entry(v, p) && (p != o.file_path@ || exists|l: int| claims(w, p, l))) by {
                        if has_entry(v, p) && p != o.file_path@ {
                            let k = choose|k: int| 0 <= k < v.len() && (#[trigger] v[k]).file_path@ == p;
                            if k < i {
                                assert(w[k].file_path@ == p);
                            } else {
                                assert(w[k - 1].file_path@ == p);
                            }
                        }
                        if has_entry(w, p) {
                            let k = choose|k: int| 0 <= k < w.len() && (#[trigger] w[k]).file_path@ == p;
                            if k < i {
                                assert(v[k].file_path@ == p);
                            } else {
                                assert(v[k + 1].file_path@ == p);
                            }
                        }
                        if p == o.file_path@ && exists|l: int| claims(w, p, l) {
                            let l = choose|l: int| claims(w, p, l);
                            let k = choose|k: int| 0 <= k < w.len() && w[k].file_path@ == p && #[trigger] w[k].claims_line(l);
                            if k < i {
                                assert(v[k].file_path@ == p);
                            } else {
                                assert(v[k + 1].file_path@ == p);
                            }
                        }
                    }
                    assert forall|p: Seq<char>, l: int| #[trigger] claims(w, p, l) <==> (
                        claims(v, p, l) && !(p == o.file_path@ && o.claims_line(l))) by {
                        if claims(v, p, l) && !(p == o.file_path@ && o.claims_line(l)) {
                            let k = choose|k: int| 0 <= k < v.len() && v[k].file_path@ == p && #[trigger] v[k].claims_line(l);
                            if k < i {
                                assert(w[k].claims_line(l));
                            } else if k > i {
                                assert(w[k - 1].claims_line(l));
                            }
                        }
                        if claims(w, p, l) {
                            let k = choose|k: int| 0 <= k < w.len() && w[k].file_path@ == p && #[trigger] w[k].claims_line(l);
                            if k < i {
                                assert(v[k].claims_line(l));
                            } else {
                                assert(v[k + 1].claims_line(l));
                            }
                        }
                    }
                },
            }
        } else {
            assert forall|k: int| 0 <= k < v.len() implies (#[trigger] v[k]).file_path@ != o.file_path@ by {
                if k < i {
                    lemma_less_asymmetric(v[k].file_path@, o.file_path@);
                } else if i < v.len() {
                    lemma_less_asymmetric(o.file_path@, v[i as int].file_path@);
                    if k > i {
                        lemma_less_transitive(o.file_path@, v[i as int].file_path@, v[k].file_path@);
                        lemma_less_asymmetric(o.file_path@, v[k].file_path@);
                    }
                }
            }
            assert forall|p: Seq<char>| #[trigger] has_entry(v, p) <==> (
                has_entry(v, p) && (p != o.file_path@ || exists|l: int| claims(v, p, l))) by {
            }
        }
    }

    /// Whether some entry of this branch contains the claim `o`.
    pub fn contains(&self, o: &Ownership) -> (r: bool)
        requires
            ownership_wf(self.ownership@),
        ensures
            r == contains_result(self.ownership@, *o),
    {
        let n = self.ownership.len();
        let mut i: usize = 0;
        while i < n
            invariant
                i <= n == self.ownership@.len(),
                ownership_wf(self.ownership@),
                forall|k: int| 0 <= k < i ==> !((#[trigger] self.ownership@[k]).file_path@ == o.file_path@
                    && forall|l: int| #[trigger] o.claims_line(l) ==> self.ownership@[k].claims_line(l)),
            decreases n - i,
        {
            if self.ownership[i].contains(o) {
                return true;
            }
            i += 1;
        }
        false
    }

    /// Whether the ownership list is in normal form: entries sorted strictly
    /// by path, each with hunks in normal form.
    pub fn has_normal_ownership(&self) -> (r: bool)
        ensures
            r == ownership_wf(self.ownership@),
    {
        let v = &self.ownership;
        let n = v.len();
        let mut i: usize = 0;
        while i < n
            invariant
                n == v@.len(),
                v@ == self.ownership@,
                i <= n,
                forall|k: int| 0 <= k < i ==> (#[trigger] v@[k]).wf(),
                forall|j: int, k: int| 0 <= j < k < i ==> path_less((#[trigger] v@[j]).file_path@, (#[trigger] v@[k]).file_path@),
            decreases n - i,
        {
            if !crate::hunk::hunks_normal(&v[i].hunks) {
                assert(!v@[i as int].wf());
                return false;
            }
            if i > 0 {
                match compare_paths(v[i - 1].file_path.as_str(), v[i].file_path.as_str()) {
                    PathOrder::Less => {},
                    _ => {
                        assert(!path_less(v@[i - 1].file_path@, v@[i as int].file_path@));
                        return false;
                    },
                }
            }
            assert forall|j: int, k: int| 0 <= j < k < i + 1 implies path_less((#[trigger] v@[j]).file_path@, (#[trigger] v@[k]).file_path@) by {
                if k == i && j < i - 1 {
                    lemma_less_transitive(v@[j].file_path@, v@[i - 1].file_path@, v@[i as int].file_path@);
                }
            }
            i += 1;
        }
        true
    }
}

} // verus!
