//! Hunks: half-open line ranges of a file, and normalised sequences of them.
use vstd::prelude::*;

verus! {

/// A claimed region `[start, end)` of the lines of one file.
#[derive(Clone, Copy, Debug, PartialEq, Eq, Structural)]
pub struct Hunk {
    pub start: usize,
    pub end: usize,
}

/// Line `l` lies inside hunk `h`.
pub open spec fn in_hunk(h: Hunk, l: int) -> bool {
    h.start <= l && l < h.end
}

/// Some hunk among the first `n` of `hs` holds line `l`.
pub open spec fn covers_upto(hs: Seq<Hunk>, n: int, l: int) -> bool {
    exists|k: int| 0 <= k < n && #[trigger] in_hunk(hs[k], l)
}

/// Some hunk of `hs` with index in `[a, b)` holds line `l`.
pub open spec fn covers_between(hs: Seq<Hunk>, a: int, b: int, l: int) -> bool {
    exists|k: int| a <= k < b && #[trigger] in_hunk(hs[k], l)
}

/// Some hunk of `hs` holds line `l`.
pub open spec fn covers(hs: Seq<Hunk>, l: int) -> bool {
    covers_upto(hs, hs.len() as int, l)
}

/// The set of lines that `hs` claims.
pub open spec fn lines(hs: Seq<Hunk>) -> Set<int> {
    Set::new(|l: int| covers(hs, l))
}

/// Normal form: every hunk is non-empty, the hunks are sorted by position,
/// and any two of them are separated by at least one unclaimed line.
pub open spec fn hunks_wf(hs: Seq<Hunk>) -> bool {
    &&& forall|k: int| 0 <= k < hs.len() ==> (#[trigger] hs[k]).start < hs[k].end
    &&& forall|j: int, k: int| 0 <= j < k < hs.len() ==> (#[trigger] hs[j]).end < (#[trigger] hs[k]).start
}

/// Adds the lines of `h` to the normalised sequence `hs`, coalescing every
/// hunk that overlaps or touches it.
pub fn insert_range(hs: &Vec<Hunk>, h: Hunk) -> (r: Vec<Hunk>)
    requires
        hunks_wf(hs@),
        h.start < h.end,
    ensures
        hunks_wf(r@),
        forall|l: int| #[trigger] covers(r@, l) <==> (covers(hs@, l) || in_hunk(h, l)),
{
    let n = hs.len();
    let mut out: Vec<Hunk> = Vec::new();
    let mut i: usize = 0;
    while i < n && hs[i].end < h.start
        invariant
            i <= n == hs@.len(),
            hunks_wf(hs@),
            out@ == hs@.subrange(0, i as int),
            forall|k: int| 0 <= k < i ==> (#[trigger] hs@[k]).end < h.start,
        decreases n - i,
    {
        out.push(hs[i]);
        i += 1;
    }
    let first = i;
    let mut s = h.start;
    let mut e = h.end;
    while i < n && hs[i].start <= e
        invariant
            first <= i <= n == hs@.len(),
            hunks_wf(hs@),
            h.start < h.end,
            out@ == hs@.subrange(0, first as int),
            forall|k: int| 0 <= k < first ==> (#[trigger] hs@[k]).end < s,
            first < n ==> h.start <= hs@[first as int].end,
            s <= h.start,
            h.end <= e,
            i == first ==> s == h.start && e == h.end,
            i > first ==> hs@[i - 1].end <= e && s <= hs@[i - 1].start,
            forall|l: int|
                (s <= l && l < e) <==> (in_hunk(h, l) || #[trigger] covers_between(hs@, first as int, i as int, l)),
        decreases n - i,
    {
        let c = hs[i];
        let ghost s0 = s;
        let ghost e0 = e;
        if c.start < s {
            s = c.start;
        }
        if c.end > e {
            e = c.end;
        }
        proof {
            if i > first {
                assert(hs@[i - 1].end < hs@[i as int].start);
                assert(hs@[i - 1].start < hs@[i - 1].end);
            }
        }
        assert forall|l: int|
            (s <= l && l < e) <==> (in_hunk(h, l) || #[trigger] covers_between(hs@, first as int, i + 1, l)) by {
            if s <= l && l < e {
                if in_hunk(c, l) {
                    assert(in_hunk(hs@[i as int], l));
                } else {
                    assert(s0 <= l && l < e0);
                    if !in_hunk(h, l) {
                        assert(covers_between(hs@, first as int, i as int, l));
                        let k = choose|k: int| first <= k < i && #[trigger] in_hunk(hs@[k], l);
                        assert(first <= k < i + 1 && in_hunk(hs@[k], l));
                    }
                }
            }
            if covers_between(hs@, first as int, i + 1, l) {
                let k = choose|k: int| first <= k < i + 1 && #[trigger] in_hunk(hs@[k], l);
                if k < i {
                    assert(covers_between(hs@, first as int, i as int, l));
                    assert(s0 <= l && l < e0);
                }
            }
            if in_hunk(h, l) {
                assert(s0 <= l && l < e0);
            }
        }
        proof {
            assert forall|k: int| 0 <= k < first implies (#[trigger] hs@[k]).end < s by {
                assert(hs@[k].end < hs@[first as int].start);
            }
        }
        i += 1;
    }
    let merged = Hunk { start: s, end: e };
    out.push(merged);
    let ghost rest = i as int;
    proof {
        if rest < n {
            assert forall|m: int| rest <= m < n implies e < (#[trigger] hs@[m]).start by {
                if m > rest {
                    assert(hs@[rest].end < hs@[m].start);
                }
            }
        }
    }
    while i < n
        invariant
            rest <= i <= n == hs@.len(),
            first <= rest,
            hunks_wf(hs@),
            s < e,
            out@.len() == first + 1 + (i - rest),
            forall|k: int| 0 <= k < first ==> (#[trigger] out@[k]) == hs@[k],
            out@[first as int] == merged,
            forall|j: int| first < j < out@.len() ==> (#[trigger] out@[j]) == hs@[rest + j - first - 1],
            forall|k: int| 0 <= k < first ==> (#[trigger] hs@[k]).end < s,
            forall|m: int| rest <= m < n ==> e < (#[trigger] hs@[m]).start,
        decreases n - i,
    {
        out.push(hs[i]);
        i += 1;
    }
    proof {
        assert forall|j: int, k: int| 0 <= j < k < out@.len() implies (#[trigger] out@[j]).end < (#[trigger] out@[k]).start by {
            if k < first {
                assert(hs@[j].end < hs@[k].start);
            } else if k == first {
            } else if j < first {
                assert(hs@[j].end < hs@[rest + k - first - 1].start);
            } else if j == first {
            } else {
                assert(hs@[rest + j - first - 1].end < hs@[rest + k - first - 1].start);
            }
        }
        assert forall|l: int| #[trigger] covers(out@, l) <==> (covers(hs@, l) || in_hunk(h, l)) by {
            if covers(out@, l) {
                let j = choose|j: int| 0 <= j < out@.len() && #[trigger] in_hunk(out@[j], l);
                if j < first {
                    assert(in_hunk(hs@[j], l));
                } else if j == first {
                    assert(s <= l && l < e);
                    if !in_hunk(h, l) {
                        assert(covers_between(hs@, first as int, rest, l));
                        let k = choose|k: int| first <= k < rest && #[trigger] in_hunk(hs@[k], l);
                        assert(in_hunk(hs@[k], l));
                    }
                } else {
                    assert(in_hunk(hs@[rest + j - first - 1], l));
                }
            }
            if covers(hs@, l) {
                let k = choose|k: int| 0 <= k < hs@.len() && #[trigger] in_hunk(hs@[k], l);
                if k < first {
                    assert(in_hunk(out@[k], l));
                } else if k < rest {
                    assert(covers_between(hs@, first as int, rest, l));
                    assert(in_hunk(merged, l));
                    assert(in_hunk(out@[first as int], l));
                } else {
                    assert(in_hunk(out@[k - rest + first + 1], l));
                }
            }
            if in_hunk(h, l) {
                assert(s <= l && l < e);
                assert(in_hunk(out@[first as int], l));
            }
        }
    }
    out
}

/// Removes the lines of `h` from the normalised sequence `hs`, splitting any
/// hunk that straddles it.
pub fn subtract_range(hs: &Vec<Hunk>, h: Hunk) -> (r: Vec<Hunk>)
    requires
        hunks_wf(hs@),
        h.start < h.end,
    ensures
        hunks_wf(r@),
        forall|l: int| #[trigger] covers(r@, l) <==> (covers(hs@, l) && !in_hunk(h, l)),
{
    let n = hs.len();
    let mut out: Vec<Hunk> = Vec::new();
    let mut i: usize = 0;
    while i < n
        invariant
            i <= n == hs@.len(),
            hunks_wf(hs@),
            h.start < h.end,
            hunks_wf(out@),
            out@.len() > 0 ==> i > 0,
            i > 0 ==> forall|j: int| 0 <= j < out@.len() ==> (#[trigger] out@[j]).end <= hs@[i - 1].end,
            forall|l: int|
                #[trigger] covers(out@, l) <==> (covers_between(hs@, 0, i as int, l) && !in_hunk(h, l)),
        decreases n - i,
    {
        let c = hs[i];
        let ghost before = out@;
        proof {
            if i > 0 {
                assert(hs@[i - 1].end < hs@[i as int].start);
            }
        }
        if c.start < h.start {
            let e = if c.end < h.start { c.end } else { h.start };
            out.push(Hunk { start: c.start, end: e });
        }
        let ghost middle = out@;
        if c.end > h.end {
            let s = if c.start > h.end { c.start } else { h.end };
            out.push(Hunk { start: s, end: c.end });
        }
        assert forall|l: int|
            #[trigger] covers(out@, l) <==> (covers_between(hs@, 0, i + 1, l) && !in_hunk(h, l)) by {
            if covers(out@, l) {
                let j = choose|j: int| 0 <= j < out@.len() && #[trigger] in_hunk(out@[j], l);
                if j < before.len() {
                    assert(in_hunk(before[j], l));
                    assert(covers(before, l));
                    let k = choose|k: int| 0 <= k < i && #[trigger] in_hunk(hs@[k], l);
                    assert(in_hunk(hs@[k], l));
                } else {
                    assert(in_hunk(hs@[i as int], l));
                }
            }
            if covers_between(hs@, 0, i + 1, l) && !in_hunk(h, l) {
                let k = choose|k: int| 0 <= k < i + 1 && #[trigger] in_hunk(hs@[k], l);
                if k < i {
                    assert(covers_between(hs@, 0, i as int, l));
                    assert(covers(before, l));
                    let j = choose|j: int| 0 <= j < before.len() && #[trigger] in_hunk(before[j], l);
                    assert(in_hunk(out@[j], l));
                } else if l < h.start {
                    assert(in_hunk(out@[before.len() as int], l));
                } else {
                    assert(in_hunk(out@[out@.len() - 1], l));
                }
            }
        }
        i += 1;
    }
    proof {
        assert forall|l: int| #[trigger] covers(out@, l) <==> (covers(hs@, l) && !in_hunk(h, l)) by {
            if covers(hs@, l) {
                assert(covers_between(hs@, 0, n as int, l));
            }
            if covers_between(hs@, 0, n as int, l) {
                let k = choose|k: int| 0 <= k < n && #[trigger] in_hunk(hs@[k], l);
                assert(in_hunk(hs@[k], l));
            }
        }
    }
    out
}

/// A range whose every line is claimed by a normalised sequence lies inside a
/// single hunk of it, since distinct hunks are separated by unclaimed lines.
pub proof fn lemma_range_in_one_hunk(hs: Seq<Hunk>, x: int, y: int)
    requires
        hunks_wf(hs),
        x < y,
        forall|l: int| x <= l < y ==> #[trigger] covers(hs, l),
    ensures
        exists|k: int| 0 <= k < hs.len() && (#[trigger] hs[k]).start <= x && y <= hs[k].end,
{
    assert(covers(hs, x));
    let k = choose|k: int| 0 <= k < hs.len() && #[trigger] in_hunk(hs[k], x);
    if hs[k].end < y {
        let g = hs[k].end as int;
        assert(covers(hs, g));
        let m = choose|m: int| 0 <= m < hs.len() && #[trigger] in_hunk(hs[m], g);
        if m < k {
            assert(hs[m].end < hs[k].start);
        } else if m > k {
            assert(hs[k].end < hs[m].start);
        }
    }
}

/// Whether every line of `h` is claimed by `hs`.
pub fn range_claimed(hs: &Vec<Hunk>, h: Hunk) -> (r: bool)
    requires
        hunks_wf(hs@),
        h.start < h.end,
    ensures
        r == (forall|l: int| in_hunk(h, l) ==> #[trigger] covers(hs@, l)),
{
    let n = hs.len();
    let mut i: usize = 0;
    while i < n
        invariant
            i <= n == hs@.len(),
            forall|k: int| 0 <= k < i ==> !((#[trigger] hs@[k]).start <= h.start && h.end <= hs@[k].end),
        decreases n - i,
    {
        if hs[i].start <= h.start && h.end <= hs[i].end {
            assert forall|l: int| in_hunk(h, l) implies #[trigger] covers(hs@, l) by {
                assert(in_hunk(hs@[i as int], l));
            }
            return true;
        }
        i += 1;
    }
    proof {
        if forall|l: int| in_hunk(h, l) ==> #[trigger] covers(hs@, l) {
            assert forall|l: int| h.start <= l < h.end implies #[trigger] covers(hs@, l) by {
                assert(in_hunk(h, l));
            }
            lemma_range_in_one_hunk(hs@, h.start as int, h.end as int);
        }
    }
    false
}

/// A normalised sequence is fixed by the lines it claims.
pub proof fn lemma_hunks_canonical(a: Seq<Hunk>, b: Seq<Hunk>)
    requires
        hunks_wf(a),
        hunks_wf(b),
        forall|l: int| #![trigger covers(a, l)] #![trigger covers(b, l)] covers(a, l) == covers(b, l),
    ensures
        a == b,
    decreases a.len() + b.len(),
{
    if a.len() == 0 || b.len() == 0 {
        if a.len() > 0 {
            assert(in_hunk(a[0], a[0].start as int));
            assert(covers(a, a[0].start as int));
        }
        if b.len() > 0 {
            assert(in_hunk(b[0], b[0].start as int));
            assert(covers(b, b[0].start as int));
        }
        assert(a =~= b);
    } else {
        lemma_first_hunk(a, b);
        lemma_first_hunk(b, a);
        let x = a[0];
        assert(x == b[0]);
        let ta = a.drop_first();
        let tb = b.drop_first();
        assert forall|l: int| #![trigger covers(ta, l)] #![trigger covers(tb, l)] covers(ta, l) == covers(tb, l) by {
            lemma_tail_covers(a, l);
            lemma_tail_covers(b, l);
        }
        assert(hunks_wf(ta)) by {
            assert forall|j: int, k: int| 0 <= j < k < ta.len() implies (#[trigger] ta[j]).end < (#[trigger] ta[k]).start by {
                assert(a[j + 1].end < a[k + 1].start);
            }
        }
        assert(hunks_wf(tb)) by {
            assert forall|j: int, k: int| 0 <= j < k < tb.len() implies (#[trigger] tb[j]).end < (#[trigger] tb[k]).start by {
                assert(b[j + 1].end < b[k + 1].start);
            }
        }
        lemma_hunks_canonical(ta, tb);
        assert(a =~= seq![x] + ta);
        assert(b =~= seq![x] + tb);
    }
}

proof fn lemma_tail_covers(a: Seq<Hunk>, l: int)
    requires
        hunks_wf(a),
        a.len() > 0,
    ensures
        covers(a.drop_first(), l) == (covers(a, l) && !in_hunk(a[0], l)),
{
    let t = a.drop_first();
    if covers(t, l) {
        let k = choose|k: int| 0 <= k < t.len() && #[trigger] in_hunk(t[k], l);
        assert(in_hunk(a[k + 1], l));
        assert(a[0].end < a[k + 1].start);
    }
    if covers(a, l) && !in_hunk(a[0], l) {
        let k = choose|k: int| 0 <= k < a.len() && #[trigger] in_hunk(a[k], l);
        assert(in_hunk(t[k - 1], l));
    }
}

/// Two normalised sequences claiming the same lines start with the same hunk
/// (shown here one way round: the first hunk of `b` is no earlier and, when
/// it starts together, no longer than that of `a`).
proof fn lemma_first_hunk(a: Seq<Hunk>, b: Seq<Hunk>)
    requires
        hunks_wf(a),
        hunks_wf(b),
        a.len() > 0,
        b.len() > 0,
        forall|l: int| #![trigger covers(a, l)] #![trigger covers(b, l)] covers(a, l) == covers(b, l),
    ensures
        b[0].start <= a[0].start,
        b[0].start == a[0].start ==> b[0].end <= a[0].end,
{
    let s = a[0].start as int;
    assert(in_hunk(a[0], s));
    assert(covers(a, s));
    let j = choose|j: int| 0 <= j < b.len() && #[trigger] in_hunk(b[j], s);
    if j > 0 {
        assert(b[0].end < b[j].start);
    }
    if b[0].start == a[0].start && b[0].end > a[0].end {
        let e = a[0].end as int;
        assert(in_hunk(b[0], e));
        assert(covers(b, e));
        let k = choose|k: int| 0 <= k < a.len() && #[trigger] in_hunk(a[k], e);
        if k > 0 {
            assert(a[0].end < a[k].start);
        }
    }
}

/// Whether `hs` is in normal form.
pub fn hunks_normal(hs: &Vec<Hunk>) -> (r: bool)
    ensures
        r == hunks_wf(hs@),
{
    let n = hs.len();
    let mut i: usize = 0;
    while i < n
        invariant
            i <= n == hs@.len(),
            forall|k: int| 0 <= k < i ==> (#[trigger] hs@[k]).start < hs@[k].end,
            forall|j: int, k: int| 0 <= j < k < i ==> (#[trigger] hs@[j]).end < (#[trigger] hs@[k]).start,
        decreases n - i,
    {
        if hs[i].start >= hs[i].end {
            return false;
        }
        if i > 0 && hs[i - 1].end >= hs[i].start {
            return false;
        }
        assert forall|j: int, k: int| 0 <= j < k < i + 1 implies (#[trigger] hs@[j]).end < (#[trigger] hs@[k]).start by {
            if k == i && j < i - 1 {
                assert(hs@[j].end < hs@[i - 1].start);
            }
        }
        i += 1;
    }
    true
}

} // verus!
