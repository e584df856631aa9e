//! Properties that relate several operations on branches and their claims.
use vstd::prelude::*;
use crate::branch::{ownership_wf, has_entry, claims, put_result, take_result, contains_result};
use crate::hunk::{Hunk, in_hunk, covers, lemma_hunks_canonical};
use crate::order::lemma_less_asymmetric;
use crate::ownership::Ownership;
use crate::branch::Branch;
use crate::oid::{hex_of, lemma_hex_round_trip};
use crate::ownership_text::{lemma_ownership_round_trip, lines_of, ownership_text, parse_line_spec, lines_parse};
use crate::reader::{
    branch_root, field, field_ok, readable, reads_as, is_field, describes_stored_fault, missing_fault, parse_fault,
    selected_path,
};
use crate::store::{Store, Error, scoped, under, bool_text};
use crate::text::{decimal, lemma_decimal_round_trip, text_lines};
use crate::writer::stored_field;

verus! {

proof fn lemma_single_hunk(o: Ownership, h: Hunk)
    requires
        o.hunks@ == seq![h],
    ensures
        forall|l: int| #[trigger] o.claims_line(l) <==> in_hunk(h, l),
{
    assert forall|l: int| #[trigger] o.claims_line(l) <==> in_hunk(h, l) by {
        if in_hunk(h, l) {
            assert(in_hunk(o.hunks@[0], l));
        }
    }
}

proof fn lemma_no_entry_no_claims(v: Seq<Ownership>, p: Seq<char>)
    requires
        !has_entry(v, p),
    ensures
        forall|l: int| !#[trigger] claims(v, p, l),
{
    assert forall|l: int| !#[trigger] claims(v, p, l) by {
        if claims(v, p, l) {
            let i = choose|i: int| 0 <= i < v.len() && v[i].file_path@ == p && #[trigger] v[i].claims_line(l);
            assert(v[i].file_path@ == p);
        }
    }
}

/// Putting the same claim twice leaves the branch with the same entries and
/// the same claimed lines as putting it once.
pub proof fn lemma_put_idempotent(v0: Seq<Ownership>, o: Ownership, v1: Seq<Ownership>, v2: Seq<Ownership>)
    requires
        put_result(v0, o, v1),
        put_result(v1, o, v2),
    ensures
        forall|p: Seq<char>| #[trigger] has_entry(v2, p) == has_entry(v1, p),
        forall|p: Seq<char>, l: int| #[trigger] claims(v2, p, l) == claims(v1, p, l),
{
    assert forall|p: Seq<char>| #[trigger] has_entry(v2, p) == has_entry(v1, p) by {
        assert(has_entry(v2, p) == (has_entry(v1, p) || (p == o.file_path@ && o.hunks@.len() > 0)));
        assert(has_entry(v1, p) == (has_entry(v0, p) || (p == o.file_path@ && o.hunks@.len() > 0)));
    }
    assert forall|p: Seq<char>, l: int| #[trigger] claims(v2, p, l) == claims(v1, p, l) by {
        assert(claims(v2, p, l) == (claims(v1, p, l) || (p == o.file_path@ && o.claims_line(l))));
        assert(claims(v1, p, l) == (claims(v0, p, l) || (p == o.file_path@ && o.claims_line(l))));
    }
}

/// For disjoint hunks `h1` and `h2` of a file the branch had no entry for,
/// putting one claim for each leaves one entry claiming both, and taking the
/// second back leaves the entry claiming only `h1`.
pub proof fn lemma_put_put_take(
    v0: Seq<Ownership>,
    o1: Ownership,
    o2: Ownership,
    h1: Hunk,
    h2: Hunk,
    v1: Seq<Ownership>,
    v2: Seq<Ownership>,
    v3: Seq<Ownership>,
)
    requires
        o1.hunks@ == seq![h1],
        o2.hunks@ == seq![h2],
        o1.file_path@ == o2.file_path@,
        h1.start < h1.end,
        h2.start < h2.end,
        forall|l: int| !(in_hunk(h1, l) && in_hunk(h2, l)),
        !has_entry(v0, o1.file_path@),
        put_result(v0, o1, v1),
        put_result(v1, o2, v2),
        take_result(v2, o2, v3),
    ensures
        has_entry(v2, o1.file_path@),
        forall|l: int| #[trigger] claims(v2, o1.file_path@, l) <==> (in_hunk(h1, l) || in_hunk(h2, l)),
        has_entry(v3, o1.file_path@),
        forall|l: int| #[trigger] claims(v3, o1.file_path@, l) <==> in_hunk(h1, l),
{
    let f = o1.file_path@;
    lemma_single_hunk(o1, h1);
    lemma_single_hunk(o2, h2);
    lemma_no_entry_no_claims(v0, f);
    assert(has_entry(v1, f));
    assert(has_entry(v2, f));
    assert forall|l: int| #[trigger] claims(v2, f, l) <==> (in_hunk(h1, l) || in_hunk(h2, l)) by {
        assert(claims(v1, f, l) == (claims(v0, f, l) || o1.claims_line(l)));
    }
    assert forall|l: int| #[trigger] claims(v3, f, l) <==> in_hunk(h1, l) by {
        assert(claims(v2, f, l) <==> (in_hunk(h1, l) || in_hunk(h2, l)));
    }
    assert(in_hunk(h1, h1.start as int));
    assert(claims(v3, f, h1.start as int));
}

/// Putting a claim and then taking the same claim from a file the branch had
/// no entry for leaves no entry for that file.
pub proof fn lemma_put_take_removes(v0: Seq<Ownership>, o: Ownership, v1: Seq<Ownership>, v2: Seq<Ownership>)
    requires
        !has_entry(v0, o.file_path@),
        put_result(v0, o, v1),
        take_result(v1, o, v2),
    ensures
        !has_entry(v2, o.file_path@),
{
    let f = o.file_path@;
    lemma_no_entry_no_claims(v0, f);
    assert forall|l: int| !#[trigger] claims(v2, f, l) by {
        assert(claims(v1, f, l) == (claims(v0, f, l) || o.claims_line(l)));
    }
}

/// After a claim on `h` is put, the branch contains any claim on a range
/// inside `h` of the same file, and no claim on a file it had no entry for.
pub proof fn lemma_put_then_contains(
    v0: Seq<Ownership>,
    o: Ownership,
    h: Hunk,
    v1: Seq<Ownership>,
    sub: Ownership,
    s: Hunk,
    other: Ownership,
)
    requires
        o.hunks@ == seq![h],
        h.start < h.end,
        put_result(v0, o, v1),
        ownership_wf(v1),
        sub.file_path@ == o.file_path@,
        sub.hunks@ == seq![s],
        h.start <= s.start,
        s.end <= h.end,
        other.file_path@ != o.file_path@,
        !has_entry(v0, other.file_path@),
    ensures
        contains_result(v1, sub),
        !contains_result(v1, other),
{
    let f = o.file_path@;
    lemma_single_hunk(o, h);
    lemma_single_hunk(sub, s);
    assert(has_entry(v1, f));
    let i = choose|i: int| 0 <= i < v1.len() && (#[trigger] v1[i]).file_path@ == f;
    assert forall|l: int| #[trigger] sub.claims_line(l) implies v1[i].claims_line(l) by {
        assert(o.claims_line(l));
        assert(claims(v1, f, l));
        let j = choose|j: int| 0 <= j < v1.len() && v1[j].file_path@ == f && #[trigger] v1[j].claims_line(l);
        if j < i {
            lemma_less_asymmetric(v1[j].file_path@, v1[i].file_path@);
        } else if j > i {
            lemma_less_asymmetric(v1[i].file_path@, v1[j].file_path@);
        }
    }
    if contains_result(v1, other) {
        let k = choose|k: int| 0 <= k < v1.len() && (#[trigger] v1[k]).file_path@ == other.file_path@ && forall|l: int|
            #[trigger] other.claims_line(l) ==> v1[k].claims_line(l);
        assert(has_entry(v1, other.file_path@));
    }
}

/// Two records whose fields have equal values.
pub open spec fn same_branch(a: Branch, b: Branch) -> bool {
    &&& a.id@ == b.id@
    &&& a.name@ == b.name@
    &&& a.applied == b.applied
    &&& a.upstream@ == b.upstream@
    &&& a.created_timestamp_ms == b.created_timestamp_ms
    &&& a.updated_timestamp_ms == b.updated_timestamp_ms
    &&& a.tree.bytes@ == b.tree.bytes@
    &&& a.head.bytes@ == b.head.bytes@
    &&& a.ownership@.len() == b.ownership@.len()
    &&& forall|i: int| 0 <= i < a.ownership@.len() ==> (#[trigger] a.ownership@[i]).file_path@
        == b.ownership@[i].file_path@ && a.ownership@[i].hunks@ == b.ownership@[i].hunks@
}

/// A record written for `b` reads back as `b`, when its hunks are in normal
/// form.
pub proof fn lemma_write_read_round_trip(b: Branch, s: Store)
    requires
        forall|i: int| 0 <= i < b.ownership@.len() ==> (#[trigger] b.ownership@[i]).wf(),
        forall|f: Seq<char>| is_field(f) ==> #[trigger] field(s, branch_root(b.id@), f) == Some(stored_field(b, f)),
    ensures
        s.holds(branch_root(b.id@)),
        readable(s, branch_root(b.id@)),
        forall|c: Branch| reads_as(s, branch_root(b.id@), c) ==> same_branch(c, b),
{
    reveal_strlit("id");
    reveal_strlit("meta/name");
    reveal_strlit("meta/applied");
    reveal_strlit("meta/upstream");
    reveal_strlit("meta/tree");
    reveal_strlit("meta/head");
    reveal_strlit("meta/created_timestamp_ms");
    reveal_strlit("meta/updated_timestamp_ms");
    reveal_strlit("meta/ownership");
    reveal_strlit("true");
    reveal_strlit("false");
    reveal_strlit("/");
    assert("meta/name"@[5] != "meta/tree"@[5]);
    assert("meta/name"@[5] != "meta/head"@[5]);
    assert("meta/tree"@[5] != "meta/head"@[5]);
    assert("meta/created_timestamp_ms"@[5] != "meta/updated_timestamp_ms"@[5]);
    let r = branch_root(b.id@);
    assert(field(s, r, "id"@) == Some(b.id@));
    assert(field(s, r, "meta/name"@) == Some(b.name@));
    assert(field(s, r, "meta/applied"@) == Some(bool_text(b.applied)));
    assert(field(s, r, "meta/upstream"@) == Some(b.upstream@));
    assert(field(s, r, "meta/tree"@) == Some(hex_of(b.tree.bytes@)));
    assert(field(s, r, "meta/head"@) == Some(hex_of(b.head.bytes@)));
    assert(field(s, r, "meta/created_timestamp_ms"@) == Some(decimal(b.created_timestamp_ms as nat)));
    assert(field(s, r, "meta/updated_timestamp_ms"@) == Some(decimal(b.updated_timestamp_ms as nat)));
    assert(field(s, r, "meta/ownership"@) == Some(ownership_text(b.ownership@)));
    lemma_hex_round_trip(b.tree.bytes@);
    lemma_hex_round_trip(b.head.bytes@);
    lemma_decimal_round_trip(b.created_timestamp_ms as nat);
    lemma_decimal_round_trip(b.updated_timestamp_ms as nat);
    lemma_ownership_round_trip(b.ownership@);
    let k = scoped(r, "id"@);
    assert(k.subrange(0, r.len() as int) =~= r);
    assert(under(r, k));
    assert(s.value_at(k) is Some);
    let t = ownership_text(b.ownership@);
    assert(text_lines(t) == lines_of(b.ownership@));
    assert(field_ok(s, r, 0));
    assert(field_ok(s, r, 1));
    assert(field_ok(s, r, 2));
    assert(field_ok(s, r, 3));
    assert(field_ok(s, r, 4));
    assert(field_ok(s, r, 5));
    assert(field_ok(s, r, 6));
    assert(field_ok(s, r, 7));
    assert(field_ok(s, r, 8));
    assert(crate::text::decimal_u128(decimal(b.created_timestamp_ms as nat)) == Some(b.created_timestamp_ms));
    assert(crate::text::decimal_u128(decimal(b.updated_timestamp_ms as nat)) == Some(b.updated_timestamp_ms));
    assert forall|c: Branch| reads_as(s, r, c) implies same_branch(c, b) by {
        assert(c.id@ == b.id@);
        assert(c.name@ == b.name@);
        assert(bool_text(true).len() != bool_text(false).len());
        assert(c.applied == b.applied);
        assert(c.upstream@ == b.upstream@);
        assert(c.tree.bytes@ == b.tree.bytes@);
        assert(c.head.bytes@ == b.head.bytes@);
        assert(c.created_timestamp_ms == b.created_timestamp_ms);
        assert(c.updated_timestamp_ms == b.updated_timestamp_ms);
        assert(c.ownership@.len() == b.ownership@.len());
        assert forall|i: int| 0 <= i < c.ownership@.len() implies (#[trigger] c.ownership@[i]).file_path@
            == b.ownership@[i].file_path@ && c.ownership@[i].hunks@ == b.ownership@[i].hunks@ by {
            assert(parse_line_spec(lines_of(b.ownership@)[i]) == Some((b.ownership@[i].file_path@, b.ownership@[i].hunks@)));
        }
    }
}

/// The selected pointer is absent in a fresh store, and each write of it is
/// what a read then finds.
pub proof fn lemma_selected_round_trip(s0: Store, x: Seq<char>, s1: Store, y: Seq<char>, s2: Store)
    requires
        forall|k: Seq<char>| #[trigger] s0.value_at(k) is None,
        forall|k: Seq<char>| #[trigger] s1.value_at(k) == if k == selected_path() { Some(x) } else { s0.value_at(k) },
        forall|k: Seq<char>| #[trigger] s2.value_at(k) == if k == selected_path() { Some(y) } else { s1.value_at(k) },
    ensures
        s0.value_at(selected_path()) is None,
        s1.value_at(selected_path()) == Some(x),
        s2.value_at(selected_path()) == Some(y),
{
    assert(s0.value_at(selected_path()) is None);
    assert(s1.value_at(selected_path()) == Some(x));
    assert(s2.value_at(selected_path()) == Some(y));
}

/// Reading a stored record whose fields all decode but for one line of its
/// ownership list fails, not with `NotFound`, but with a parse error on the
/// ownership field of that record that carries that line.
pub proof fn lemma_bad_ownership_line(s: Store, id: Seq<char>, k: int, r: Result<Branch, Error>)
    requires
        s.holds(branch_root(id)),
        field_ok(s, branch_root(id), 0),
        field_ok(s, branch_root(id), 1),
        field_ok(s, branch_root(id), 2),
        field_ok(s, branch_root(id), 3),
        field_ok(s, branch_root(id), 4),
        field_ok(s, branch_root(id), 5),
        field_ok(s, branch_root(id), 6),
        field_ok(s, branch_root(id), 7),
        field(s, branch_root(id), "meta/ownership"@) is Some,
        0 <= k < text_lines(field(s, branch_root(id), "meta/ownership"@)->0).len(),
        parse_line_spec(text_lines(field(s, branch_root(id), "meta/ownership"@)->0)[k]) is None,
        forall|j: int| 0 <= j < text_lines(field(s, branch_root(id), "meta/ownership"@)->0).len() && j != k ==> (
            #[trigger] parse_line_spec(text_lines(field(s, branch_root(id), "meta/ownership"@)->0)[j])) is Some,
        r is Ok <==> readable(s, branch_root(id)),
        r is Err ==> describes_stored_fault(s, branch_root(id), r->Err_0),
    ensures
        r matches Err(Error::Parse { path, value }) && path@ == scoped(branch_root(id), "meta/ownership"@)
            && value@ == text_lines(field(s, branch_root(id), "meta/ownership"@)->0)[k],
{
    let prefix = branch_root(id);
    reveal_strlit("id");
    reveal_strlit("meta/name");
    reveal_strlit("meta/applied");
    reveal_strlit("meta/upstream");
    reveal_strlit("meta/tree");
    reveal_strlit("meta/head");
    reveal_strlit("meta/created_timestamp_ms");
    reveal_strlit("meta/updated_timestamp_ms");
    reveal_strlit("meta/ownership");
    assert("meta/name"@[5] != "meta/tree"@[5]);
    assert("meta/name"@[5] != "meta/head"@[5]);
    assert("meta/tree"@[5] != "meta/head"@[5]);
    assert("meta/created_timestamp_ms"@[5] != "meta/updated_timestamp_ms"@[5]);
    let t = field(s, prefix, "meta/ownership"@)->0;
    assert(!lines_parse(text_lines(t)));
    assert(!field_ok(s, prefix, 8));
    assert(!readable(s, prefix));
    let e = r->Err_0;
    match e {
        Error::NotFound => {},
        Error::MissingField { path } => {
            let f = choose|f: Seq<char>| path@ == #[trigger] scoped(prefix, f) && missing_fault(s, prefix, f);
        },
        Error::Parse { path, value } => {
            let f = choose|f: Seq<char>| path@ == #[trigger] scoped(prefix, f) && parse_fault(s, prefix, f, value@);
            assert(f == "meta/ownership"@);
            let j = choose|j: int| 0 <= j < text_lines(t).len() && value@ == text_lines(t)[j] && (
                #[trigger] parse_line_spec(text_lines(t)[j])) is None && forall|i: int| 0 <= i < j
                ==> (#[trigger] parse_line_spec(text_lines(t)[i])) is Some;
            assert(j == k);
        },
    }
}

/// Entries of `v` for other paths than that of `v[i]`.
proof fn lemma_unique_path(v: Seq<Ownership>, i: int, k: int)
    requires
        ownership_wf(v),
        0 <= i < v.len(),
        0 <= k < v.len(),
        i != k,
    ensures
        v[i].file_path@ != v[k].file_path@,
{
    if i < k {
        lemma_less_asymmetric(v[i].file_path@, v[k].file_path@);
    } else {
        lemma_less_asymmetric(v[k].file_path@, v[i].file_path@);
    }
}

proof fn lemma_tail_wf(v: Seq<Ownership>)
    requires
        ownership_wf(v),
        v.len() > 0,
    ensures
        ownership_wf(v.drop_first()),
        forall|p: Seq<char>| #[trigger] has_entry(v.drop_first(), p) == (has_entry(v, p) && p != v[0].file_path@),
        forall|p: Seq<char>, l: int| #[trigger] claims(v.drop_first(), p, l) == (claims(v, p, l) && p != v[0].file_path@),
        forall|l: int| #[trigger] covers(v[0].hunks@, l) == claims(v, v[0].file_path@, l),
{
    let t = v.drop_first();
    assert forall|i: int, j: int| 0 <= i < j < t.len() implies
        crate::order::path_less((#[trigger] t[i]).file_path@, (#[trigger] t[j]).file_path@) by {
        assert(crate::order::path_less(v[i + 1].file_path@, v[j + 1].file_path@));
    }
    assert forall|i: int| 0 <= i < t.len() implies (#[trigger] t[i]).wf() by {
        assert(v[i + 1].wf());
    }
    assert forall|p: Seq<char>| #[trigger] has_entry(t, p) == (has_entry(v, p) && p != v[0].file_path@) by {
        if has_entry(t, p) {
            let k = choose|k: int| 0 <= k < t.len() && (#[trigger] t[k]).file_path@ == p;
            lemma_unique_path(v, 0, k + 1);
            assert(v[k + 1].file_path@ == p);
        }
        if has_entry(v, p) && p != v[0].file_path@ {
            let k = choose|k: int| 0 <= k < v.len() && (#[trigger] v[k]).file_path@ == p;
            assert(t[k - 1].file_path@ == p);
        }
    }
    assert forall|p: Seq<char>, l: int| #[trigger] claims(t, p, l) == (claims(v, p, l) && p != v[0].file_path@) by {
        if claims(t, p, l) {
            let k = choose|k: int| 0 <= k < t.len() && t[k].file_path@ == p && #[trigger] t[k].claims_line(l);
            lemma_unique_path(v, 0, k + 1);
            assert(v[k + 1].claims_line(l));
        }
        if claims(v, p, l) && p != v[0].file_path@ {
            let k = choose|k: int| 0 <= k < v.len() && v[k].file_path@ == p && #[trigger] v[k].claims_line(l);
            assert(t[k - 1].claims_line(l));
        }
    }
    assert forall|l: int| #[trigger] covers(v[0].hunks@, l) == claims(v, v[0].file_path@, l) by {
        if covers(v[0].hunks@, l) {
            assert(v[0].claims_line(l));
        }
        if claims(v, v[0].file_path@, l) {
            let k = choose|k: int| 0 <= k < v.len() && v[k].file_path@ == v[0].file_path@ && #[trigger] v[k].claims_line(l);
            if k != 0 {
                lemma_unique_path(v, 0, k);
            }
        }
    }
}

/// A normal ownership list is fixed by its entries' paths and the lines
/// they claim.
pub proof fn lemma_ownership_canonical(v: Seq<Ownership>, w: Seq<Ownership>)
    requires
        ownership_wf(v),
        ownership_wf(w),
        forall|p: Seq<char>| #![trigger has_entry(v, p)] #![trigger has_entry(w, p)] has_entry(v, p) == has_entry(w, p),
        forall|p: Seq<char>, l: int| #![trigger claims(v, p, l)] #![trigger claims(w, p, l)] claims(v, p, l) == claims(w, p, l),
    ensures
        v.len() == w.len(),
        forall|i: int| 0 <= i < v.len() ==> (#[trigger] v[i]).file_path@ == w[i].file_path@ && v[i].hunks@ == w[i].hunks@,
    decreases v.len() + w.len(),
{
    if v.len() == 0 || w.len() == 0 {
        if v.len() > 0 {
            assert(has_entry(v, v[0].file_path@));
        }
        if w.len() > 0 {
            assert(has_entry(w, w[0].file_path@));
        }
    } else {
        let p = v[0].file_path@;
        let q = w[0].file_path@;
        assert(has_entry(v, p));
        assert(has_entry(w, q));
        let j = choose|j: int| 0 <= j < w.len() && (#[trigger] w[j]).file_path@ == p;
        let i = choose|i: int| 0 <= i < v.len() && (#[trigger] v[i]).file_path@ == q;
        if i > 0 && j > 0 {
            assert(crate::order::path_less(q, p));
            lemma_less_asymmetric(q, p);
            assert(crate::order::path_less(p, q));
        }
        assert(p == q);
        lemma_tail_wf(v);
        lemma_tail_wf(w);
        assert forall|l: int| #![trigger covers(v[0].hunks@, l)] #![trigger covers(w[0].hunks@, l)]
            covers(v[0].hunks@, l) == covers(w[0].hunks@, l) by {
            assert(claims(v, p, l) == claims(w, p, l));
        }
        lemma_hunks_canonical(v[0].hunks@, w[0].hunks@);
        let tv = v.drop_first();
        let tw = w.drop_first();
        assert forall|r: Seq<char>| #![trigger has_entry(tv, r)] #![trigger has_entry(tw, r)]
            has_entry(tv, r) == has_entry(tw, r) by {
            assert(has_entry(v, r) == has_entry(w, r));
        }
        assert forall|r: Seq<char>, l: int| #![trigger claims(tv, r, l)] #![trigger claims(tw, r, l)]
            claims(tv, r, l) == claims(tw, r, l) by {
            assert(claims(v, r, l) == claims(w, r, l));
        }
        lemma_ownership_canonical(tv, tw);
        assert forall|k: int| 0 <= k < v.len() implies (#[trigger] v[k]).file_path@ == w[k].file_path@
            && v[k].hunks@ == w[k].hunks@ by {
            if k > 0 {
                assert(v[k] == tv[k - 1]);
                assert(w[k] == tw[k - 1]);
            }
        }
    }
}

/// Putting the same claim twice leaves exactly the entries that putting it
/// once leaves.
pub proof fn lemma_put_twice_same_entries(v0: Seq<Ownership>, o: Ownership, v1: Seq<Ownership>, v2: Seq<Ownership>)
    requires
        put_result(v0, o, v1),
        put_result(v1, o, v2),
        ownership_wf(v1),
        ownership_wf(v2),
    ensures
        v2.len() == v1.len(),
        forall|i: int| 0 <= i < v1.len() ==> (#[trigger] v2[i]).file_path@ == v1[i].file_path@ && v2[i].hunks@
            == v1[i].hunks@,
{
    lemma_put_idempotent(v0, o, v1, v2);
    lemma_ownership_canonical(v2, v1);
}

} // verus!
