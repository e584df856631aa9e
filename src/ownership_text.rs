//! The stored text of an ownership list: one line per entry, each the file
//! path with `\\`, line feed and carriage return escaped, then `:` and the
//! hunks as `start-end` separated by `,`.
use vstd::prelude::*;
use crate::hunk::{Hunk, hunks_wf, hunks_normal};
use crate::ownership::Ownership;
use crate::text::{
    decimal, decimal_u128, split, join, free_of, views, push_char, push_str, write_decimal,
    parse_u128, split_on, lemma_split_join, lemma_decimal_round_trip, escape, unescape, last_index,
    text_lines, strip_cr, write_escaped, unescape_text, find_last, split_lines, lemma_escape_round_trip,
    lemma_last_index_of, lemma_last_index_bounds, lemma_split_nonempty,
};

verus! {

pub open spec fn hunk_text(h: Hunk) -> Seq<char> {
    decimal(h.start as nat) + seq!['-'] + decimal(h.end as nat)
}

pub open spec fn hunk_texts(hs: Seq<Hunk>) -> Seq<Seq<char>> {
    hs.map_values(|h: Hunk| hunk_text(h))
}

/// The line that stands for one entry.
pub open spec fn line_of(path: Seq<char>, hs: Seq<Hunk>) -> Seq<char> {
    escape(path) + seq![':'] + join(hunk_texts(hs), ',')
}

pub open spec fn lines_of(v: Seq<Ownership>) -> Seq<Seq<char>> {
    v.map_values(|o: Ownership| line_of(o.file_path@, o.hunks@))
}

/// The stored text of an ownership list.
pub open spec fn ownership_text(v: Seq<Ownership>) -> Seq<char> {
    join(lines_of(v), '\n')
}

/// The hunk that `start-end` spells, each bound a decimal that fits a `usize`.
pub open spec fn parse_hunk_spec(t: Seq<char>) -> Option<Hunk> {
    let parts = split(t, '-');
    if parts.len() == 2 && decimal_u128(parts[0]) is Some && decimal_u128(parts[1]) is Some
        && decimal_u128(parts[0])->0 <= usize::MAX && decimal_u128(parts[1])->0 <= usize::MAX {
        Some(Hunk { start: decimal_u128(parts[0])->0 as usize, end: decimal_u128(parts[1])->0 as usize })
    } else {
        None
    }
}

/// The hunks that a `,`-separated list spells, if every piece is one.
pub open spec fn parse_hunks_spec(pieces: Seq<Seq<char>>) -> Option<Seq<Hunk>> {
    if forall|i: int| 0 <= i < pieces.len() ==> (#[trigger] parse_hunk_spec(pieces[i])) is Some {
        Some(Seq::new(pieces.len(), |i: int| parse_hunk_spec(pieces[i])->0))
    } else {
        None
    }
}

/// The path and hunks that one line spells: an escaped path, the last `:`
/// of the line, and a list of hunks in normal form (nothing after the `:` is
/// the empty list).
pub open spec fn parse_line_spec(s: Seq<char>) -> Option<(Seq<char>, Seq<Hunk>)> {
    let k = last_index(s, ':');
    let head = s.subrange(0, k);
    let tail = s.subrange(k + 1, s.len() as int);
    if k < 0 || unescape(head) is None {
        None
    } else if tail.len() == 0 {
        Some((unescape(head)->0, Seq::<Hunk>::empty()))
    } else if parse_hunks_spec(split(tail, ',')) is Some && hunks_wf(parse_hunks_spec(split(tail, ','))->0) {
        Some((unescape(head)->0, parse_hunks_spec(split(tail, ','))->0))
    } else {
        None
    }
}

/// Writes one hunk as `start-end`.
fn write_hunk(h: Hunk, out: &mut String)
    ensures
        final(out)@ == old(out)@ + hunk_text(h),
{
    write_decimal(h.start as u128, out);
    push_char(out, '-');
    write_decimal(h.end as u128, out);
    assert(final(out)@ =~= old(out)@ + hunk_text(h));
}

/// The line that stands for `o`.
pub fn line_text(o: &Ownership) -> (r: String)
    ensures
        r@ == line_of(o.file_path@, o.hunks@),
{
    let mut out = String::new();
    write_escaped(o.file_path.as_str(), &mut out);
    push_char(&mut out, ':');
    let ghost head = out@;
    let ghost texts = hunk_texts(o.hunks@);
    let n = o.hunks.len();
    let mut i: usize = 0;
    while i < n
        invariant
            n == o.hunks@.len(),
            texts == hunk_texts(o.hunks@),
            i <= n,
            i > 0 ==> out@ == head + join(texts.subrange(0, i as int), ','),
            i == 0 ==> out@ == head,
        decreases n - i,
    {
        if i > 0 {
            push_char(&mut out, ',');
        }
        write_hunk(o.hunks[i], &mut out);
        proof {
            let t1 = texts.subrange(0, i + 1);
            if i == 0 {
                assert(t1.len() == 1);
                assert(out@ =~= head + join(t1, ','));
            } else {
                assert(t1.drop_last() =~= texts.subrange(0, i as int));
                assert(t1.last() == texts[i as int]);
                assert(out@ =~= head + join(t1, ','));
            }
        }
        i += 1;
    }
    assert(texts.subrange(0, n as int) =~= texts);
    assert(out@ =~= escape(o.file_path@) + seq![':'] + join(texts, ','));
    out
}

/// The stored text of an ownership list.
pub fn write_ownership(v: &Vec<Ownership>) -> (r: String)
    ensures
        r@ == ownership_text(v@),
{
    let mut out = String::new();
    let n = v.len();
    let ghost lines = lines_of(v@);
    let mut i: usize = 0;
    while i < n
        invariant
            n == v@.len(),
            lines == lines_of(v@),
            i <= n,
            out@ == join(lines.subrange(0, i as int), '\n'),
        decreases n - i,
    {
        let line = line_text(&v[i]);
        if i > 0 {
            push_char(&mut out, '\n');
        }
        push_str(&mut out, line.as_str());
        proof {
            let t1 = lines.subrange(0, i + 1);
            if i == 0 {
                assert(out@ =~= join(t1, '\n'));
            } else {
                assert(t1.drop_last() =~= lines.subrange(0, i as int));
                assert(out@ =~= join(t1, '\n'));
            }
        }
        i += 1;
    }
    assert(lines.subrange(0, n as int) =~= lines);
    out
}

/// Reads one hunk written as `start-end`.
pub fn parse_hunk(t: &str) -> (r: Option<Hunk>)
    ensures
        r == parse_hunk_spec(t@),
{
    let parts = split_on(t, '-');
    if parts.len() != 2 {
        return None;
    }
    assert(parts[0]@ == split(t@, '-')[0] && parts[1]@ == split(t@, '-')[1]);
    let a = parse_u128(parts[0].as_str());
    let b = parse_u128(parts[1].as_str());
    match (a, b) {
        (Some(s), Some(e)) => {
            if s <= usize::MAX as u128 && e <= usize::MAX as u128 {
                Some(Hunk { start: s as usize, end: e as usize })
            } else {
                None
            }
        },
        _ => None,
    }
}

/// Reads one line: an escaped path, `:` and hunks.
pub fn parse_line(s: &str) -> (r: Option<Ownership>)
    ensures
        match parse_line_spec(s@) {
            Some(x) => r is Some && r->0.file_path@ == x.0 && r->0.hunks@ == x.1,
            None => r is None,
        },
{
    let k = match find_last(s, ':') {
        Some(k) => k,
        None => {
            return None;
        },
    };
    proof {
        lemma_last_index_bounds(s@, ':');
    }
    let n = s.unicode_len();
    let head = s.substring_char(0, k);
    let tail = s.substring_char(k + 1, n);
    let path = match unescape_text(head) {
        Some(p) => p,
        None => {
            return None;
        },
    };
    if tail.unicode_len() == 0 {
        return Some(Ownership { file_path: path, hunks: Vec::new() });
    }
    let pieces = split_on(tail, ',');
    let ghost ps = views(pieces@);
    let mut hunks: Vec<Hunk> = Vec::new();
    let mut i: usize = 0;
    while i < pieces.len()
        invariant
            ps == views(pieces@),
            ps == split(tail@, ','),
            tail@ == s@.subrange(k + 1, s@.len() as int),
            head@ == s@.subrange(0, k as int),
            k as int == last_index(s@, ':'),
            unescape(head@) is Some,
            tail@.len() > 0,
            i <= pieces@.len(),
            hunks@.len() == i,
            forall|k: int| 0 <= k < i ==> (#[trigger] parse_hunk_spec(ps[k])) is Some,
            forall|k: int| 0 <= k < i ==> hunks@[k] == parse_hunk_spec(ps[k])->0,
        decreases pieces@.len() - i,
    {
        match parse_hunk(pieces[i].as_str()) {
            Some(h) => {
                hunks.push(h);
            },
            None => {
                assert(parse_hunk_spec(ps[i as int]) is None);
                assert(parse_hunks_spec(ps) is None);
                return None;
            },
        }
        i += 1;
    }
    assert(hunks@ =~= parse_hunks_spec(ps)->0);
    if !hunks_normal(&hunks) {
        return None;
    }
    Some(Ownership { file_path: path, hunks })
}

/// Every line reads as an entry.
pub open spec fn lines_parse(lines: Seq<Seq<char>>) -> bool {
    forall|i: int| 0 <= i < lines.len() ==> (#[trigger] parse_line_spec(lines[i])) is Some
}

/// Reads a stored ownership list, line by line; on failure, hands back the
/// first line that does not read as an entry.
pub fn parse_ownership(s: &str) -> (r: Result<Vec<Ownership>, String>)
    ensures
        r is Ok <==> lines_parse(text_lines(s@)),
        match r {
            Ok(v) => {
                &&& v@.len() == text_lines(s@).len()
                &&& forall|i: int| 0 <= i < v@.len() ==> (#[trigger] v@[i]).file_path@ == (parse_line_spec(
                    text_lines(s@)[i])->0).0 && v@[i].hunks@ == (parse_line_spec(text_lines(s@)[i])->0).1
            },
            Err(line) => exists|k: int|
                0 <= k < text_lines(s@).len() && line@ == text_lines(s@)[k] && (#[trigger] parse_line_spec(
                    text_lines(s@)[k])) is None && forall|j: int| 0 <= j < k ==> (#[trigger] parse_line_spec(
                    text_lines(s@)[j])) is Some,
        },
{
    let mut out: Vec<Ownership> = Vec::new();
    let lines = split_lines(s);
    let ghost ls = views(lines@);
    let mut i: usize = 0;
    while i < lines.len()
        invariant
            ls == views(lines@),
            ls == text_lines(s@),
            i <= lines@.len(),
            out@.len() == i,
            forall|k: int| 0 <= k < i ==> (#[trigger] parse_line_spec(ls[k])) is Some,
            forall|k: int| 0 <= k < i ==> (#[trigger] out@[k]).file_path@ == (parse_line_spec(ls[k])->0).0
                && out@[k].hunks@ == (parse_line_spec(ls[k])->0).1,
        decreases lines@.len() - i,
    {
        match parse_line(lines[i].as_str()) {
            Some(o) => {
                out.push(o);
            },
            None => {
                assert(parse_line_spec(ls[i as int]) is None);
                return Err(lines[i].clone());
            },
        }
        i += 1;
    }
    Ok(out)
}

proof fn lemma_join_free(parts: Seq<Seq<char>>, c: char, d: char)
    requires
        c != d,
        forall|i: int| 0 <= i < parts.len() ==> free_of(#[trigger] parts[i], d),
    ensures
        free_of(join(parts, c), d),
    decreases parts.len(),
{
    if parts.len() > 1 {
        let init = parts.drop_last();
        assert forall|i: int| 0 <= i < init.len() implies free_of(#[trigger] init[i], d) by {
            assert(init[i] == parts[i]);
        }
        lemma_join_free(init, c, d);
        let j = join(init, c).push(c);
        let l = parts.last();
        assert(free_of(l, d));
        assert forall|i: int| 0 <= i < (j + l).len() implies (j + l)[i] != d by {
            if i >= j.len() {
                assert((j + l)[i] == l[i - j.len()]);
            }
        }
    }
}

proof fn lemma_decimal_free(n: nat, d: char)
    requires
        !crate::text::is_digit(d),
    ensures
        free_of(decimal(n), d),
{
    lemma_decimal_round_trip(n);
    assert forall|i: int| 0 <= i < decimal(n).len() implies decimal(n)[i] != d by {
        assert(crate::text::is_digit(decimal(n)[i]));
    }
}

proof fn lemma_hunk_text_free(h: Hunk, d: char)
    requires
        !crate::text::is_digit(d),
        d != '-',
    ensures
        free_of(hunk_text(h), d),
{
    lemma_decimal_free(h.start as nat, d);
    lemma_decimal_free(h.end as nat, d);
    let a = decimal(h.start as nat);
    let b = decimal(h.end as nat);
    assert forall|i: int| 0 <= i < hunk_text(h).len() implies hunk_text(h)[i] != d by {
        if i < a.len() {
            assert(hunk_text(h)[i] == a[i]);
        } else if i > a.len() {
            assert(hunk_text(h)[i] == b[i - a.len() - 1]);
        }
    }
}

/// A hunk's text reads back as that hunk.
pub proof fn lemma_hunk_round_trip(h: Hunk)
    ensures
        parse_hunk_spec(hunk_text(h)) == Some(h),
{
    let a = decimal(h.start as nat);
    let b = decimal(h.end as nat);
    lemma_decimal_free(h.start as nat, '-');
    lemma_decimal_free(h.end as nat, '-');
    lemma_decimal_round_trip(h.start as nat);
    lemma_decimal_round_trip(h.end as nat);
    let parts = seq![a, b];
    assert(parts.drop_last() =~= seq![a]);
    assert(join(seq![a], '-') == a);
    assert(join(parts, '-') == join(seq![a], '-').push('-') + b);
    assert(a.push('-') + b =~= hunk_text(h));
    lemma_split_join(parts, '-');
}

/// The texts of a normal sequence of hunks read back as those hunks.
proof fn lemma_hunks_round_trip(hs: Seq<Hunk>)
    requires
        hs.len() > 0,
    ensures
        free_of(join(hunk_texts(hs), ','), ':'),
        free_of(join(hunk_texts(hs), ','), '\n'),
        free_of(join(hunk_texts(hs), ','), '\r'),
        parse_hunks_spec(split(join(hunk_texts(hs), ','), ',')) == Some(hs),
{
    let texts = hunk_texts(hs);
    assert forall|i: int| 0 <= i < texts.len() implies free_of(#[trigger] texts[i], ',') by {
        lemma_hunk_text_free(hs[i], ',');
    }
    assert forall|i: int| 0 <= i < texts.len() implies free_of(#[trigger] texts[i], ':') by {
        lemma_hunk_text_free(hs[i], ':');
    }
    assert forall|i: int| 0 <= i < texts.len() implies free_of(#[trigger] texts[i], '\n') by {
        lemma_hunk_text_free(hs[i], '\n');
    }
    lemma_join_free(texts, ',', ':');
    lemma_join_free(texts, ',', '\n');
    assert forall|i: int| 0 <= i < texts.len() implies free_of(#[trigger] texts[i], '\r') by {
        lemma_hunk_text_free(hs[i], '\r');
    }
    lemma_join_free(texts, ',', '\r');
    lemma_split_join(texts, ',');
    assert forall|i: int| 0 <= i < texts.len() implies (#[trigger] parse_hunk_spec(texts[i])) == Some(hs[i]) by {
        lemma_hunk_round_trip(hs[i]);
    }
    assert(Seq::new(texts.len(), |i: int| parse_hunk_spec(texts[i])->0) =~= hs);
}

/// An entry's line reads back as its path and hunks, and holds no line
/// break.
pub proof fn lemma_line_round_trip(path: Seq<char>, hs: Seq<Hunk>)
    requires
        hunks_wf(hs),
    ensures
        parse_line_spec(line_of(path, hs)) == Some((path, hs)),
        free_of(line_of(path, hs), '\n'),
        free_of(line_of(path, hs), '\r'),
        line_of(path, hs).len() > 0,
{
    let e = escape(path);
    let j = join(hunk_texts(hs), ',');
    let l = line_of(path, hs);
    lemma_escape_round_trip(path);
    if hs.len() > 0 {
        lemma_hunks_round_trip(hs);
    }
    assert(free_of(j, ':') && free_of(j, '\n') && free_of(j, '\r')) by {
        if hs.len() == 0 {
            assert(j.len() == 0);
        }
    }
    lemma_last_index_of(e, ':', j);
    assert(l.subrange(0, e.len() as int) =~= e);
    assert(l.subrange(e.len() as int + 1, l.len() as int) =~= j);
    assert forall|i: int| 0 <= i < l.len() implies l[i] != '\n' && l[i] != '\r' by {
        if i < e.len() {
            assert(l[i] == e[i]);
        } else if i > e.len() {
            assert(l[i] == j[i - e.len() - 1]);
        }
    }
}

/// The stored text of an ownership list with hunks in normal form reads back
/// as that list.
pub proof fn lemma_ownership_round_trip(v: Seq<Ownership>)
    requires
        forall|i: int| 0 <= i < v.len() ==> (#[trigger] v[i]).wf(),
    ensures
        text_lines(ownership_text(v)) == lines_of(v),
        lines_parse(lines_of(v)),
        forall|i: int| 0 <= i < v.len() ==> (#[trigger] parse_line_spec(lines_of(v)[i])) == Some(
            (v[i].file_path@, v[i].hunks@)),
{
    let lines = lines_of(v);
    let t = ownership_text(v);
    assert forall|i: int| 0 <= i < v.len() implies (#[trigger] parse_line_spec(lines[i])) == Some(
        (v[i].file_path@, v[i].hunks@)) && free_of(lines[i], '\n') && free_of(lines[i], '\r') && lines[i].len() > 0 by {
        lemma_line_round_trip(v[i].file_path@, v[i].hunks@);
    }
    if v.len() == 0 {
        assert(t.len() == 0);
        assert(split(t, '\n') =~= seq![Seq::<char>::empty()]);
        assert(text_lines(t) =~= lines);
    } else {
        assert forall|i: int| 0 <= i < lines.len() implies free_of(#[trigger] lines[i], '\n') by {
            lemma_line_round_trip(v[i].file_path@, v[i].hunks@);
        }
        lemma_split_join(lines, '\n');
        assert forall|i: int| 0 <= i < lines.len() implies strip_cr(#[trigger] lines[i]) == lines[i] by {
            lemma_line_round_trip(v[i].file_path@, v[i].hunks@);
            assert(lines[i][lines[i].len() - 1] != '\r');
        }
        assert(lines[lines.len() - 1].len() > 0) by {
            lemma_line_round_trip(v[v.len() - 1].file_path@, v[v.len() - 1].hunks@);
        }
        assert(text_lines(t) =~= lines);
    }
}

} // verus!
