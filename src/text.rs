//! Decimal numbers and separated lists in stored text.
use vstd::prelude::*;

verus! {

/// Relies on `String::push`: appends one character.
#[verifier::external_body]
pub(crate) fn push_char(s: &mut String, c: char)
    ensures
        final(s)@ == old(s)@.push(c),
{
    s.push(c);
}

/// Appends `t` to `s`.
pub(crate) fn push_str(s: &mut String, t: &str)
    ensures
        final(s)@ == old(s)@ + t@,
{
    s.append(t);
}

pub open spec fn digit_char(d: int) -> char {
    if d == 0 { '0' } else if d == 1 { '1' } else if d == 2 { '2' } else if d == 3 { '3' }
    else if d == 4 { '4' } else if d == 5 { '5' } else if d == 6 { '6' } else if d == 7 { '7' }
    else if d == 8 { '8' } else { '9' }
}

pub open spec fn is_digit(c: char) -> bool {
    48 <= (c as u32) && (c as u32) <= 57
}

pub open spec fn digit_value(c: char) -> int {
    (c as u32) - 48
}

/// The decimal form of `n`, without leading zeros.
pub open spec fn decimal(n: nat) -> Seq<char>
    decreases n,
{
    if n < 10 {
        seq![digit_char(n as int)]
    } else {
        decimal(n / 10).push(digit_char((n % 10) as int))
    }
}

/// Every character is a decimal digit.
pub open spec fn all_digits(s: Seq<char>) -> bool {
    forall|i: int| 0 <= i < s.len() ==> is_digit(#[trigger] s[i])
}

/// The number that a string of decimal digits spells.
pub open spec fn digits_value(s: Seq<char>) -> nat
    decreases s.len(),
{
    if s.len() == 0 {
        0
    } else {
        (digits_value(s.drop_last()) * 10 + digit_value(s.last())) as nat
    }
}

/// What `parse_u128` accepts: one or more digits whose value fits.
pub open spec fn decimal_u128(s: Seq<char>) -> Option<u128> {
    if s.len() > 0 && all_digits(s) && digits_value(s) <= u128::MAX {
        Some(digits_value(s) as u128)
    } else {
        None
    }
}

fn digit_to_char(d: u128) -> (c: char)
    requires
        d < 10,
    ensures
        c == digit_char(d as int),
{
    match d {
        0 => '0',
        1 => '1',
        2 => '2',
        3 => '3',
        4 => '4',
        5 => '5',
        6 => '6',
        7 => '7',
        8 => '8',
        _ => '9',
    }
}

/// Appends the decimal form of `n` to `out`.
pub fn write_decimal(n: u128, out: &mut String)
    ensures
        final(out)@ == old(out)@ + decimal(n as nat),
    decreases n,
{
    if n < 10 {
        push_char(out, digit_to_char(n));
        assert(old(out)@.push(digit_char(n as int)) =~= old(out)@ + seq![digit_char(n as int)]);
    } else {
        write_decimal(n / 10, out);
        push_char(out, digit_to_char(n % 10));
        assert(old(out)@ + decimal((n / 10) as nat) + seq![digit_char((n % 10) as int)]
            =~= old(out)@ + decimal((n / 10) as nat).push(digit_char((n % 10) as int)));
    }
}

/// The decimal form of `n`.
pub fn decimal_string(n: u128) -> (r: String)
    ensures
        r@ == decimal(n as nat),
{
    let mut s = String::new();
    write_decimal(n, &mut s);
    assert(Seq::<char>::empty() + decimal(n as nat) =~= decimal(n as nat));
    s
}

pub proof fn lemma_digit_char(d: int)
    requires
        0 <= d < 10,
    ensures
        is_digit(digit_char(d)),
        digit_value(digit_char(d)) == d,
{
}

/// Decimal forms read back as the number they were written from.
pub proof fn lemma_decimal_round_trip(n: nat)
    ensures
        decimal(n).len() > 0,
        all_digits(decimal(n)),
        digits_value(decimal(n)) == n,
    decreases n,
{
    if n < 10 {
        lemma_digit_char(n as int);
        assert(decimal(n).drop_last() =~= Seq::<char>::empty());
        assert(digits_value(Seq::<char>::empty()) == 0);
        assert(decimal(n).last() == digit_char(n as int));
        assert(digits_value(decimal(n)) == digits_value(decimal(n).drop_last()) * 10 + digit_value(decimal(n).last()));
    } else {
        lemma_decimal_round_trip(n / 10);
        lemma_digit_char((n % 10) as int);
        assert(decimal(n).drop_last() =~= decimal(n / 10));
        assert(decimal(n).last() == digit_char((n % 10) as int));
        assert(digits_value(decimal(n)) == digits_value(decimal(n / 10)) * 10 + digit_value(
            digit_char((n % 10) as int)));
        assert((n / 10) * 10 + n % 10 == n);
        assert forall|i: int| 0 <= i < decimal(n).len() implies is_digit(#[trigger] decimal(n)[i]) by {
            if i < decimal(n).len() - 1 {
                assert(decimal(n)[i] == decimal(n / 10)[i]);
            }
        }
    }
}

/// The value of a prefix never exceeds the value of a longer prefix.
proof fn lemma_value_grows(s: Seq<char>, i: int, j: int)
    requires
        0 <= i <= j <= s.len(),
        all_digits(s),
    ensures
        digits_value(s.subrange(0, i)) <= digits_value(s.subrange(0, j)),
    decreases j - i,
{
    if i < j {
        lemma_value_grows(s, i, j - 1);
        assert(s.subrange(0, j).drop_last() =~= s.subrange(0, j - 1));
    }
}

/// Reads a decimal `u128`.
pub fn parse_u128(s: &str) -> (r: Option<u128>)
    ensures
        r == decimal_u128(s@),
{
    let n = s.unicode_len();
    if n == 0 {
        return None;
    }
    let mut acc: u128 = 0;
    let mut i: usize = 0;
    while i < n
        invariant
            n == s@.len(),
            i <= n,
            forall|k: int| 0 <= k < i ==> is_digit(#[trigger] s@[k]),
            acc == digits_value(s@.subrange(0, i as int)),
        decreases n - i,
    {
        let c = s.get_char(i);
        let code = c as u32;
        if code < 48 || code > 57 {
            assert(!is_digit(s@[i as int]));
            return None;
        }
        let d = (code - 48) as u128;
        assert(s@.subrange(0, i + 1).drop_last() =~= s@.subrange(0, i as int));
        match acc.checked_mul(10) {
            Some(m) => match m.checked_add(d) {
                Some(v) => {
                    acc = v;
                },
                None => {
                    proof { lemma_overflow_stays(s@, i as int); }
                    return None;
                },
            },
            None => {
                proof { lemma_overflow_stays(s@, i as int); }
                return None;
            },
        }
        i += 1;
    }
    assert(s@.subrange(0, n as int) =~= s@);
    Some(acc)
}

/// Once a prefix of digits is too large, so is the whole string, unless a
/// later character is not a digit.
proof fn lemma_overflow_stays(s: Seq<char>, i: int)
    requires
        0 <= i < s.len(),
        forall|k: int| 0 <= k <= i ==> is_digit(#[trigger] s[k]),
        digits_value(s.subrange(0, i)) * 10 + digit_value(s[i]) > u128::MAX,
    ensures
        decimal_u128(s) is None,
{
    assert(s.subrange(0, i + 1).drop_last() =~= s.subrange(0, i));
    if all_digits(s) {
        lemma_value_grows(s, i + 1, s.len() as int);
        assert(s.subrange(0, s.len() as int) =~= s);
    }
}

/// The pieces of `s` between the occurrences of `c`; at least one piece.
pub open spec fn split(s: Seq<char>, c: char) -> Seq<Seq<char>>
    decreases s.len(),
{
    if s.len() == 0 {
        seq![Seq::<char>::empty()]
    } else {
        let init = split(s.drop_last(), c);
        if s.last() == c {
            init.push(Seq::<char>::empty())
        } else {
            init.update(init.len() - 1, init.last().push(s.last()))
        }
    }
}

/// The pieces of `parts` with `c` between each two of them.
pub open spec fn join(parts: Seq<Seq<char>>, c: char) -> Seq<char>
    decreases parts.len(),
{
    if parts.len() == 0 {
        Seq::<char>::empty()
    } else if parts.len() == 1 {
        parts[0]
    } else {
        join(parts.drop_last(), c).push(c) + parts.last()
    }
}

/// `s` holds no `c`.
pub open spec fn free_of(s: Seq<char>, c: char) -> bool {
    forall|i: int| 0 <= i < s.len() ==> s[i] != c
}

/// The views of a sequence of strings.
pub open spec fn views(v: Seq<String>) -> Seq<Seq<char>> {
    v.map_values(|x: String| x@)
}

pub proof fn lemma_split_nonempty(s: Seq<char>, c: char)
    ensures
        split(s, c).len() >= 1,
    decreases s.len(),
{
    if s.len() > 0 {
        lemma_split_nonempty(s.drop_last(), c);
    }
}

proof fn lemma_split_extend(x: Seq<char>, p: Seq<char>, c: char)
    requires
        free_of(p, c),
    ensures
        split(x + p, c) == split(x, c).update(split(x, c).len() - 1, split(x, c).last() + p),
    decreases p.len(),
{
    lemma_split_nonempty(x, c);
    let sx = split(x, c);
    if p.len() == 0 {
        assert(x + p =~= x);
        assert(sx.last() + p =~= sx.last());
        assert(sx.update(sx.len() - 1, sx.last()) =~= sx);
    } else {
        let q = p.drop_last();
        lemma_split_extend(x, q, c);
        assert((x + p).drop_last() =~= x + q);
        assert((x + p).last() == p.last());
        assert((sx.last() + q).push(p.last()) =~= sx.last() + p);
        assert(split(x + p, c) =~= sx.update(sx.len() - 1, sx.last() + p));
    }
}

/// Splitting a joined list gives the list back, when no piece holds the
/// separator.
pub proof fn lemma_split_join(parts: Seq<Seq<char>>, c: char)
    requires
        parts.len() >= 1,
        forall|i: int| 0 <= i < parts.len() ==> free_of(#[trigger] parts[i], c),
    ensures
        split(join(parts, c), c) == parts,
    decreases parts.len(),
{
    let e = Seq::<char>::empty();
    if parts.len() == 1 {
        lemma_split_extend(e, parts[0], c);
        assert(e + parts[0] =~= parts[0]);
        assert(split(e, c).update(0, e + parts[0]) =~= parts);
    } else {
        let init = parts.drop_last();
        assert forall|i: int| 0 <= i < init.len() implies free_of(#[trigger] init[i], c) by {
            assert(init[i] == parts[i]);
        }
        lemma_split_join(init, c);
        let j = join(init, c).push(c);
        assert(j.drop_last() =~= join(init, c));
        assert(split(j, c) == init.push(e));
        lemma_split_extend(j, parts.last(), c);
        assert(e + parts.last() =~= parts.last());
        assert(init.push(e).update(init.len() as int, e + parts.last()) =~= parts);
    }
}

/// Splits `s` at every `c`.
pub fn split_on(s: &str, c: char) -> (r: Vec<String>)
    ensures
        views(r@) == split(s@, c),
{
    let n = s.unicode_len();
    let mut pieces: Vec<String> = Vec::new();
    let mut cur = String::new();
    let mut i: usize = 0;
    while i < n
        invariant
            n == s@.len(),
            i <= n,
            views(pieces@).push(cur@) == split(s@.subrange(0, i as int), c),
        decreases n - i,
    {
        let ch = s.get_char(i);
        let ghost before = views(pieces@);
        let ghost cur0 = cur@;
        assert(s@.subrange(0, i + 1).drop_last() =~= s@.subrange(0, i as int));
        if ch == c {
            pieces.push(cur);
            cur = String::new();
            assert(views(pieces@) =~= before.push(cur0));
        } else {
            push_char(&mut cur, ch);
            assert(views(pieces@).push(cur@) =~= before.push(cur0).update(before.len() as int, cur0.push(ch)));
        }
        i += 1;
    }
    pieces.push(cur);
    assert(s@.subrange(0, n as int) =~= s@);
    assert(views(pieces@) =~= split(s@, c));
    pieces
}

/// How one character of a path is written: `\`, line feed and carriage
/// return as `\\`, `\n` and `\r`, any other character as itself.
pub open spec fn escape_char(c: char) -> Seq<char> {
    if c == '\\' {
        seq!['\\', '\\']
    } else if c == '\n' {
        seq!['\\', 'n']
    } else if c == '\r' {
        seq!['\\', 'r']
    } else {
        seq![c]
    }
}

/// The escaped form of `p`.
pub open spec fn escape(p: Seq<char>) -> Seq<char>
    decreases p.len(),
{
    if p.len() == 0 {
        Seq::<char>::empty()
    } else {
        escape_char(p[0]) + escape(p.subrange(1, p.len() as int))
    }
}

/// The character that `\` followed by `d` stands for.
pub open spec fn unescape_char(d: char) -> char {
    if d == 'n' { '\n' } else if d == 'r' { '\r' } else { '\\' }
}

/// `a` in front of the text in `o`, if there is one.
pub open spec fn prepend(a: Seq<char>, o: Option<Seq<char>>) -> Option<Seq<char>> {
    match o {
        Some(r) => Some(a + r),
        None => None,
    }
}

/// The text that an escaped form stands for; `None` when a `\` is not
/// followed by `\`, `n` or `r`.
pub open spec fn unescape(s: Seq<char>) -> Option<Seq<char>>
    decreases s.len(),
{
    if s.len() == 0 {
        Some(Seq::<char>::empty())
    } else if s[0] == '\\' {
        if s.len() >= 2 && (s[1] == '\\' || s[1] == 'n' || s[1] == 'r') {
            prepend(seq![unescape_char(s[1])], unescape(s.subrange(2, s.len() as int)))
        } else {
            None
        }
    } else {
        prepend(seq![s[0]], unescape(s.subrange(1, s.len() as int)))
    }
}

proof fn lemma_escape_push(p: Seq<char>, c: char)
    ensures
        escape(p.push(c)) == escape(p) + escape_char(c),
    decreases p.len(),
{
    if p.len() == 0 {
        assert(p.push(c).subrange(1, 1) =~= Seq::<char>::empty());
        assert(escape(Seq::<char>::empty()) == Seq::<char>::empty());
        assert(escape(p) == Seq::<char>::empty());
        assert(p.push(c)[0] == c);
        assert(escape(p.push(c)) == escape_char(c) + escape(p.push(c).subrange(1, 1)));
        assert(escape_char(c) + Seq::<char>::empty() =~= escape_char(c));
        assert(Seq::<char>::empty() + escape_char(c) =~= escape_char(c));
    } else {
        let rest = p.subrange(1, p.len() as int);
        lemma_escape_push(rest, c);
        assert(p.push(c).subrange(1, p.len() as int + 1) =~= rest.push(c));
        assert(p.push(c)[0] == p[0]);
        assert(escape(p.push(c)) == escape_char(p[0]) + escape(p.push(c).subrange(1, p.len() as int + 1)));
        assert(escape_char(p[0]) + (escape(rest) + escape_char(c)) =~= (escape_char(p[0]) + escape(rest))
            + escape_char(c));
    }
}

/// An escaped text reads back as itself, and holds no line break.
pub proof fn lemma_escape_round_trip(p: Seq<char>)
    ensures
        unescape(escape(p)) == Some(p),
        free_of(escape(p), '\n'),
        free_of(escape(p), '\r'),
    decreases p.len(),
{
    if p.len() > 0 {
        let rest = p.subrange(1, p.len() as int);
        lemma_escape_round_trip(rest);
        let c = p[0];
        let ec = escape_char(c);
        let e = escape(p);
        assert(e == ec + escape(rest));
        assert(e.subrange(ec.len() as int, e.len() as int) =~= escape(rest));
        assert(seq![c] + rest =~= p);
        assert forall|i: int| 0 <= i < e.len() implies e[i] != '\n' && e[i] != '\r' by {
            if i >= ec.len() {
                assert(e[i] == escape(rest)[i - ec.len()]);
            }
        }
    }
}

/// Appends the escaped form of `p` to `out`.
pub fn write_escaped(p: &str, out: &mut String)
    ensures
        final(out)@ == old(out)@ + escape(p@),
{
    let n = p.unicode_len();
    let mut i: usize = 0;
    assert(p@.subrange(0, 0) =~= Seq::<char>::empty());
    assert(old(out)@ + escape(Seq::<char>::empty()) =~= old(out)@);
    while i < n
        invariant
            n == p@.len(),
            i <= n,
            out@ == old(out)@ + escape(p@.subrange(0, i as int)),
        decreases n - i,
    {
        let c = p.get_char(i);
        let ghost before = out@;
        if c == '\\' {
            push_char(out, '\\');
            push_char(out, '\\');
        } else if c == '\n' {
            push_char(out, '\\');
            push_char(out, 'n');
        } else if c == '\r' {
            push_char(out, '\\');
            push_char(out, 'r');
        } else {
            push_char(out, c);
        }
        proof {
            lemma_escape_push(p@.subrange(0, i as int), c);
            assert(p@.subrange(0, i + 1) =~= p@.subrange(0, i as int).push(c));
            assert(out@ =~= before + escape_char(c));
        }
        i += 1;
    }
    assert(p@.subrange(0, n as int) =~= p@);
}

/// The text that the escaped form `s` stands for.
pub fn unescape_text(s: &str) -> (r: Option<String>)
    ensures
        match unescape(s@) {
            Some(x) => r is Some && r->0@ == x,
            None => r is None,
        },
{
    let n = s.unicode_len();
    let mut out = String::new();
    let mut i: usize = 0;
    assert(s@.subrange(0, n as int) =~= s@);
    assert(Seq::<char>::empty() + s@ =~= s@);
    while i < n
        invariant
            n == s@.len(),
            i <= n,
            unescape(s@) == prepend(out@, unescape(s@.subrange(i as int, n as int))),
        decreases n - i,
    {
        let c = s.get_char(i);
        let ghost sub = s@.subrange(i as int, n as int);
        let ghost before = out@;
        assert(sub[0] == c);
        if c == '\\' {
            if i + 1 >= n {
                return None;
            }
            let d = s.get_char(i + 1);
            assert(sub[1] == d);
            let e = if d == '\\' {
                '\\'
            } else if d == 'n' {
                '\n'
            } else if d == 'r' {
                '\r'
            } else {
                return None;
            };
            push_char(&mut out, e);
            assert(sub.subrange(2, sub.len() as int) =~= s@.subrange(i + 2, n as int));
            assert(forall|r: Seq<char>| before + (seq![e] + r) =~= #[trigger] (out@ + r));
            i += 2;
        } else {
            push_char(&mut out, c);
            assert(sub.subrange(1, sub.len() as int) =~= s@.subrange(i + 1, n as int));
            assert(forall|r: Seq<char>| before + (seq![c] + r) =~= #[trigger] (out@ + r));
            i += 1;
        }
    }
    assert(s@.subrange(n as int, n as int) =~= Seq::<char>::empty());
    assert(out@ + Seq::<char>::empty() =~= out@);
    Some(out)
}

/// The index of the last `c` in `s`, or -1.
pub open spec fn last_index(s: Seq<char>, c: char) -> int
    decreases s.len(),
{
    if s.len() == 0 {
        -1
    } else if s.last() == c {
        s.len() - 1
    } else {
        last_index(s.drop_last(), c)
    }
}

pub proof fn lemma_last_index_bounds(s: Seq<char>, c: char)
    ensures
        -1 <= last_index(s, c) < s.len(),
        last_index(s, c) >= 0 ==> s[last_index(s, c)] == c,
    decreases s.len(),
{
    if s.len() > 0 && s.last() != c {
        lemma_last_index_bounds(s.drop_last(), c);
    }
}

/// In `x`, `c`, `h` with no `c` in `h`, the last `c` is the one after `x`.
pub proof fn lemma_last_index_of(x: Seq<char>, c: char, h: Seq<char>)
    requires
        free_of(h, c),
    ensures
        last_index(x + seq![c] + h, c) == x.len(),
    decreases h.len(),
{
    let s = x + seq![c] + h;
    if h.len() > 0 {
        lemma_last_index_of(x, c, h.drop_last());
        assert(s.drop_last() =~= x + seq![c] + h.drop_last());
        assert(s.last() == h.last());
    }
}

/// Where the last `c` of `s` stands.
pub fn find_last(s: &str, c: char) -> (r: Option<usize>)
    ensures
        match r {
            Some(k) => k as int == last_index(s@, c),
            None => last_index(s@, c) < 0,
        },
{
    let n = s.unicode_len();
    let mut i = n;
    assert(s@.subrange(0, n as int) =~= s@);
    while i > 0
        invariant
            n == s@.len(),
            i <= n,
            last_index(s@, c) == last_index(s@.subrange(0, i as int), c),
        decreases i,
    {
        let ghost pre = s@.subrange(0, i as int);
        assert(pre.drop_last() =~= s@.subrange(0, i - 1));
        if s.get_char(i - 1) == c {
            return Some(i - 1);
        }
        i -= 1;
    }
    None
}

/// `x` without one final carriage return.
pub open spec fn strip_cr(x: Seq<char>) -> Seq<char> {
    if x.len() > 0 && x.last() == '\r' { x.drop_last() } else { x }
}

/// The lines of `s`, ended by a line feed or by a carriage return and a line
/// feed; a final line ending is optional, so an empty text has no line.
pub open spec fn text_lines(s: Seq<char>) -> Seq<Seq<char>> {
    let p = split(s, '\n');
    let keep = if p[p.len() - 1].len() == 0 { p.len() - 1 } else { p.len() as int };
    Seq::new(keep as nat, |i: int| if i < p.len() - 1 { strip_cr(p[i]) } else { p[i] })
}

/// Splits `s` into its lines.
pub fn split_lines(s: &str) -> (r: Vec<String>)
    ensures
        views(r@) == text_lines(s@),
{
    let pieces = split_on(s, '\n');
    proof {
        lemma_split_nonempty(s@, '\n');
    }
    let ghost p = split(s@, '\n');
    let n = pieces.len();
    assert(views(pieces@).len() == n);
    let keep = if pieces[n - 1].as_str().unicode_len() == 0 { n - 1 } else { n };
    assert(pieces[n - 1]@ == p[n - 1]);
    let mut out: Vec<String> = Vec::new();
    let mut i: usize = 0;
    while i < keep
        invariant
            p == split(s@, '\n'),
            p == views(pieces@),
            n == pieces@.len(),
            keep <= n,
            keep == (if p[p.len() - 1].len() == 0 { p.len() - 1 } else { p.len() as int }),
            i <= keep,
            views(out@) == text_lines(s@).subrange(0, i as int),
        decreases keep - i,
    {
        let piece = pieces[i].as_str();
        assert(piece@ == p[i as int]);
        let m = piece.unicode_len();
        let line = if i + 1 < n && m > 0 && piece.get_char(m - 1) == '\r' {
            String::from_str(piece.substring_char(0, m - 1))
        } else {
            String::from_str(piece)
        };
        let ghost before = views(out@);
        out.push(line);
        assert(views(out@) =~= text_lines(s@).subrange(0, i + 1)) by {
            assert(views(out@) =~= before.push(line@));
            assert(p[i as int].drop_last() =~= p[i as int].subrange(0, m - 1));
        }
        i += 1;
    }
    assert(text_lines(s@).subrange(0, keep as int) =~= text_lines(s@));
    out
}

} // verus!
