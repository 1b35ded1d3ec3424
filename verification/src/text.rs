//! Character-level text primitives shared by the parsers and engines:
//! Unicode whitespace, trimming, splitting, line breaking and decimal numbers.
use vstd::prelude::*;

verus! {

broadcast use vstd::string::group_string_axioms;

// ---------------------------------------------------------------------------
// Specifications
// ---------------------------------------------------------------------------

/// The Unicode `White_Space` property, the set that `char::is_whitespace`,
/// `str::trim` and `str::split_whitespace` use.
pub open spec fn is_white_space(c: char) -> bool {
    let u = c as u32;
    ||| 0x09 <= u <= 0x0D
    ||| u == 0x20
    ||| u == 0x85
    ||| u == 0xA0
    ||| u == 0x1680
    ||| 0x2000 <= u <= 0x200A
    ||| u == 0x2028
    ||| u == 0x2029
    ||| u == 0x202F
    ||| u == 0x205F
    ||| u == 0x3000
}

/// `s` with its leading whitespace removed.
pub open spec fn trim_start(s: Seq<char>) -> Seq<char>
    decreases s.len(),
{
    if s.len() > 0 && is_white_space(s[0]) {
        trim_start(s.drop_first())
    } else {
        s
    }
}

/// `s` with its trailing whitespace removed.
pub open spec fn trim_end(s: Seq<char>) -> Seq<char>
    decreases s.len(),
{
    if s.len() > 0 && is_white_space(s.last()) {
        trim_end(s.drop_last())
    } else {
        s
    }
}

/// `s` with whitespace removed at both ends (`str::trim`).
pub open spec fn trim(s: Seq<char>) -> Seq<char> {
    trim_end(trim_start(s))
}

/// The pieces of `s` between occurrences of `sep` (`str::split` with a char):
/// always one more piece than there are separators.
pub open spec fn split_on(s: Seq<char>, sep: char) -> Seq<Seq<char>>
    decreases s.len(),
{
    if s.len() == 0 {
        seq![Seq::<char>::empty()]
    } else {
        let rest = split_on(s.drop_last(), sep);
        if s.last() == sep {
            rest.push(Seq::<char>::empty())
        } else {
            rest.update(rest.len() - 1, rest.last().push(s.last()))
        }
    }
}

/// The pieces of `s` between whitespace characters (`str::split(char::is_whitespace)`).
pub open spec fn split_on_white_space(s: Seq<char>) -> Seq<Seq<char>>
    decreases s.len(),
{
    if s.len() == 0 {
        seq![Seq::<char>::empty()]
    } else {
        let rest = split_on_white_space(s.drop_last());
        if is_white_space(s.last()) {
            rest.push(Seq::<char>::empty())
        } else {
            rest.update(rest.len() - 1, rest.last().push(s.last()))
        }
    }
}

/// The non-empty pieces of `p`, in order.
pub open spec fn non_empty(p: Seq<Seq<char>>) -> Seq<Seq<char>>
    decreases p.len(),
{
    if p.len() == 0 {
        p
    } else if p.last().len() > 0 {
        non_empty(p.drop_last()).push(p.last())
    } else {
        non_empty(p.drop_last())
    }
}

/// The words of `s` (`str::split_whitespace`): the non-empty pieces between whitespace.
pub open spec fn words(s: Seq<char>) -> Seq<Seq<char>> {
    non_empty(split_on_white_space(s))
}

/// `pieces` joined with `sep` between consecutive pieces.
pub open spec fn join(pieces: Seq<Seq<char>>, sep: Seq<char>) -> Seq<char>
    decreases pieces.len(),
{
    if pieces.len() == 0 {
        Seq::<char>::empty()
    } else if pieces.len() == 1 {
        pieces[0]
    } else {
        join(pieces.drop_last(), sep) + sep + pieces.last()
    }
}

/// `s` without one trailing carriage return, if it has one.
pub open spec fn strip_cr(s: Seq<char>) -> Seq<char> {
    if s.len() > 0 && s.last() == '\r' {
        s.drop_last()
    } else {
        s
    }
}

/// The lines of `s` (`str::lines`): split at `\n`, a `\r` just before a `\n` dropped,
/// and no empty line after a final `\n`.
pub open spec fn lines(s: Seq<char>) -> Seq<Seq<char>> {
    let p = split_on(s, '\n');
    let terminated = Seq::new((p.len() - 1) as nat, |i: int| strip_cr(p[i]));
    if p.last().len() > 0 {
        terminated.push(p.last())
    } else {
        terminated
    }
}

/// Whether `s` begins with the character `c`.
pub open spec fn starts_with(s: Seq<char>, c: char) -> bool {
    s.len() > 0 && s[0] == c
}

/// The ASCII digit for a value below ten.
pub open spec fn digit_char(d: nat) -> char {
    ('0' as u32 + d) as char
}

/// Whether `c` is one of the ASCII digits `0`..`9`.
pub open spec fn is_ascii_digit(c: char) -> bool {
    '0' <= c <= '9'
}

/// The value of an ASCII digit.
pub open spec fn digit_value(c: char) -> nat {
    (c as u32 - '0' as u32) as nat
}

/// The decimal digits of `n`, without leading zeros ("0" for zero).
pub open spec fn nat_digits(n: nat) -> Seq<char>
    decreases n,
{
    if n < 10 {
        seq![digit_char(n)]
    } else {
        nat_digits(n / 10).push(digit_char(n % 10))
    }
}

/// The decimal text of `n` as `Display` prints an integer.
pub open spec fn decimal(n: int) -> Seq<char> {
    if n < 0 {
        seq!['-'] + nat_digits((-n) as nat)
    } else {
        nat_digits(n as nat)
    }
}

/// The value of a run of ASCII digits.
pub open spec fn digits_value(d: Seq<char>) -> nat
    decreases d.len(),
{
    if d.len() == 0 {
        0
    } else {
        digits_value(d.drop_last()) * 10 + digit_value(d.last())
    }
}

/// Whether every character of `d` is an ASCII digit.
pub open spec fn all_ascii_digits(d: Seq<char>) -> bool {
    forall|i: int| 0 <= i < d.len() ==> is_ascii_digit(#[trigger] d[i])
}

/// What `str::parse::<i32>` yields: an optional `+` or `-`, then one or more
/// ASCII digits, whose value must lie in the range of `i32`.
pub open spec fn parse_i32(s: Seq<char>) -> Option<i32> {
    let neg = starts_with(s, '-');
    let body = if starts_with(s, '-') || starts_with(s, '+') { s.drop_first() } else { s };
    let v: int = if neg { -(digits_value(body) as int) } else { digits_value(body) as int };
    if body.len() > 0 && all_ascii_digits(body) && i32::MIN <= v <= i32::MAX {
        Some(v as i32)
    } else {
        None
    }
}

// ---------------------------------------------------------------------------
// Lemmas
// ---------------------------------------------------------------------------

/// Splitting always yields at least one piece.
pub proof fn lemma_split_on_len(s: Seq<char>, sep: char)
    ensures
        split_on(s, sep).len() >= 1,
    decreases s.len(),
{
    if s.len() > 0 {
        lemma_split_on_len(s.drop_last(), sep);
    }
}

/// Splitting `a`, a separator and `b` gives the pieces of `a` followed by those of `b`.
pub proof fn lemma_split_on_concat(a: Seq<char>, b: Seq<char>, sep: char)
    ensures
        split_on(a.push(sep) + b, sep) == split_on(a, sep) + split_on(b, sep),
    decreases b.len(),
{
    let s = a.push(sep) + b;
    if b.len() == 0 {
        assert(s =~= a.push(sep));
        assert(s.drop_last() =~= a);
        assert(split_on(a, sep).push(Seq::<char>::empty()) =~= split_on(a, sep) + split_on(b, sep));
    } else {
        let b0 = b.drop_last();
        assert(s.drop_last() =~= a.push(sep) + b0);
        lemma_split_on_concat(a, b0, sep);
        lemma_split_on_len(b0, sep);
        let ra = split_on(a, sep);
        let rb = split_on(b0, sep);
        assert(s.last() == b.last());
        if b.last() == sep {
            assert((ra + rb).push(Seq::<char>::empty()) =~= ra + rb.push(Seq::<char>::empty()));
        } else {
            let r = ra + rb;
            assert(r.update(r.len() - 1, r.last().push(b.last())) =~= ra + rb.update(
                rb.len() - 1,
                rb.last().push(b.last()),
            ));
        }
    }
}

/// Trimming ignores a whitespace character appended at the end.
pub proof fn lemma_trim_push_white(s: Seq<char>, w: char)
    requires
        is_white_space(w),
    ensures
        trim(s.push(w)) == trim(s),
{
    lemma_trim_start_push_white(s, w);
    let t = trim_start(s);
    if t.len() > 0 {
        assert(t.push(w).drop_last() =~= t);
    }
}

/// Appending whitespace at the end of `s` appends it after the trimmed start, if anything
/// is left of it.
proof fn lemma_trim_start_push_white(s: Seq<char>, w: char)
    requires
        is_white_space(w),
    ensures
        trim_start(s).len() > 0 ==> trim_start(s.push(w)) == trim_start(s).push(w),
        trim_start(s).len() == 0 ==> trim_start(s.push(w)).len() == 0,
    decreases s.len(),
{
    if s.len() == 0 {
        assert(s.push(w).drop_first() =~= Seq::<char>::empty());
        assert(trim_start(s.push(w)) == trim_start(s.push(w).drop_first()));
        assert(trim_start(Seq::<char>::empty()) == Seq::<char>::empty());
    } else {
        assert(s.push(w)[0] == s[0]);
        if is_white_space(s[0]) {
            assert(s.push(w).drop_first() =~= s.drop_first().push(w));
            lemma_trim_start_push_white(s.drop_first(), w);
        }
    }
}

/// Joining pieces whose last piece gained a character at its end gives the joined text
/// with that character at its end.
pub proof fn lemma_join_push_last(p: Seq<Seq<char>>, sep: Seq<char>, c: char)
    requires
        p.len() > 0,
    ensures
        join(p.update(p.len() - 1, p.last().push(c)), sep) == join(p, sep).push(c),
{
    let q = p.update(p.len() - 1, p.last().push(c));
    if p.len() > 1 {
        assert(q.drop_last() =~= p.drop_last());
        assert(join(q, sep) =~= join(p, sep).push(c));
    }
}

/// The lines of `a`, a line feed and `b`: every piece of `a` as a terminated line (its
/// carriage return dropped), then the lines of `b`.
pub proof fn lemma_lines_concat(a: Seq<char>, b: Seq<char>)
    ensures
        lines(a.push('\n') + b) == Seq::new(
            split_on(a, '\n').len(),
            |i: int| strip_cr(split_on(a, '\n')[i]),
        ) + lines(b),
{
    lemma_split_on_concat(a, b, '\n');
    lemma_split_on_len(a, '\n');
    lemma_split_on_len(b, '\n');
    let pa = split_on(a, '\n');
    let pb = split_on(b, '\n');
    let p = pa + pb;
    assert(p.last() == pb.last());
    let ta = Seq::new(pa.len(), |i: int| strip_cr(pa[i]));
    let tb = Seq::new((pb.len() - 1) as nat, |i: int| strip_cr(pb[i]));
    let t = Seq::new((p.len() - 1) as nat, |i: int| strip_cr(p[i]));
    assert(t =~= ta + tb);
    if pb.last().len() > 0 {
        assert(t.push(p.last()) =~= ta + tb.push(pb.last()));
    }
}

/// The decimal text of `n` is made of ASCII digits, has no leading zero (unless it is
/// `"0"`), ends with the units digit of `n` after the text of `n / 10`, and denotes `n`.
pub proof fn lemma_nat_digits_value(n: nat)
    ensures
        nat_digits(n).len() > 0,
        all_ascii_digits(nat_digits(n)),
        digits_value(nat_digits(n)) == n,
        nat_digits(n).last() == digit_char(n % 10),
        n >= 10 ==> nat_digits(n).drop_last() == nat_digits(n / 10),
        n >= 10 ==> nat_digits(n)[0] != '0',
        n < 10 ==> nat_digits(n).len() == 1,
    decreases n,
{
    if n >= 10 {
        lemma_nat_digits_value(n / 10);
        let d = nat_digits(n);
        assert(d.drop_last() =~= nat_digits(n / 10));
        assert(d[0] == nat_digits(n / 10)[0]);
        assert forall|i: int| 0 <= i < d.len() implies is_ascii_digit(#[trigger] d[i]) by {
            if i < d.len() - 1 {
                assert(d[i] == nat_digits(n / 10)[i]);
            }
        }
        assert(digit_value(digit_char(n % 10)) == n % 10);
        assert(digits_value(d) == digits_value(nat_digits(n / 10)) * 10 + digit_value(d.last()));
        assert((n / 10) * 10 + n % 10 == n);
    } else {
        assert(digit_value(digit_char(n)) == n);
        let d = seq![digit_char(n)];
        assert(d.drop_last() =~= Seq::<char>::empty());
        assert(digits_value(d) == digits_value(d.drop_last()) * 10 + digit_value(d.last()));
    }
}

/// Two numbers with the same decimal text are equal.
pub proof fn lemma_nat_digits_injective(a: nat, b: nat)
    requires
        nat_digits(a) == nat_digits(b),
    ensures
        a == b,
{
    lemma_nat_digits_value(a);
    lemma_nat_digits_value(b);
}

/// Reading the decimal text of any `i32` gives the number back, and numbers with the
/// same decimal text are equal.
pub proof fn lemma_decimal_round_trip(n: i32)
    ensures
        parse_i32(decimal(n as int)) == Some(n),
        forall|m: i32| decimal(m as int) == decimal(n as int) ==> m == n,
{
    lemma_decimal_parse(n);
    assert forall|m: i32| decimal(m as int) == decimal(n as int) implies m == n by {
        lemma_decimal_parse(m);
    }
}

proof fn lemma_decimal_parse(n: i32)
    ensures
        parse_i32(decimal(n as int)) == Some(n),
{
    if n < 0 {
        let k = (-(n as int)) as nat;
        lemma_nat_digits_value(k);
        let t = seq!['-'] + nat_digits(k);
        assert(t.drop_first() =~= nat_digits(k));
        assert(starts_with(t, '-'));
    } else {
        let k = n as nat;
        lemma_nat_digits_value(k);
        let t = nat_digits(k);
        assert(is_ascii_digit(t[0]));
        assert(!starts_with(t, '-') && !starts_with(t, '+'));
    }
}

/// Appending a digit to a non-negative number's text multiplies it by ten and adds the
/// digit, as long as the result stays in range.
pub proof fn lemma_parse_i32_push_digit(d: Seq<char>, c: char, v: i32)
    requires
        parse_i32(d) == Some(v),
        v >= 0,
        !starts_with(d, '-'),
        is_ascii_digit(c),
        10 * (v as int) + digit_value(c) <= i32::MAX,
    ensures
        parse_i32(d.push(c)) == Some((10 * (v as int) + digit_value(c)) as i32),
{
    let body = if starts_with(d, '+') { d.drop_first() } else { d };
    let body2 = if starts_with(d.push(c), '+') { d.push(c).drop_first() } else { d.push(c) };
    assert(d.push(c)[0] == d[0]);
    assert(body2 =~= body.push(c));
    assert(body2.drop_last() =~= body);
    assert forall|i: int| 0 <= i < body2.len() implies is_ascii_digit(#[trigger] body2[i]) by {
        if i < body.len() {
            assert(body2[i] == body[i]);
        }
    }
}

/// A leading `+` changes nothing, and a leading `-` negates, the number an unsigned
/// text reads as.
pub proof fn lemma_parse_i32_sign(d: Seq<char>)
    requires
        !starts_with(d, '-'),
        !starts_with(d, '+'),
    ensures
        parse_i32(seq!['+'] + d) == parse_i32(d),
        parse_i32(d) matches Some(v) ==> parse_i32(seq!['-'] + d) == Some((-(v as int)) as i32),
{
    assert((seq!['+'] + d).drop_first() =~= d);
    assert((seq!['-'] + d).drop_first() =~= d);
    assert(starts_with(seq!['+'] + d, '+'));
    assert(starts_with(seq!['-'] + d, '-'));
}

/// Leading whitespace is what trimming the start removes.
pub proof fn lemma_trim_start_white_prefix(w: Seq<char>, x: Seq<char>)
    requires
        forall|i: int| 0 <= i < w.len() ==> is_white_space(#[trigger] w[i]),
    ensures
        trim_start(w + x) == trim_start(x),
    decreases w.len(),
{
    if w.len() == 0 {
        assert(w + x =~= x);
    } else {
        assert((w + x)[0] == w[0]);
        assert((w + x).drop_first() =~= w.drop_first() + x);
        assert forall|i: int| 0 <= i < w.drop_first().len() implies is_white_space(
            #[trigger] w.drop_first()[i],
        ) by {
            assert(w.drop_first()[i] == w[i + 1]);
        }
        lemma_trim_start_white_prefix(w.drop_first(), x);
    }
}

/// Trimming the end keeps a first character that is not whitespace.
pub proof fn lemma_trim_end_keeps_first(x: Seq<char>)
    requires
        x.len() > 0,
        !is_white_space(x[0]),
    ensures
        trim_end(x).len() > 0,
        trim_end(x)[0] == x[0],
    decreases x.len(),
{
    if x.len() > 1 && is_white_space(x.last()) {
        assert(x.drop_last()[0] == x[0]);
        lemma_trim_end_keeps_first(x.drop_last());
    } else if x.len() == 1 && is_white_space(x.last()) {
        assert(x.last() == x[0]);
    }
}

/// Joining the pieces of a split with the separator gives the text back.
pub proof fn lemma_join_split(s: Seq<char>, sep: char)
    ensures
        join(split_on(s, sep), seq![sep]) == s,
    decreases s.len(),
{
    if s.len() == 0 {
        assert(split_on(s, sep) == seq![Seq::<char>::empty()]);
        assert(s =~= Seq::<char>::empty());
    } else {
        let s0 = s.drop_last();
        lemma_join_split(s0, sep);
        lemma_split_on_len(s0, sep);
        let r = split_on(s0, sep);
        if s.last() == sep {
            let q = r.push(Seq::<char>::empty());
            assert(q.drop_last() =~= r);
            assert(join(q, seq![sep]) == join(r, seq![sep]) + seq![sep] + Seq::<char>::empty());
            assert(s0 + seq![sep] + Seq::<char>::empty() =~= s);
        } else {
            lemma_join_push_last(r, seq![sep], s.last());
            assert(s0.push(s.last()) =~= s);
        }
    }
}

/// Joining two non-empty lists of pieces: the first joined, the separator, the second
/// joined.
pub proof fn lemma_join_concat(a: Seq<Seq<char>>, b: Seq<Seq<char>>, sep: Seq<char>)
    requires
        a.len() > 0,
        b.len() > 0,
    ensures
        join(a + b, sep) == join(a, sep) + sep + join(b, sep),
    decreases b.len(),
{
    let ab = a + b;
    assert(ab.drop_last() =~= a + b.drop_last());
    assert(ab.last() == b.last());
    if b.len() == 1 {
        assert(a + b.drop_last() =~= a);
        assert(join(b, sep) == b[0]);
    } else {
        lemma_join_concat(a, b.drop_last(), sep);
        assert(join(a, sep) + sep + join(b.drop_last(), sep) + sep + b.last() =~= join(a, sep) + sep
            + (join(b.drop_last(), sep) + sep + b.last()));
    }
}

// ---------------------------------------------------------------------------
// Executable primitives
// ---------------------------------------------------------------------------

/// Appends one character to a `String` (std `String::push`).
#[verifier::external_body]
pub(crate) fn push_char(s: &mut String, c: char)
    ensures
        final(s)@ == old(s)@.push(c),
{
    s.push(c);
}

/// The characters of a string slice, in order.
pub fn chars_of(s: &str) -> (out: Vec<char>)
    ensures
        out@ == s@,
{
    let mut out: Vec<char> = Vec::new();
    for c in it: s.chars()
        invariant
            out@ == it.seq().take(it.index()),
            it.seq() == s@,
    {
        out.push(c);
    }
    out
}

/// A `String` holding the characters `cs[from..to]`.
pub fn string_of(cs: &Vec<char>, from: usize, to: usize) -> (out: String)
    requires
        from <= to <= cs.len(),
    ensures
        out@ == cs@.subrange(from as int, to as int),
{
    let mut out = String::new();
    let mut i = from;
    while i < to
        invariant
            from <= i <= to <= cs.len(),
            out@ == cs@.subrange(from as int, i as int),
        decreases to - i,
    {
        push_char(&mut out, cs[i]);
        i = i + 1;
        assert(out@ =~= cs@.subrange(from as int, i as int));
    }
    out
}

/// Whether `c` has the Unicode `White_Space` property (`char::is_whitespace`).
pub fn is_whitespace(c: char) -> (b: bool)
    ensures
        b == is_white_space(c),
{
    let u = c as u32;
    (0x09 <= u && u <= 0x0D) || u == 0x20 || u == 0x85 || u == 0xA0 || u == 0x1680 || (0x2000
        <= u && u <= 0x200A) || u == 0x2028 || u == 0x2029 || u == 0x202F || u == 0x205F || u
        == 0x3000
}


/// Indices `(a, b)` such that `cs[a..b]` is `cs[from..to]` trimmed of whitespace.
pub fn trim_range(cs: &Vec<char>, from: usize, to: usize) -> (r: (usize, usize))
    requires
        from <= to <= cs.len(),
    ensures
        from <= r.0 <= r.1 <= to,
        cs@.subrange(r.0 as int, r.1 as int) == trim(cs@.subrange(from as int, to as int)),
{
    let mut i = from;
    while i < to && is_whitespace(cs[i])
        invariant
            from <= i <= to <= cs.len(),
            trim_start(cs@.subrange(from as int, to as int)) == trim_start(
                cs@.subrange(i as int, to as int),
            ),
        decreases to - i,
    {
        assert(cs@.subrange(i as int, to as int).drop_first() =~= cs@.subrange(
            i + 1,
            to as int,
        ));
        i = i + 1;
    }
    assert(trim_start(cs@.subrange(i as int, to as int)) == cs@.subrange(i as int, to as int));
    let mut j = to;
    while j > i && is_whitespace(cs[j - 1])
        invariant
            from <= i <= j <= to <= cs.len(),
            trim_end(cs@.subrange(i as int, to as int)) == trim_end(
                cs@.subrange(i as int, j as int),
            ),
        decreases j - i,
    {
        assert(cs@.subrange(i as int, j as int).drop_last() =~= cs@.subrange(
            i as int,
            j - 1,
        ));
        j = j - 1;
    }
    (i, j)
}

/// `s` with whitespace removed at both ends (`str::trim`).
pub fn trim_str(s: &str) -> (out: String)
    ensures
        out@ == trim(s@),
{
    let cs = chars_of(s);
    let (a, b) = trim_range(&cs, 0, cs.len());
    assert(cs@.subrange(0, cs@.len() as int) =~= cs@);
    string_of(&cs, a, b)
}

/// The ranges of the pieces of `cs[from..to]` between occurrences of `sep`.
pub fn split_ranges(cs: &Vec<char>, from: usize, to: usize, sep: char) -> (r: Vec<
    (usize, usize),
>)
    requires
        from <= to <= cs.len(),
    ensures
        r@.len() == split_on(cs@.subrange(from as int, to as int), sep).len(),
        forall|k: int|
            0 <= k < r@.len() ==> from <= (#[trigger] r@[k]).0 <= r@[k].1 <= to
                && cs@.subrange(r@[k].0 as int, r@[k].1 as int) == split_on(
                cs@.subrange(from as int, to as int),
                sep,
            )[k],
{
    let mut r: Vec<(usize, usize)> = Vec::new();
    let mut cur = from;
    let mut i = from;
    assert(cs@.subrange(from as int, from as int) =~= Seq::<char>::empty());
    while i < to
        invariant
            from <= cur <= i <= to <= cs.len(),
            split_on(cs@.subrange(from as int, i as int), sep).len() == r@.len() + 1,
            split_on(cs@.subrange(from as int, i as int), sep).last() == cs@.subrange(
                cur as int,
                i as int,
            ),
            forall|k: int|
                0 <= k < r@.len() ==> from <= (#[trigger] r@[k]).0 <= r@[k].1 <= cur
                    && cs@.subrange(r@[k].0 as int, r@[k].1 as int) == split_on(
                    cs@.subrange(from as int, i as int),
                    sep,
                )[k],
        decreases to - i,
    {
        let ghost prev = split_on(cs@.subrange(from as int, i as int), sep);
        assert(cs@.subrange(from as int, i + 1).drop_last() =~= cs@.subrange(
            from as int,
            i as int,
        ));
        if cs[i] == sep {
            r.push((cur, i));
            cur = i + 1;
            assert(cs@.subrange(cur as int, i + 1) =~= Seq::<char>::empty());
        } else {
            assert(cs@.subrange(cur as int, i + 1) =~= cs@.subrange(cur as int, i as int).push(
                cs@[i as int],
            ));
        }
        i = i + 1;
    }
    r.push((cur, to));
    r
}

/// The ranges of the words of `cs[from..to]` (`str::split_whitespace`).
pub fn word_ranges(cs: &Vec<char>, from: usize, to: usize) -> (r: Vec<(usize, usize)>)
    requires
        from <= to <= cs.len(),
    ensures
        r@.len() == words(cs@.subrange(from as int, to as int)).len(),
        forall|k: int|
            0 <= k < r@.len() ==> from <= (#[trigger] r@[k]).0 < r@[k].1 <= to
                && cs@.subrange(r@[k].0 as int, r@[k].1 as int) == words(
                cs@.subrange(from as int, to as int),
            )[k],
{
    let mut r: Vec<(usize, usize)> = Vec::new();
    let mut cur = from;
    let mut i = from;
    assert(cs@.subrange(from as int, from as int) =~= Seq::<char>::empty());
    while i < to
        invariant
            from <= cur <= i <= to <= cs.len(),
            split_on_white_space(cs@.subrange(from as int, i as int)).len() >= 1,
            split_on_white_space(cs@.subrange(from as int, i as int)).last() == cs@.subrange(
                cur as int,
                i as int,
            ),
            non_empty(split_on_white_space(cs@.subrange(from as int, i as int)).drop_last()).len()
                == r@.len(),
            forall|k: int|
                0 <= k < r@.len() ==> from <= (#[trigger] r@[k]).0 < r@[k].1 <= cur
                    && cs@.subrange(r@[k].0 as int, r@[k].1 as int) == non_empty(
                    split_on_white_space(cs@.subrange(from as int, i as int)).drop_last(),
                )[k],
        decreases to - i,
    {
        let ghost prev = split_on_white_space(cs@.subrange(from as int, i as int));
        assert(cs@.subrange(from as int, i + 1).drop_last() =~= cs@.subrange(
            from as int,
            i as int,
        ));
        if is_whitespace(cs[i]) {
            let ghost next = prev.push(Seq::<char>::empty());
            assert(next.drop_last() =~= prev);
            if cur < i {
                r.push((cur, i));
            }
            cur = i + 1;
            assert(cs@.subrange(cur as int, i + 1) =~= Seq::<char>::empty());
        } else {
            let ghost next = prev.update(prev.len() - 1, prev.last().push(cs@[i as int]));
            assert(next.drop_last() =~= prev.drop_last());
            assert(cs@.subrange(cur as int, i + 1) =~= cs@.subrange(cur as int, i as int).push(
                cs@[i as int],
            ));
        }
        i = i + 1;
    }
    if cur < to {
        r.push((cur, to));
    }
    r
}

/// The words of `s` as owned strings (`str::split_whitespace`).
pub fn split_words(s: &str) -> (out: Vec<String>)
    ensures
        out@.len() == words(s@).len(),
        forall|k: int| 0 <= k < out@.len() ==> (#[trigger] out@[k])@ == words(s@)[k],
{
    let cs = chars_of(s);
    assert(cs@.subrange(0, cs@.len() as int) =~= s@);
    let r = word_ranges(&cs, 0, cs.len());
    let mut out: Vec<String> = Vec::new();
    for k in 0..r.len()
        invariant
            cs@ == s@,
            r@.len() == words(s@).len(),
            forall|j: int|
                0 <= j < r@.len() ==> 0 <= (#[trigger] r@[j]).0 < r@[j].1 <= cs@.len()
                    && cs@.subrange(r@[j].0 as int, r@[j].1 as int) == words(s@)[j],
            out@.len() == k,
            forall|j: int| 0 <= j < k ==> (#[trigger] out@[j])@ == words(s@)[j],
    {
        let (a, b) = r[k];
        out.push(string_of(&cs, a, b));
    }
    out
}

/// The decimal digit character for a value below ten.
pub fn digit_to_char(d: u64) -> (c: char)
    requires
        d < 10,
    ensures
        c == digit_char(d as nat),
{
    ((48u8 + d as u8) as char)
}

/// Appends the decimal digits of `n` to `s`.
pub fn push_nat_digits(s: &mut String, n: u64)
    ensures
        final(s)@ == old(s)@ + nat_digits(n as nat),
    decreases n,
{
    if n >= 10 {
        push_nat_digits(s, n / 10);
    }
    let ghost mid = s@;
    push_char(s, digit_to_char(n % 10));
    if n >= 10 {
        assert(nat_digits(n as nat) == nat_digits((n / 10) as nat).push(digit_char((n % 10) as nat)));
    }
}

/// Appends the decimal text of `n` to `s`, as `Display` prints it.
pub fn push_decimal(s: &mut String, n: i64)
    ensures
        final(s)@ == old(s)@ + decimal(n as int),
{
    if n < 0 {
        push_char(s, '-');
        let m: u64 = if n == i64::MIN { 9223372036854775808u64 } else { (-n) as u64 };
        let ghost mid = s@;
        push_nat_digits(s, m);
        assert(final(s)@ =~= old(s)@ + decimal(n as int));
    } else {
        push_nat_digits(s, n as u64);
    }
}

/// What `str::parse::<i32>` yields for `cs[from..to]`.
pub fn parse_i32_range(cs: &Vec<char>, from: usize, to: usize) -> (r: Option<i32>)
    requires
        from <= to <= cs.len(),
    ensures
        r == parse_i32(cs@.subrange(from as int, to as int)),
{
    let ghost s = cs@.subrange(from as int, to as int);
    let neg = from < to && cs[from] == '-';
    let signed = from < to && (cs[from] == '-' || cs[from] == '+');
    let start = if signed { from + 1 } else { from };
    proof {
        let body = if starts_with(s, '-') || starts_with(s, '+') { s.drop_first() } else { s };
        assert(body =~= cs@.subrange(start as int, to as int));
    }
    if start == to {
        return None;
    }
    let cap: u64 = 2147483649;
    let mut acc: u64 = 0;
    let mut i = start;
    assert(cs@.subrange(start as int, start as int) =~= Seq::<char>::empty());
    while i < to
        invariant
            start <= i <= to <= cs.len(),
            from <= start,
            acc <= cap,
            cap == 2147483649,
            neg == starts_with(cs@.subrange(from as int, to as int), '-'),
            (if starts_with(cs@.subrange(from as int, to as int), '-') || starts_with(
                cs@.subrange(from as int, to as int),
                '+',
            ) {
                cs@.subrange(from as int, to as int).drop_first()
            } else {
                cs@.subrange(from as int, to as int)
            }) == cs@.subrange(start as int, to as int),
            all_ascii_digits(cs@.subrange(start as int, i as int)),
            acc == if digits_value(cs@.subrange(start as int, i as int)) < cap {
                digits_value(cs@.subrange(start as int, i as int))
            } else {
                cap as nat
            },
        decreases to - i,
    {
        let c = cs[i];
        if !('0' <= c && c <= '9') {
            proof {
                let body = cs@.subrange(start as int, to as int);
                assert(body[i - start] == c);
            }
            return None;
        }
        let d = (c as u32 - '0' as u32) as u64;
        let ghost prev = cs@.subrange(start as int, i as int);
        assert(cs@.subrange(start as int, i + 1).drop_last() =~= prev);
        acc = if acc * 10 + d < cap { acc * 10 + d } else { cap };
        i = i + 1;
        assert(all_ascii_digits(cs@.subrange(start as int, i as int))) by {
            let cur = cs@.subrange(start as int, i as int);
            assert forall|k: int| 0 <= k < cur.len() implies is_ascii_digit(#[trigger] cur[k]) by {
                if k < cur.len() - 1 {
                    assert(cur[k] == prev[k]);
                }
            }
        }
    }
    if neg {
        if acc <= 2147483648 {
            Some((0i64 - acc as i64) as i32)
        } else {
            None
        }
    } else {
        if acc <= 2147483647 {
            Some(acc as i32)
        } else {
            None
        }
    }
}


/// The ranges of the lines of `cs` (`str::lines`).
pub fn line_ranges(cs: &Vec<char>) -> (r: Vec<(usize, usize)>)
    ensures
        r@.len() == lines(cs@).len(),
        forall|k: int|
            0 <= k < r@.len() ==> (#[trigger] r@[k]).0 <= r@[k].1 <= cs@.len()
                && cs@.subrange(r@[k].0 as int, r@[k].1 as int) == lines(cs@)[k],
{
    let pieces = split_ranges(cs, 0, cs.len(), '\n');
    let ghost p = split_on(cs@.subrange(0, cs@.len() as int), '\n');
    assert(cs@.subrange(0, cs@.len() as int) =~= cs@);
    proof {
        lemma_split_on_len(cs@, '\n');
    }
    let n = pieces.len();
    let mut r: Vec<(usize, usize)> = Vec::new();
    for k in 0..n - 1
        invariant
            n >= 1,
            n == pieces@.len() == p.len(),
            p == split_on(cs@, '\n'),
            forall|j: int|
                0 <= j < n ==> (#[trigger] pieces@[j]).0 <= pieces@[j].1 <= cs@.len()
                    && cs@.subrange(pieces@[j].0 as int, pieces@[j].1 as int) == p[j],
            r@.len() == k,
            forall|j: int|
                0 <= j < k ==> (#[trigger] r@[j]).0 <= r@[j].1 <= cs@.len() && cs@.subrange(
                    r@[j].0 as int,
                    r@[j].1 as int,
                ) == strip_cr(p[j]),
    {
        let (a, b) = pieces[k];
        if a < b && cs[b - 1] == '\r' {
            assert(cs@.subrange(a as int, b - 1) =~= cs@.subrange(a as int, b as int).drop_last());
            r.push((a, b - 1));
        } else {
            r.push((a, b));
        }
    }
    let (a, b) = pieces[n - 1];
    if a < b {
        r.push((a, b));
    }
    proof {
        let lt = lines(cs@);
        assert(lt.len() == r@.len());
        assert forall|k: int| 0 <= k < r@.len() implies (#[trigger] r@[k]).0 <= r@[k].1
            <= cs@.len() && cs@.subrange(r@[k].0 as int, r@[k].1 as int) == lines(cs@)[k] by {
            if k < n - 1 {
            } else {
                assert(k == n - 1);
            }
        }
    }
    r
}

/// `s` with its trailing whitespace removed (`str::trim_end`).
pub fn trim_end_str(s: &str) -> (out: String)
    ensures
        out@ == trim_end(s@),
{
    let cs = chars_of(s);
    let mut j = cs.len();
    assert(cs@.subrange(0, j as int) =~= s@);
    while j > 0 && is_whitespace(cs[j - 1])
        invariant
            j <= cs@.len(),
            cs@ == s@,
            trim_end(s@) == trim_end(cs@.subrange(0, j as int)),
        decreases j,
    {
        assert(cs@.subrange(0, j as int).drop_last() =~= cs@.subrange(0, j - 1));
        j = j - 1;
    }
    string_of(&cs, 0, j)
}

/// Appends `cs[from..to]` to `out`.
pub fn push_range(out: &mut String, cs: &Vec<char>, from: usize, to: usize)
    requires
        from <= to <= cs.len(),
    ensures
        final(out)@ == old(out)@ + cs@.subrange(from as int, to as int),
{
    let mut i = from;
    while i < to
        invariant
            from <= i <= to <= cs.len(),
            out@ == old(out)@ + cs@.subrange(from as int, i as int),
        decreases to - i,
    {
        push_char(out, cs[i]);
        i = i + 1;
        assert(out@ =~= old(out)@ + cs@.subrange(from as int, i as int));
    }
}

/// Appends the pieces `cs[r.0..r.1]` for each range `r` of `pieces`, joined with `sep`.
pub fn push_joined(out: &mut String, cs: &Vec<char>, pieces: &Vec<(usize, usize)>, sep: char)
    requires
        forall|k: int|
            0 <= k < pieces@.len() ==> (#[trigger] pieces@[k]).0 <= pieces@[k].1 <= cs@.len(),
    ensures
        final(out)@ == old(out)@ + join(
            Seq::new(
                pieces@.len(),
                |k: int| cs@.subrange(pieces@[k].0 as int, pieces@[k].1 as int),
            ),
            seq![sep],
        ),
{
    let ghost all = Seq::new(
        pieces@.len(),
        |k: int| cs@.subrange(pieces@[k].0 as int, pieces@[k].1 as int),
    );
    let mut i: usize = 0;
    while i < pieces.len()
        invariant
            0 <= i <= pieces@.len(),
            forall|k: int|
                0 <= k < pieces@.len() ==> (#[trigger] pieces@[k]).0 <= pieces@[k].1
                    <= cs@.len(),
            all == Seq::new(
                pieces@.len(),
                |k: int| cs@.subrange(pieces@[k].0 as int, pieces@[k].1 as int),
            ),
            out@ == old(out)@ + join(all.take(i as int), seq![sep]),
        decreases pieces@.len() - i,
    {
        let (a, b) = pieces[i];
        let ghost before = out@;
        if i > 0 {
            push_char(out, sep);
        }
        push_range(out, cs, a, b);
        proof {
            let t = all.take(i + 1);
            assert(t.drop_last() =~= all.take(i as int));
            assert(t.last() == cs@.subrange(a as int, b as int));
            if i == 0 {
                assert(t.len() == 1);
                assert(join(t, seq![sep]) == t[0]);
            }
            assert(out@ =~= old(out)@ + join(all.take(i + 1), seq![sep]));
        }
        i = i + 1;
    }
    assert(all.take(pieces@.len() as int) =~= all);
}

} // verus!
