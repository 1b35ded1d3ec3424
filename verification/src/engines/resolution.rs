//! # Resolution Engine (The "Router")
//!
//! Translates human-readable references such as `"Jn 17:3"` or `"MockAlias 3:16-18"`
//! into canonical dotted addresses such as `"bible.nt.john.17.3"`.
//!
//! An input is read as an *alias* (an optional leading number, then words of ASCII
//! letters separated by whitespace) followed by optional whitespace and a run of
//! *coordinates* (decimal digits, ASCII letters, `:`, `.` and `-`). The alias is looked
//! up by the caller; the coordinates are appended to the base path it resolves to.
use vstd::prelude::*;
use crate::text::{
    chars_of, is_ascii_digit, is_white_space, is_whitespace, join, lemma_join_concat,
    lemma_join_split, lemma_split_on_len, push_char,
    push_joined, push_range, split_on, split_ranges, string_of, trim, trim_start, trim_str,
};

verus! {

// ---------------------------------------------------------------------------
// Character classes of the address grammar
// ---------------------------------------------------------------------------

/// The Unicode `Nd` (decimal number) class, which `\d` matches in the `regex` crate.
pub uninterp spec fn unicode_decimal_digit(c: char) -> bool;

/// Whether `c` is a Unicode decimal digit, tested with the `regex` crate's `\d`.
///
/// Trusted: the contract claims that `Regex::is_match` on the one-character text answers
/// `\p{Nd}` membership (the crate documents `\d` as `\p{Nd}`), that within ASCII the
/// class is exactly `0`-`9`, and that no `Nd` character has the `White_Space` property.
#[verifier::external_body]
fn is_decimal_digit(c: char) -> (b: bool)
    ensures
        b == unicode_decimal_digit(c),
        (c as u32) < 128 ==> (b <==> is_ascii_digit(c)),
        b ==> !is_white_space(c),
{
    let mut buf = [0u8;4];
    match regex::Regex::new(r"^\d$") {
        Ok(re) => re.is_match(c.encode_utf8(&mut buf)),
        Err(_) => false,
    }
}

/// The ASCII letters `a`-`z` and `A`-`Z`.
pub open spec fn is_ascii_letter(c: char) -> bool {
    ('a' <= c <= 'z') || ('A' <= c <= 'Z')
}

/// Whether `c` is an ASCII letter.
pub fn is_letter(c: char) -> (b: bool)
    ensures
        b == is_ascii_letter(c),
{
    ('a' <= c && c <= 'z') || ('A' <= c && c <= 'Z')
}

/// A character that may appear inside an alias after its first word starts.
pub open spec fn is_alias_char(c: char) -> bool {
    is_ascii_letter(c) || is_white_space(c)
}

/// A character of the coordinate part: a decimal digit, an ASCII letter, `:`, `.` or `-`.
pub open spec fn is_coord_char(c: char) -> bool {
    unicode_decimal_digit(c) || c == ':' || c == '.' || c == '-' || is_ascii_letter(c)
}

/// Every character of `s[from..to]` is an alias character.
pub open spec fn all_alias_chars(s: Seq<char>, from: int, to: int) -> bool {
    forall|i: int| from <= i < to ==> is_alias_char(#[trigger] s[i])
}

/// Every character of `s[from..to]` is a coordinate character.
pub open spec fn all_coord_chars(s: Seq<char>, from: int, to: int) -> bool {
    forall|i: int| from <= i < to ==> is_coord_char(#[trigger] s[i])
}

/// Every character of `s[from..to]` is whitespace.
pub open spec fn all_white_space(s: Seq<char>, from: int, to: int) -> bool {
    forall|i: int| from <= i < to ==> is_white_space(#[trigger] s[i])
}

/// The alias language `(?:\d\s+)?[a-zA-Z]+(?:\s+[a-zA-Z]+)*`: optionally a digit and
/// whitespace, then ASCII-letter words separated by whitespace.
pub open spec fn is_alias(a: Seq<char>) -> bool {
    &&& a.len() > 0
    &&& is_ascii_letter(a.last())
    &&& if unicode_decimal_digit(a[0]) {
        a.len() > 1 && is_white_space(a[1]) && all_alias_chars(a, 1, a.len() as int)
    } else {
        is_ascii_letter(a[0]) && all_alias_chars(a, 0, a.len() as int)
    }
}

/// The tail language `\s*[\d:.\-a-zA-Z]*`.
pub open spec fn is_tail(t: Seq<char>) -> bool {
    exists|m: int|
        0 <= m <= t.len() && all_white_space(t, 0, m) && all_coord_chars(t, m, t.len() as int)
}

/// `s` splits after `k` characters into an alias and a tail.
pub open spec fn address_split(s: Seq<char>, k: int) -> bool {
    0 <= k <= s.len() && is_alias(s.take(k)) && is_tail(s.skip(k))
}

/// Why an address could not be resolved.
#[derive(Debug)]
pub enum ResolutionError {
    /// The input does not have the shape `alias coordinates`.
    InvalidFormat,
    /// No base path is known for this alias.
    AliasNotFound(String),
}

impl ResolutionError {
    /// The human-readable message of the error.
    pub fn message(&self) -> (m: String)
        ensures
            m@ == match self {
                ResolutionError::InvalidFormat => "Invalid address format."@,
                ResolutionError::AliasNotFound(a) => "Book alias '"@ + a@ + "' not found"@,
            },
    {
        match self {
            ResolutionError::InvalidFormat => String::from_str("Invalid address format."),
            ResolutionError::AliasNotFound(a) => {
                let mut m = String::from_str("Book alias '");
                m.append(a.as_str());
                m.append("' not found");
                m
            },
        }
    }
}

/// A digit is never a letter and never whitespace; a letter is never whitespace.
proof fn lemma_classes_disjoint(c: char)
    ensures
        is_ascii_letter(c) ==> !is_white_space(c),
        (c == ':' || c == '.' || c == '-') ==> !is_white_space(c) && !is_ascii_letter(c),
{
}

/// Splits an address into its alias and its coordinates.
///
/// The alias is the longest prefix that is in the alias language with a tail language
/// rest; the coordinates are that rest without its leading whitespace. Where no split
/// exists the input is refused with `InvalidFormat`.
pub fn extract_alias_and_coords(input: &str) -> (r: Result<(String, String), ResolutionError>)
    ensures
        r is Ok <==> exists|k: int| address_split(input@, k),
        r matches Ok((alias, coords)) ==> exists|k: int|
            {
                &&& address_split(input@, k)
                &&& alias@ == input@.take(k)
                &&& coords@ == trim_start(input@.skip(k))
                &&& forall|k2: int| address_split(input@, k2) ==> k2 <= k
            },
        r matches Err(e) ==> e is InvalidFormat,
{
    let cs = chars_of(input);
    let ghost s = input@;
    let n = cs.len();
    if n == 0 {
        proof {
            assert forall|k: int| !address_split(s, k) by {
                if 0 <= k <= s.len() {
                    assert(s.take(k).len() == 0);
                }
            }
        }
        return Err(ResolutionError::InvalidFormat);
    }
    let first_digit = is_decimal_digit(cs[0]);
    proof {
        lemma_classes_disjoint(cs@[0]);
    }
    let j: usize;
    if first_digit {
        if n < 2 || !is_whitespace(cs[1]) {
            proof {
                assert forall|k: int| !address_split(s, k) by {
                    if address_split(s, k) {
                        assert(s.take(k)[0] == s[0]);
                        assert(s.take(k)[1] == s[1]);
                    }
                }
            }
            return Err(ResolutionError::InvalidFormat);
        }
        j = 1;
    } else {
        let c0 = cs[0];
        if !(('a' <= c0 && c0 <= 'z') || ('A' <= c0 && c0 <= 'Z')) {
            proof {
                assert forall|k: int| !address_split(s, k) by {
                    if address_split(s, k) {
                        assert(s.take(k)[0] == s[0]);
                    }
                }
            }
            return Err(ResolutionError::InvalidFormat);
        }
        j = 0;
    }
    // Scan the run of letters and whitespace, remembering where the last letter ends.
    let mut e = j;
    let mut t: usize = 0;
    while e < n && (is_letter(cs[e]) || is_whitespace(cs[e]))
        invariant
            cs@ == s,
            n == s.len(),
            j <= e <= n,
            all_alias_chars(s, j as int, e as int),
            t == 0 || (j < t <= e && is_ascii_letter(s[t - 1])),
            forall|i: int| (if t == 0 { j as int } else { t as int }) <= i < e ==> !is_ascii_letter(
                #[trigger] s[i],
            ),
        decreases n - e,
    {
        let c = cs[e];
        if ('a' <= c && c <= 'z') || ('A' <= c && c <= 'Z') {
            t = e + 1;
        }
        e = e + 1;
    }
    proof {
        // j == 0 means the first character is a letter, so a letter was seen.
        if j == 0 {
            assert(is_alias_char(s[0]));
        }
    }
    if t == 0 {
        proof {
            assert forall|k: int| !address_split(s, k) by {
                if address_split(s, k) {
                    let a = s.take(k);
                    assert(a.last() == s[k - 1]);
                    // every character of the alias from j on is a letter or whitespace
                    assert forall|i: int| j <= i < k implies is_alias_char(#[trigger] s[i]) by {
                        assert(a[i] == s[i]);
                    }
                    if k - 1 >= e {
                        assert(is_alias_char(s[e as int]));
                    }
                }
            }
        }
        return Err(ResolutionError::InvalidFormat);
    }
    // Everything after the run must be coordinate characters.
    let mut q = e;
    while q < n
        invariant
            s == input@,
            cs@ == s,
            n == s.len(),
            n > 0,
            j <= 1,
            (j == 1) == unicode_decimal_digit(s[0]),
            j <= e <= q <= n,
            e < n ==> !is_alias_char(s[e as int]),
            all_coord_chars(s, e as int, q as int),
        decreases n - q,
    {
        let c = cs[q];
        let ok = is_decimal_digit(c) || c == ':' || c == '.' || c == '-' || ('a' <= c && c
            <= 'z') || ('A' <= c && c <= 'Z');
        if !ok {
            proof {
                lemma_no_split_after_bad_char(s, j as int, e as int, q as int);
            }
            return Err(ResolutionError::InvalidFormat);
        }
        q = q + 1;
    }
    let alias = string_of(&cs, 0, t);
    let coords = string_of(&cs, e, n);
    proof {
        let k = t as int;
        let a = s.take(k);
        assert(cs@.subrange(0, k) =~= a);
        assert(a.last() == s[k - 1]);
        assert(a[0] == s[0]);
        if j == 1 {
            assert(a[1] == s[1]);
            assert(all_alias_chars(a, 1, a.len() as int)) by {
                assert forall|i: int| 1 <= i < a.len() implies is_alias_char(#[trigger] a[i]) by {
                    assert(a[i] == s[i]);
                }
            }
        } else {
            assert(all_alias_chars(a, 0, a.len() as int)) by {
                assert forall|i: int| 0 <= i < a.len() implies is_alias_char(#[trigger] a[i]) by {
                    assert(a[i] == s[i]);
                }
            }
        }
        assert(is_alias(a));
        let tl = s.skip(k);
        let m = e - k;
        assert(all_white_space(tl, 0, m)) by {
            assert forall|i: int| 0 <= i < m implies is_white_space(#[trigger] tl[i]) by {
                assert(tl[i] == s[k + i]);
                assert(is_alias_char(s[k + i]));
            }
        }
        assert(all_coord_chars(tl, m, tl.len() as int)) by {
            assert forall|i: int| m <= i < tl.len() implies is_coord_char(#[trigger] tl[i]) by {
                assert(tl[i] == s[k + i]);
            }
        }
        assert(is_tail(tl));
        assert(address_split(s, k));
        // The coordinates are the tail without its leading whitespace.
        assert(coords@ == trim_start(tl)) by {
            lemma_trim_start_skips(tl, m);
            assert(tl.skip(m) =~= cs@.subrange(e as int, n as int));
            if m < tl.len() {
                assert(tl[m] == s[e as int]);
                assert(is_coord_char(s[e as int]));
                lemma_classes_disjoint(s[e as int]);
                if unicode_decimal_digit(s[e as int]) {
                    assert(!is_white_space(s[e as int]));
                }
            }
        }
        // No longer split exists: a longer alias would need a letter after the last one.
        assert forall|k2: int| address_split(s, k2) implies k2 <= k by {
            if k2 > k {
                let a2 = s.take(k2);
                assert(a2.last() == s[k2 - 1]);
                assert(a2[0] == s[0]);
                assert forall|i: int| j <= i < k2 implies is_alias_char(#[trigger] s[i]) by {
                    assert(a2[i] == s[i]);
                }
                if k2 > e {
                    assert(is_alias_char(s[e as int]));
                }
                assert(!is_ascii_letter(s[k2 - 1]));
            }
        }
    }
    Ok((alias, coords))
}

/// If a character after the alias run is not a coordinate character, no split exists.
proof fn lemma_no_split_after_bad_char(s: Seq<char>, j: int, e: int, q: int)
    requires
        s.len() > 0,
        0 <= j <= 1,
        (j == 1) == unicode_decimal_digit(s[0]),
        j <= e <= q < s.len(),
        !is_alias_char(s[e]),
        !is_coord_char(s[q]),
    ensures
        forall|k: int| !address_split(s, k),
{
    assert forall|k: int| !address_split(s, k) by {
        if address_split(s, k) {
            let a = s.take(k);
            assert(a[0] == s[0]);
            assert forall|i: int| j <= i < k implies is_alias_char(#[trigger] s[i]) by {
                assert(a[i] == s[i]);
            }
            if k > e {
                assert(is_alias_char(s[e]));
            }
            let tl = s.skip(k);
            let m = choose|m: int|
                0 <= m <= tl.len() && all_white_space(tl, 0, m) && all_coord_chars(
                    tl,
                    m,
                    tl.len() as int,
                );
            // s[e] is neither a letter nor whitespace, so it lies in the coordinate part
            // of the tail, as does everything after it.
            assert(tl[e - k] == s[e]);
            if e - k < m {
                assert(is_white_space(tl[e - k]));
            }
            assert(tl[q - k] == s[q]);
        }
    }
}

/// Skipping `m` leading whitespace characters does not change the trimmed start.
proof fn lemma_trim_start_skips(t: Seq<char>, m: int)
    requires
        0 <= m <= t.len(),
        all_white_space(t, 0, m),
        m == t.len() || !is_white_space(t[m]),
    ensures
        trim_start(t) == t.skip(m),
    decreases m,
{
    if m == 0 {
        assert(t.skip(0) =~= t);
    } else {
        let t2 = t.drop_first();
        assert forall|i: int| 0 <= i < m - 1 implies is_white_space(#[trigger] t2[i]) by {
            assert(t2[i] == t[i + 1]);
        }
        if m - 1 < t2.len() {
            assert(t2[m - 1] == t[m]);
        }
        lemma_trim_start_skips(t2, m - 1);
        assert(t2.skip(m - 1) =~= t.skip(m));
    }
}

// ---------------------------------------------------------------------------
// Building canonical paths from coordinates
// ---------------------------------------------------------------------------

/// A resolved address: a start path and, for a range, an end path.
#[derive(Debug)]
pub struct ResolvedAddress {
    pub start_path: String,
    pub end_path: Option<String>,
}

/// `s` with every `from` replaced by `to` (`str::replace` with one-character patterns).
pub open spec fn replace_char(s: Seq<char>, from: char, to: char) -> Seq<char> {
    Seq::new(s.len(), |i: int| if s[i] == from { to } else { s[i] })
}

/// `base` extended by one more dotted component.
pub open spec fn dotted(base: Seq<char>, tail: Seq<char>) -> Seq<char> {
    base + seq!['.'] + tail
}

/// The start path of coordinates appended to `base`.
pub open spec fn start_path_of(base: Seq<char>, coords: Seq<char>) -> Seq<char> {
    if coords.len() == 0 {
        base
    } else {
        dotted(base, split_on(replace_char(coords, ':', '.'), '-')[0])
    }
}

/// The end path of coordinates appended to `base`, for a range (`a-b`).
///
/// Components missing from a shorter end are inherited from the start: with start
/// `17.2` and end `3` the end is `17.3`.
pub open spec fn end_path_of(base: Seq<char>, coords: Seq<char>) -> Option<Seq<char>> {
    let parts = split_on(replace_char(coords, ':', '.'), '-');
    if coords.len() == 0 || parts.len() == 1 {
        None
    } else {
        let start_segments = split_on(parts[0], '.');
        let end_segments = split_on(parts[1], '.');
        if end_segments.len() < start_segments.len() {
            Some(
                dotted(
                    base,
                    join(
                        start_segments.take(start_segments.len() - end_segments.len())
                            + end_segments,
                        seq!['.'],
                    ),
                ),
            )
        } else {
            Some(dotted(base, parts[1]))
        }
    }
}

/// Builds the start and end paths of `coords` under `base_path`.
///
/// Colons in the coordinates become dots; a `-` separates the start of a range from its
/// end, and an end with fewer components than the start inherits the leading ones.
pub fn build_coordinate_paths(base_path: &str, coords: &str) -> (r: ResolvedAddress)
    ensures
        r.start_path@ == start_path_of(base_path@, coords@),
        match r.end_path {
            Some(e) => end_path_of(base_path@, coords@) == Some(e@),
            None => end_path_of(base_path@, coords@) is None,
        },
{
    let raw = chars_of(coords);
    if raw.len() == 0 {
        return ResolvedAddress { start_path: String::from_str(base_path), end_path: None };
    }
    // Normalize colons into dots.

    let mut norm: Vec<char> = Vec::new();
    for i in 0..raw.len()
        invariant
            raw@ == coords@,
            norm@ == replace_char(coords@, ':', '.').take(i as int),
    {
        let c = raw[i];
        norm.push(if c == ':' { '.' } else { c });
        assert(norm@ =~= replace_char(coords@, ':', '.').take(i + 1));
    }
    let ghost ns = replace_char(coords@, ':', '.');
    assert(norm@ =~= ns);
    assert(norm@.subrange(0, norm@.len() as int) =~= ns);
    let parts = split_ranges(&norm, 0, norm.len(), '-');
    proof {
        lemma_split_on_len(ns, '-');
    }
    let ghost ps = split_on(ns, '-');
    let (s0, s1) = parts[0];
    let mut start = String::from_str(base_path);
    push_char(&mut start, '.');
    push_range(&mut start, &norm, s0, s1);
    if parts.len() == 1 {
        return ResolvedAddress { start_path: start, end_path: None };
    }
    let (e0, e1) = parts[1];
    // Segment both ends of the range.
    let start_segments = split_ranges(&norm, s0, s1, '.');
    let end_segments = split_ranges(&norm, e0, e1, '.');
    let mut end = String::from_str(base_path);
    push_char(&mut end, '.');
    if end_segments.len() < start_segments.len() {
        let keep = start_segments.len() - end_segments.len();
        let mut combined: Vec<(usize, usize)> = Vec::new();
        for k in 0..keep
            invariant
                keep <= start_segments@.len(),
                combined@ == start_segments@.take(k as int),
        {
            combined.push(start_segments[k]);
            assert(combined@ =~= start_segments@.take(k + 1));
        }
        for k in 0..end_segments.len()
            invariant
                combined@ == start_segments@.take(keep as int) + end_segments@.take(k as int),
        {
            combined.push(end_segments[k]);
            assert(combined@ =~= start_segments@.take(keep as int) + end_segments@.take(k + 1));
        }
        assert(end_segments@.take(end_segments@.len() as int) =~= end_segments@);
        push_joined(&mut end, &norm, &combined, '.');
        proof {
            let ss = split_on(ps[0], '.');
            let es = split_on(ps[1], '.');
            let want = ss.take(ss.len() - es.len() as int) + es;
            let got = Seq::new(
                combined@.len(),
                |k: int| norm@.subrange(combined@[k].0 as int, combined@[k].1 as int),
            );
            assert(norm@.subrange(s0 as int, s1 as int) == ps[0]);
            assert(norm@.subrange(e0 as int, e1 as int) == ps[1]);
            assert(got =~= want);
        }
    } else {
        push_range(&mut end, &norm, e0, e1);
    }
    ResolvedAddress { start_path: start, end_path: Some(end) }
}

/// The resolved address of `coords` under a base path, as an `Option` pair.
pub open spec fn resolved_of(base: Seq<char>, coords: Seq<char>) -> (Seq<char>, Option<Seq<char>>) {
    (start_path_of(base, coords), end_path_of(base, coords))
}

/// The abstract view of a resolved address.
pub open spec fn resolved_view(r: ResolvedAddress) -> (Seq<char>, Option<Seq<char>>) {
    (
        r.start_path@,
        match r.end_path {
            Some(e) => Some(e@),
            None => None,
        },
    )
}

/// Finishes resolving an address once its alias has been looked up: `base_path` is what
/// the lookup of `alias` gave.
///
/// An alias without a base path is refused; otherwise the coordinates are appended to it.
pub fn complete_address(alias: &str, base_path: Option<&str>, coords: &str) -> (r: Result<
    ResolvedAddress,
    ResolutionError,
>)
    ensures
        match base_path {
            None => r matches Err(ResolutionError::AliasNotFound(a)) && a@ == alias@,
            Some(b) => r matches Ok(res) && resolved_view(res) == resolved_of(b@, coords@),
        },
{
    match base_path {
        None => Err(ResolutionError::AliasNotFound(String::from_str(alias))),
        Some(b) => Ok(build_coordinate_paths(b, coords)),
    }
}

/// The Unicode lowercase mapping of a text (`str::to_lowercase`).
pub uninterp spec fn unicode_lowercase(s: Seq<char>) -> Seq<char>;

/// Lowercases a text with std's `str::to_lowercase`.
///
/// Trusted: the contract only names the result as the lowercase mapping of the
/// argument; it states nothing of what that mapping is.
#[verifier::external_body]
fn to_lowercase(s: &str) -> (r: String)
    ensures
        r@ == unicode_lowercase(s@),
{
    s.to_lowercase()
}

/// Normalizes a path string before it is looked up as an alias: surrounding whitespace removed, then lowercased.
pub fn sanitize_path_input(input: &str) -> (r: String)
    ensures
        r@ == unicode_lowercase(trim(input@)),
{
    let t = trim_str(input);
    to_lowercase(t.as_str())
}

// ---------------------------------------------------------------------------
// Context inheritance keeps the shape of the start
// ---------------------------------------------------------------------------

/// The number of occurrences of `c` in `s`.
pub open spec fn count_char(s: Seq<char>, c: char) -> nat
    decreases s.len(),
{
    if s.len() == 0 {
        0
    } else {
        count_char(s.drop_last(), c) + if s.last() == c {
            1nat
        } else {
            0nat
        }
    }
}

proof fn lemma_count_concat(a: Seq<char>, b: Seq<char>, c: char)
    ensures
        count_char(a + b, c) == count_char(a, c) + count_char(b, c),
    decreases b.len(),
{
    if b.len() == 0 {
        assert(a + b =~= a);
    } else {
        lemma_count_concat(a, b.drop_last(), c);
        assert((a + b).drop_last() =~= a + b.drop_last());
    }
}

/// Splitting at `c` yields one piece more than there are `c`s, and no piece holds a `c`.
proof fn lemma_split_count(s: Seq<char>, c: char)
    ensures
        split_on(s, c).len() == count_char(s, c) + 1,
        forall|i: int| 0 <= i < split_on(s, c).len() ==> count_char(#[trigger] split_on(s, c)[i], c) == 0,
    decreases s.len(),
{
    if s.len() > 0 {
        lemma_split_count(s.drop_last(), c);
        let rest = split_on(s.drop_last(), c);
        if s.last() != c {
            let last = rest.last();
            assert(last.push(s.last()).drop_last() =~= last);
            assert forall|i: int| 0 <= i < split_on(s, c).len() implies count_char(
                #[trigger] split_on(s, c)[i],
                c,
            ) == 0 by {
                if i < rest.len() - 1 {
                    assert(split_on(s, c)[i] == rest[i]);
                }
            }
        } else {
            assert forall|i: int| 0 <= i < split_on(s, c).len() implies count_char(
                #[trigger] split_on(s, c)[i],
                c,
            ) == 0 by {
                if i < rest.len() {
                    assert(split_on(s, c)[i] == rest[i]);
                }
            }
        }
    }
}

/// Joining pieces without `c` by `c` puts exactly one `c` between each two pieces.
proof fn lemma_join_count(p: Seq<Seq<char>>, c: char)
    requires
        p.len() > 0,
        forall|i: int| 0 <= i < p.len() ==> count_char(#[trigger] p[i], c) == 0,
    ensures
        count_char(join(p, seq![c]), c) == p.len() - 1,
    decreases p.len(),
{
    if p.len() > 1 {
        lemma_join_count(p.drop_last(), c);
        let j = join(p.drop_last(), seq![c]);
        lemma_count_concat(j + seq![c], p.last(), c);
        lemma_count_concat(j, seq![c], c);
        assert(seq![c].drop_last() =~= Seq::<char>::empty());
        assert(seq![c].last() == c);
        assert(count_char(Seq::<char>::empty(), c) == 0);
        assert(count_char(seq![c], c) == 1);
    }
}

/// Resolved paths keep what was typed: the start path is the base, a dot and the whole
/// typed start (colons read as dots); for a range the end path is the base and a dot
/// followed by components that end with the whole typed end, so no component typed
/// after `-` is ever lost: `3-4:5` under `john` ends at `john.4.5`.
pub proof fn lemma_paths_keep_typed_components(base: Seq<char>, coords: Seq<char>)
    requires
        coords.len() > 0,
    ensures
        ({
            let p = split_on(replace_char(coords, ':', '.'), '-');
            let start = start_path_of(base, coords);
            &&& start.len() == base.len() + 1 + p[0].len()
            &&& start.take(base.len() + 1 as int) == base + seq!['.']
            &&& start.skip(base.len() + 1 as int) == p[0]
            &&& (p.len() > 1 <==> end_path_of(base, coords) is Some)
            &&& (end_path_of(base, coords) matches Some(e) ==> {
                &&& e.len() >= base.len() + 1 + p[1].len()
                &&& e.take(base.len() + 1 as int) == base + seq!['.']
                &&& e.skip(e.len() - p[1].len() as int) == p[1]
            })
        }),
{
    let n = replace_char(coords, ':', '.');
    let p = split_on(n, '-');
    lemma_split_on_len(n, '-');
    let start = start_path_of(base, coords);
    assert(start == base + seq!['.'] + p[0]);
    assert(start.take(base.len() + 1 as int) =~= base + seq!['.']);
    assert(start.skip(base.len() + 1 as int) =~= p[0]);
    if p.len() > 1 {
        let ss = split_on(p[0], '.');
        let es = split_on(p[1], '.');
        lemma_split_on_len(p[0], '.');
        lemma_split_on_len(p[1], '.');
        lemma_join_split(p[1], '.');
        let tail: Seq<char> = if es.len() < ss.len() {
            let pre = ss.take(ss.len() - es.len() as int);
            lemma_join_concat(pre, es, seq!['.']);
            join(pre + es, seq!['.'])
        } else {
            p[1]
        };
        let front: Seq<char> = if es.len() < ss.len() {
            join(ss.take(ss.len() - es.len() as int), seq!['.']) + seq!['.']
        } else {
            Seq::<char>::empty()
        };
        assert(tail =~= front + p[1]);
        let e = base + seq!['.'] + tail;
        assert(end_path_of(base, coords) == Some(e));
        assert(e.take(base.len() + 1 as int) =~= base + seq!['.']);
        assert(e.skip(e.len() - p[1].len() as int) =~= p[1]);
    }
}

/// A range end that inherits leading components from its start has exactly as many
/// components as the start: `17:2-3` ends at `17.3`, not at `3`.
pub proof fn lemma_inherited_end_matches_start(base: Seq<char>, coords: Seq<char>)
    requires
        coords.len() > 0,
        split_on(replace_char(coords, ':', '.'), '-').len() > 1,
        split_on(split_on(replace_char(coords, ':', '.'), '-')[1], '.').len() < split_on(
            split_on(replace_char(coords, ':', '.'), '-')[0],
            '.',
        ).len(),
    ensures
        end_path_of(base, coords) matches Some(e) && count_char(e, '.') == count_char(
            start_path_of(base, coords),
            '.',
        ),
{
    let parts = split_on(replace_char(coords, ':', '.'), '-');
    let ss = split_on(parts[0], '.');
    let es = split_on(parts[1], '.');
    let combined = ss.take(ss.len() - es.len() as int) + es;
    lemma_split_count(parts[0], '.');
    lemma_split_count(parts[1], '.');
    assert forall|i: int| 0 <= i < combined.len() implies count_char(#[trigger] combined[i], '.')
        == 0 by {
        if i < ss.len() - es.len() {
            assert(combined[i] == ss[i]);
        } else {
            assert(combined[i] == es[i - (ss.len() - es.len())]);
        }
    }
    lemma_join_count(combined, '.');
    lemma_count_concat(base + seq!['.'], join(combined, seq!['.']), '.');
    lemma_count_concat(base + seq!['.'], parts[0], '.');
    lemma_count_concat(base, seq!['.'], '.');
    assert(seq!['.'].drop_last() =~= Seq::<char>::empty());
    assert(seq!['.'].last() == '.');
    assert(count_char(Seq::<char>::empty(), '.') == 0);
}

} // verus!
