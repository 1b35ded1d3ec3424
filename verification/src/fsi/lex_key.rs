//! # Lexicographic keys of the scroll
//!
//! Words are positioned inside a macro container by short byte keys drawn from the
//! base-62 alphabet `0-9A-Za-z`, whose ASCII order is also its numeric order. Keys are
//! compared lexicographically (as byte slices compare), so sequential keys must sort
//! in the order of the indexes they were made from, and a key generated between two
//! others must sort between them.
use smallvec::SmallVec;
use vstd::prelude::*;

verus! {

// ---------------------------------------------------------------------------
// The key container (an outside collection, `smallvec::SmallVec`)
// ---------------------------------------------------------------------------

/// A key: a `smallvec::SmallVec<[u8; 16]>`, kept on the stack for short keys.
///
/// Its contents are known to the proofs only through `key_bytes` and the trusted
/// operations below, each a single call of the `smallvec` crate.
#[verifier::external_body]
#[derive(Debug)]
pub struct LexKeyBuf {
    inner: SmallVec<[u8; 16]>,
}

/// The bytes a key holds, in order.
pub uninterp spec fn key_bytes(k: LexKeyBuf) -> Seq<u8>;

/// An empty key container (`SmallVec::new`).
#[verifier::external_body]
pub(crate) fn key_new() -> (k: LexKeyBuf)
    ensures
        key_bytes(k) == Seq::<u8>::empty(),
{
    LexKeyBuf { inner: SmallVec::new() }
}

/// Appends a byte to a key container (`SmallVec::push`).
#[verifier::external_body]
pub(crate) fn key_push(k: &mut LexKeyBuf, b: u8)
    ensures
        key_bytes(*final(k)) == key_bytes(*old(k)).push(b),
{
    k.inner.push(b)
}

/// A key container holding a copy of `bytes` (`SmallVec::from_slice`).
#[verifier::external_body]
pub fn key_from_slice(bytes: &[u8]) -> (k: LexKeyBuf)
    ensures
        key_bytes(k) == bytes@,
{
    LexKeyBuf { inner: SmallVec::from_slice(bytes) }
}

/// The bytes of a key container as a slice (`SmallVec::as_slice`).
#[verifier::external_body]
pub fn key_as_slice(k: &LexKeyBuf) -> (s: &[u8])
    ensures
        s@ == key_bytes(*k),
{
    k.inner.as_slice()
}

/// A copy of a key container (`SmallVec::clone`).
#[verifier::external_body]
pub(crate) fn key_clone(k: &LexKeyBuf) -> (c: LexKeyBuf)
    ensures
        key_bytes(c) == key_bytes(*k),
{
    LexKeyBuf { inner: k.inner.clone() }
}

// ---------------------------------------------------------------------------
// Lexicographic order of byte sequences (the order of `[u8]` slices)
// ---------------------------------------------------------------------------

/// `a` sorts strictly before `b`: at the first difference `a` has the smaller byte,
/// or `a` is a proper prefix of `b`.
pub open spec fn lex_lt(a: Seq<u8>, b: Seq<u8>) -> bool
    decreases a.len(),
{
    if a.len() == 0 {
        b.len() > 0
    } else if b.len() == 0 {
        false
    } else if a[0] != b[0] {
        a[0] < b[0]
    } else {
        lex_lt(a.drop_first(), b.drop_first())
    }
}

/// `a` sorts before or equal to `b`.
pub open spec fn lex_le(a: Seq<u8>, b: Seq<u8>) -> bool {
    a == b || lex_lt(a, b)
}

/// `a` is a prefix of `b`.
pub open spec fn is_prefix(a: Seq<u8>, b: Seq<u8>) -> bool {
    a.len() <= b.len() && b.take(a.len() as int) == a
}

/// Keys compare by their first differing byte: a key whose first byte is smaller sorts
/// first, and a key sorts before any longer key it begins.
pub proof fn lemma_lex_lt_bytes(a: Seq<u8>, b: Seq<u8>)
    ensures
        a.len() > 0 && b.len() > 0 && a[0] < b[0] ==> lex_lt(a, b),
        a.len() > 0 && b.len() > 0 && a[0] > b[0] ==> !lex_lt(a, b),
        a.len() < b.len() && b.take(a.len() as int) == a ==> lex_lt(a, b),
    decreases a.len(),
{
    if a.len() < b.len() && b.take(a.len() as int) == a && a.len() > 0 {
        assert(b.take(a.len() as int)[0] == b[0]);
        assert(b.drop_first().take(a.drop_first().len() as int) =~= a.drop_first()) by {
            assert forall|i: int| 0 <= i < a.drop_first().len() implies b.drop_first().take(
                a.drop_first().len() as int,
            )[i] == a.drop_first()[i] by {
                assert(b.take(a.len() as int)[i + 1] == a[i + 1]);
            }
        }
        lemma_lex_lt_bytes(a.drop_first(), b.drop_first());
    }
}

/// The order is irreflexive.
pub proof fn lemma_lex_lt_irreflexive(a: Seq<u8>)
    ensures
        !lex_lt(a, a),
    decreases a.len(),
{
    if a.len() > 0 {
        lemma_lex_lt_irreflexive(a.drop_first());
    }
}

/// The order is transitive.
pub proof fn lemma_lex_lt_transitive(a: Seq<u8>, b: Seq<u8>, c: Seq<u8>)
    requires
        lex_lt(a, b),
        lex_lt(b, c),
    ensures
        lex_lt(a, c),
    decreases a.len(),
{
    if a.len() > 0 && b.len() > 0 && c.len() > 0 && a[0] == b[0] && b[0] == c[0] {
        lemma_lex_lt_transitive(a.drop_first(), b.drop_first(), c.drop_first());
    }
}

/// The order is total: of two different sequences one sorts before the other.
pub proof fn lemma_lex_lt_total(a: Seq<u8>, b: Seq<u8>)
    ensures
        a == b || lex_lt(a, b) || lex_lt(b, a),
    decreases a.len(),
{
    if a.len() > 0 && b.len() > 0 && a[0] == b[0] {
        lemma_lex_lt_total(a.drop_first(), b.drop_first());
        if a.drop_first() == b.drop_first() {
            assert(a =~= seq![a[0]] + a.drop_first());
            assert(b =~= seq![b[0]] + b.drop_first());
        }
    } else if a.len() == 0 && b.len() == 0 {
        assert(a =~= b);
    }
}

/// At most one of `a < b` and `b < a` holds.
pub proof fn lemma_lex_lt_asymmetric(a: Seq<u8>, b: Seq<u8>)
    ensures
        !(lex_lt(a, b) && lex_lt(b, a)),
{
    if lex_lt(a, b) && lex_lt(b, a) {
        lemma_lex_lt_transitive(a, b, a);
        lemma_lex_lt_irreflexive(a);
    }
}

/// Whether `a` sorts strictly before `b` (`<` on byte slices).
pub fn lex_less(a: &[u8], b: &[u8]) -> (r: bool)
    ensures
        r == lex_lt(a@, b@),
{
    let mut i: usize = 0;
    assert(a@.skip(0) =~= a@);
    assert(b@.skip(0) =~= b@);
    while i < a.len() && i < b.len() && a[i] == b[i]
        invariant
            i <= a@.len(),
            i <= b@.len(),
            lex_lt(a@, b@) == lex_lt(a@.skip(i as int), b@.skip(i as int)),
        decreases a@.len() - i,
    {
        let ghost x = a@.skip(i as int);
        let ghost y = b@.skip(i as int);
        assert(x.drop_first() =~= a@.skip(i + 1));
        assert(y.drop_first() =~= b@.skip(i + 1));
        i = i + 1;
    }
    if i == a.len() {
        i < b.len()
    } else if i == b.len() {
        false
    } else {
        a[i] < b[i]
    }
}

// ---------------------------------------------------------------------------
// Sequential keys
// ---------------------------------------------------------------------------

/// The base-62 digit alphabet, sorted by ASCII value: `0-9`, then `A-Z`, then `a-z`.
pub open spec fn alphabet(d: nat) -> u8 {
    if d < 10 {
        (48 + d) as u8
    } else if d < 36 {
        (65 + d - 10) as u8
    } else {
        (97 + d - 36) as u8
    }
}

/// The base-62 digits of `n`, most significant first, without leading zeros.
pub open spec fn base62_digits(n: nat) -> Seq<u8>
    decreases n,
{
    if n < 62 {
        seq![alphabet(n)]
    } else {
        base62_digits(n / 62).push(alphabet(n % 62))
    }
}

/// `count` copies of the `0` digit.
pub open spec fn zeros(count: nat) -> Seq<u8> {
    Seq::new(count, |i: int| 48u8)
}

/// The key of the `n`-th word: `"0"` for the first; otherwise the
/// base-62 digits of `n`, padded on the left with `0` to at least five characters.
pub open spec fn sequential_key(n: nat) -> Seq<u8> {
    if n == 0 {
        seq![48u8]
    } else {
        let d = base62_digits(n);
        if d.len() < 5 {
            zeros((5 - d.len()) as nat) + d
        } else {
            d
        }
    }
}

/// 62 to the power `w`.
pub open spec fn pow62(w: nat) -> nat
    decreases w,
{
    if w == 0 {
        1
    } else {
        62 * pow62((w - 1) as nat)
    }
}

/// The last `w` base-62 digits of `n` (fixed width, leading zeros kept).
pub open spec fn fixed_digits(n: nat, w: nat) -> Seq<u8>
    decreases w,
{
    if w == 0 {
        Seq::<u8>::empty()
    } else {
        fixed_digits(n / 62, (w - 1) as nat).push(alphabet(n % 62))
    }
}

/// The alphabet is strictly increasing.
proof fn lemma_alphabet_monotone(a: nat, b: nat)
    requires
        a < b < 62,
    ensures
        alphabet(a) < alphabet(b),
{
}

/// Digits of the alphabet are at least `0`.
proof fn lemma_alphabet_min(a: nat)
    requires
        a < 62,
    ensures
        alphabet(a) >= 48,
        a > 0 ==> alphabet(a) > 48,
{
}

/// Zero in fixed width is all `0` digits.
proof fn lemma_fixed_digits_zero(w: nat)
    ensures
        fixed_digits(0, w) == zeros(w),
    decreases w,
{
    if w > 0 {
        lemma_fixed_digits_zero((w - 1) as nat);
        assert(fixed_digits(0, w) =~= zeros(w));
    }
}

proof fn lemma_pow62_positive(w: nat)
    ensures
        pow62(w) >= 1,
    decreases w,
{
    if w > 0 {
        lemma_pow62_positive((w - 1) as nat);
    }
}

/// Dividing by 62 lowers the power bound by one.
proof fn lemma_div62_bound(n: nat, w: nat)
    requires
        w > 0,
        n < pow62(w),
    ensures
        n / 62 < pow62((w - 1) as nat),
{
    let p = pow62((w - 1) as nat);
    assert(pow62(w) == 62 * p);
    assert(n / 62 < p) by (nonlinear_arith)
        requires
            n < 62 * p,
    ;
}

/// The base-62 digits of a number below `62^w` fit in `w` characters, and padding them
/// with zeros gives the fixed-width digits.
proof fn lemma_padded_is_fixed(n: nat, w: nat)
    requires
        n >= 1,
        n < pow62(w),
    ensures
        base62_digits(n).len() <= w,
        zeros((w - base62_digits(n).len()) as nat) + base62_digits(n) == fixed_digits(n, w),
    decreases w,
{
    lemma_pow62_positive(w);
    if w == 0 {
        assert(false);
    } else {
        lemma_div62_bound(n, w);
        if n < 62 {
            lemma_fixed_digits_zero((w - 1) as nat);
            assert(n / 62 == 0);
            assert(zeros((w - 1) as nat).push(alphabet(n)) =~= zeros((w - 1) as nat) + seq![
                alphabet(n),
            ]);
        } else {
            lemma_padded_is_fixed(n / 62, (w - 1) as nat);
            let d = base62_digits(n / 62);
            let z = zeros((w - 1 - d.len()) as nat);
            assert((z + d).push(alphabet(n % 62)) =~= z + d.push(alphabet(n % 62)));
        }
    }
}

/// Appending one byte to two equally long sequences keeps a strict order between them.
proof fn lemma_lex_lt_push(a: Seq<u8>, b: Seq<u8>, x: u8, y: u8)
    requires
        a.len() == b.len(),
        lex_lt(a, b),
    ensures
        lex_lt(a.push(x), b.push(y)),
    decreases a.len(),
{
    if a.len() > 0 && a[0] == b[0] {
        lemma_lex_lt_push(a.drop_first(), b.drop_first(), x, y);
        assert(a.push(x).drop_first() =~= a.drop_first().push(x));
        assert(b.push(y).drop_first() =~= b.drop_first().push(y));
    }
}

/// Equal prefixes followed by a smaller byte sort first.
proof fn lemma_lex_lt_same_prefix(p: Seq<u8>, x: u8, y: u8)
    requires
        x < y,
    ensures
        lex_lt(p.push(x), p.push(y)),
    decreases p.len(),
{
    if p.len() > 0 {
        lemma_lex_lt_same_prefix(p.drop_first(), x, y);
        assert(p.push(x).drop_first() =~= p.drop_first().push(x));
        assert(p.push(y).drop_first() =~= p.drop_first().push(y));
    }
}

/// Fixed-width digits sort in numeric order.
proof fn lemma_fixed_digits_ordered(i: nat, j: nat, w: nat)
    requires
        i < j < pow62(w),
    ensures
        lex_lt(fixed_digits(i, w), fixed_digits(j, w)),
    decreases w,
{
    lemma_pow62_positive(w);
    if w == 0 {
        assert(false);
    } else {
        let w1 = (w - 1) as nat;
        lemma_div62_bound(j, w);
        lemma_fixed_len(i / 62, w1);
        lemma_fixed_len(j / 62, w1);
        if i / 62 < j / 62 {
            lemma_fixed_digits_ordered(i / 62, j / 62, w1);
            lemma_lex_lt_push(
                fixed_digits(i / 62, w1),
                fixed_digits(j / 62, w1),
                alphabet(i % 62),
                alphabet(j % 62),
            );
        } else {
            assert(i / 62 == j / 62);
            assert(i % 62 < j % 62);
            lemma_alphabet_monotone(i % 62, j % 62);
            lemma_lex_lt_same_prefix(fixed_digits(i / 62, w1), alphabet(i % 62), alphabet(j % 62));
        }
    }
}

proof fn lemma_fixed_len(n: nat, w: nat)
    ensures
        fixed_digits(n, w).len() == w,
    decreases w,
{
    if w > 0 {
        lemma_fixed_len(n / 62, (w - 1) as nat);
    }
}

/// A nonzero key below `62^5` is its five fixed-width digits.
proof fn lemma_key_is_fixed(n: nat)
    requires
        1 <= n < pow62(5),
    ensures
        sequential_key(n) == fixed_digits(n, 5),
{
    lemma_padded_is_fixed(n, 5);
    let d = base62_digits(n);
    if d.len() >= 5 {
        assert(zeros(0) + d =~= d);
    }
}

/// Sequential keys sort in the order of their indexes, for every index below `62^5`
/// (916,132,832): the key of `i` sorts strictly before the key of `j` whenever `i < j`.
pub proof fn lemma_sequential_keys_ordered(i: nat, j: nat)
    requires
        i < j < pow62(5),
    ensures
        lex_lt(sequential_key(i), sequential_key(j)),
{
    lemma_key_is_fixed(j);
    lemma_fixed_len(j, 5);
    if i == 0 {
        // "0" against five digits whose first is at least '0'.
        let k = fixed_digits(j, 5);
        lemma_fixed_first_digit(j, 5);
        let a = sequential_key(0);
        assert(a.len() == 1);
        if a[0] == k[0] {
            assert(a.drop_first().len() == 0);
            assert(k.drop_first().len() == 4);
            assert(lex_lt(a.drop_first(), k.drop_first()));
        }
        assert(lex_lt(a, k));
    } else {
        lemma_key_is_fixed(i);
        lemma_fixed_digits_ordered(i, j, 5);
    }
}

/// Every fixed-width digit is an alphabet character, hence at least `0`.
proof fn lemma_fixed_first_digit(n: nat, w: nat)
    requires
        w > 0,
    ensures
        fixed_digits(n, w)[0] >= 48,
    decreases w,
{
    if w == 1 {
        assert(fixed_digits(n / 62, 0).len() == 0);
        lemma_alphabet_min(n % 62);
    } else {
        lemma_fixed_first_digit(n / 62, (w - 1) as nat);
        lemma_fixed_len(n / 62, (w - 1) as nat);
    }
}

/// The alphabet character for a digit value.
fn alphabet_char(d: usize) -> (b: u8)
    requires
        d < 62,
    ensures
        b == alphabet(d as nat),
{
    if d < 10 {
        (48 + d) as u8
    } else if d < 36 {
        (65 + d - 10) as u8
    } else {
        (97 + d - 36) as u8
    }
}

/// The number of base-62 digits of `n`.
fn digit_count(n: usize) -> (c: usize)
    ensures
        c == base62_digits(n as nat).len(),
        c <= 11,
    decreases n,
{
    if n < 62 {
        1
    } else {
        let c = digit_count(n / 62);
        proof {
            lemma_base62_len_bound(n as nat);
        }
        c + 1
    }
}

/// A number below `2^64` has at most eleven base-62 digits.
proof fn lemma_base62_len_bound(n: nat)
    requires
        n <= usize::MAX,
    ensures
        base62_digits(n).len() <= 11,
{
    reveal_with_fuel(pow62, 12);
    assert(pow62(11) == 52036560683837093888nat);
    lemma_base62_len_pow(n, 11);
}

proof fn lemma_base62_len_pow(n: nat, w: nat)
    requires
        w >= 1,
        n < pow62(w),
    ensures
        base62_digits(n).len() <= w,
    decreases n,
{
    lemma_pow62_positive(w);
    if n >= 62 {
        lemma_div62_bound(n, w);
        if w == 1 {
            assert(pow62(1) == 62 * pow62(0));
        }
        lemma_base62_len_pow(n / 62, (w - 1) as nat);
    }
}

/// Appends the base-62 digits of `n` to a key.
fn push_base62(k: &mut LexKeyBuf, n: usize)
    ensures
        key_bytes(*final(k)) == key_bytes(*old(k)) + base62_digits(n as nat),
    decreases n,
{
    if n >= 62 {
        push_base62(k, n / 62);
    }
    key_push(k, alphabet_char(n % 62));
    proof {
        if n >= 62 {
            assert(key_bytes(*k) =~= key_bytes(*old(k)) + base62_digits(n as nat));
        } else {
            assert(key_bytes(*k) =~= key_bytes(*old(k)) + base62_digits(n as nat));
        }
    }
}

/// The key of the `index`-th word in a container.
///
/// Keys are base-62, padded with `0` to five characters so that they sort like their
/// indexes; index 0 has the one-character key `"0"`.
pub fn generate_sequential(index: usize) -> (k: LexKeyBuf)
    ensures
        key_bytes(k) == sequential_key(index as nat),
{
    let mut k = key_new();
    if index == 0 {
        key_push(&mut k, 48u8);
        assert(key_bytes(k) =~= seq![48u8]);
        return k;
    }
    let count = digit_count(index);
    let mut pad: usize = 0;
    while count + pad < 5
        invariant
            count <= 11,
            count + pad <= 5 || pad == 0,
            key_bytes(k) == zeros(pad as nat),
        decreases 5 - count - pad,
    {
        key_push(&mut k, 48u8);
        pad = pad + 1;
        assert(key_bytes(k) =~= zeros(pad as nat));
    }
    push_base62(&mut k, index);
    proof {
        let d = base62_digits(index as nat);
        if d.len() >= 5 {
            assert(zeros(0) + d =~= d);
        }
    }
    k
}

/// Whether `a` is a prefix of `b`.
fn prefix_of(a: &[u8], b: &[u8]) -> (r: bool)
    ensures
        r == is_prefix(a@, b@),
{
    if a.len() > b.len() {
        return false;
    }
    let mut i: usize = 0;
    while i < a.len()
        invariant
            i <= a@.len() <= b@.len(),
            forall|j: int| 0 <= j < i ==> a@[j] == b@[j],
        decreases a@.len() - i,
    {
        if a[i] != b[i] {
            assert(b@.take(a@.len() as int)[i as int] != a@[i as int]);
            return false;
        }
        i = i + 1;
    }
    assert(b@.take(a@.len() as int) =~= a@);
    true
}

/// The key `midpoint` gives for the neighbours `prev` and `next`: `prev` with the digit
/// `1` appended, unless `next` is `prev` followed by a tail that does not sort after
/// `"1"`; then `prev` followed by the first byte of that tail lowered by one, or by a
/// zero byte when that first byte is zero and the tail goes on. When `next` is `prev`
/// followed by a single zero byte no key lies between them, and the digit `1` is
/// appended.
pub open spec fn midpoint_key(prev: Seq<u8>, next: Seq<u8>) -> Seq<u8> {
    if is_prefix(prev, next) && next.len() > prev.len() {
        let t0 = next[prev.len() as int];
        if t0 > 49 || (t0 == 49 && next.len() > prev.len() + 1) {
            prev.push(49u8)
        } else if t0 > 0 {
            prev.push((t0 - 1) as u8)
        } else if next.len() > prev.len() + 1 {
            prev.push(0u8)
        } else {
            prev.push(49u8)
        }
    } else {
        prev.push(49u8)
    }
}

/// A key to insert between the keys `prev` and `next`.
///
/// Whenever `prev` sorts before `next` and some key lies between them (that is, unless
/// `next` is `prev` followed by a single zero byte), the key sorts strictly between.
pub fn midpoint(prev: &[u8], next: &[u8]) -> (k: LexKeyBuf)
    ensures
        key_bytes(k) == midpoint_key(prev@, next@),
        lex_lt(prev@, next@) && next@ != prev@.push(0u8) ==> lex_lt(prev@, key_bytes(k))
            && lex_lt(key_bytes(k), next@),
{
    let mut k = key_from_slice(prev);
    let n = prev.len();
    let mut d: u8 = alphabet_char(1);
    if next.len() > n && prefix_of(prev, next) {
        let t0 = next[n];
        if t0 > 49 || (t0 == 49 && next.len() > n + 1) {
        } else if t0 > 0 {
            d = t0 - 1;
        } else if next.len() > n + 1 {
            d = 0;
        }
    }
    key_push(&mut k, d);
    proof {
        if lex_lt(prev@, next@) && next@ != prev@.push(0u8) {
            lemma_midpoint_between(prev@, next@);
        }
    }
    k
}

/// Appending a byte to a key gives a key sorting after it.
pub proof fn lemma_lex_lt_extension(prev: Seq<u8>, x: u8)
    ensures
        lex_lt(prev, prev.push(x)),
    decreases prev.len(),
{
    if prev.len() > 0 {
        lemma_lex_lt_extension(prev.drop_first(), x);
        assert(prev.push(x).drop_first() =~= prev.drop_first().push(x));
    }
}

/// Keys sharing a prefix sort as their tails do.
pub proof fn lemma_lex_lt_common_prefix(p: Seq<u8>, a: Seq<u8>, b: Seq<u8>)
    ensures
        lex_lt(p + a, p + b) == lex_lt(a, b),
    decreases p.len(),
{
    if p.len() > 0 {
        lemma_lex_lt_common_prefix(p.drop_first(), a, b);
        assert((p + a).drop_first() =~= p.drop_first() + a);
        assert((p + b).drop_first() =~= p.drop_first() + b);
    } else {
        assert(p + a =~= a);
        assert(p + b =~= b);
    }
}

/// The midpoint key lies strictly between its neighbours whenever some key does: for
/// every `prev` before `next`, unless `next` is `prev` followed by a single zero byte.
pub proof fn lemma_midpoint_between(prev: Seq<u8>, next: Seq<u8>)
    requires
        lex_lt(prev, next),
        next != prev.push(0u8),
    ensures
        lex_lt(prev, midpoint_key(prev, next)),
        lex_lt(midpoint_key(prev, next), next),
{
    let m = midpoint_key(prev, next);
    if is_prefix(prev, next) && next.len() > prev.len() {
        let s = next.skip(prev.len() as int);
        let x = m.last();
        assert(m =~= prev.push(x));
        assert(next =~= prev + s);
        assert(prev.push(x) =~= prev + seq![x]);
        lemma_lex_lt_extension(prev, x);
        lemma_lex_lt_common_prefix(prev, seq![x], s);
        assert(s[0] == next[prev.len() as int]);
        if s.len() == 1 && s[0] == 0 {
            assert(next =~= prev.push(0u8));
        }
        let one = seq![x];
        assert(one.drop_first() =~= Seq::<u8>::empty());
        assert(one.len() == 1 && one[0] == x);
        let t0 = s[0];
        if t0 > 49 || (t0 == 49 && s.len() > 1) {
            assert(x == 49u8);
        } else if t0 > 0 {
            assert(x == (t0 - 1) as u8);
        } else {
            assert(s.len() > 1);
            assert(x == 0u8);
            assert(lex_lt(one.drop_first(), s.drop_first()));
        }
        assert(lex_lt(one, s));
    } else {
        if is_prefix(prev, next) {
            assert(next =~= prev);
            lemma_lex_lt_irreflexive(prev);
        }
        lemma_midpoint_after_prev(prev);
        lemma_midpoint_before_next(prev, next);
    }
}

/// No key lies strictly between a key and the same key followed by a zero byte.
pub proof fn lemma_nothing_between_zero_extension(prev: Seq<u8>, k: Seq<u8>)
    ensures
        !(lex_lt(prev, k) && lex_lt(k, prev.push(0u8))),
    decreases prev.len(),
{
    if prev.len() > 0 {
        assert(prev.push(0u8)[0] == prev[0]);
    }
    if prev.len() > 0 && k.len() > 0 && k[0] == prev[0] {
        lemma_nothing_between_zero_extension(prev.drop_first(), k.drop_first());
        assert(prev.push(0u8).drop_first() =~= prev.drop_first().push(0u8));
    } else if prev.len() == 0 && k.len() > 0 {
        assert(prev.push(0u8) =~= seq![0u8]);
        assert(prev.push(0u8).drop_first() =~= Seq::<u8>::empty());
        assert(!lex_lt(k.drop_first(), prev.push(0u8).drop_first()));
    }
}

/// A midpoint key sorts after the key before it.
pub proof fn lemma_midpoint_after_prev(prev: Seq<u8>)
    ensures
        lex_lt(prev, prev.push(49u8)),
    decreases prev.len(),
{
    if prev.len() > 0 {
        lemma_midpoint_after_prev(prev.drop_first());
        assert(prev.push(49u8).drop_first() =~= prev.drop_first().push(49u8));
    }
}

/// A midpoint key sorts before the key after it, unless the key before is a prefix of
/// the key after.
pub proof fn lemma_midpoint_before_next(prev: Seq<u8>, next: Seq<u8>)
    requires
        lex_lt(prev, next),
        !is_prefix(prev, next),
    ensures
        lex_lt(prev.push(49u8), next),
    decreases prev.len(),
{
    if prev.len() == 0 {
        assert(next.take(0) =~= prev);
    } else if next.len() > 0 && prev[0] == next[0] {
        if is_prefix(prev.drop_first(), next.drop_first()) {
            assert(next.take(prev.len() as int) =~= prev) by {
                assert forall|i: int| 0 <= i < prev.len() implies next.take(
                    prev.len() as int,
                )[i] == prev[i] by {
                    if i > 0 {
                        assert(next.drop_first().take(prev.len() - 1)[i - 1] == prev.drop_first()[i
                            - 1]);
                    }
                }
            }
        }
        lemma_midpoint_before_next(prev.drop_first(), next.drop_first());
        assert(prev.push(49u8).drop_first() =~= prev.drop_first().push(49u8));
    }
}

} // verus!
