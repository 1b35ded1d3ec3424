//! # Scroll assembly
//!
//! Turns a sequence of word atoms back into readable text: words separated by single
//! spaces, each structural marker opening a new line as `[marker]`.
use vstd::prelude::*;
use crate::fsi::lex_key::{
    lemma_lex_lt_irreflexive, lemma_sequential_keys_ordered, lex_lt, pow62, sequential_key,
};
use crate::fsi::scroll::{atom_views, key_of, AtomView, ScriptureAtom, SubMask};
use crate::fsi::seeder::{run, segment_atoms, Segment};
use crate::repository::fsi_mock::{
    in_sequence, keep, lemma_keep_concat, lemma_keep_members, lemma_keep_none, stably_sorted,
    with_key,
};
use crate::text::{push_char, trim_end, trim_end_str, words};

verus! {

/// Whether an atom is a structural marker rather than a word.
pub open spec fn is_marker(a: AtomView) -> bool {
    a.0.3 & SubMask::STRUCTURAL_MARKER != 0
}

/// How one atom is rendered: a marker as a new line `[marker] `, a word followed by a
/// space.
pub open spec fn rendered(a: AtomView) -> Seq<char> {
    if is_marker(a) {
        seq!['\n', '['] + a.1 + seq![']', ' ']
    } else {
        a.1.push(' ')
    }
}

/// The atoms rendered one after another.
pub open spec fn rendered_all(s: Seq<AtomView>) -> Seq<char>
    decreases s.len(),
{
    if s.len() == 0 {
        Seq::<char>::empty()
    } else {
        rendered_all(s.drop_last()) + rendered(s.last())
    }
}

/// The reading text of a sequence of atoms, such as the sequence of one container read
/// from a repository: every atom rendered in order, trailing whitespace removed.
pub fn assemble_atoms(atoms: &Vec<ScriptureAtom>) -> (r: String)
    ensures
        r@ == trim_end(rendered_all(atom_views(atoms@))),
{
    let ghost views = atom_views(atoms@);
    let mut out = String::new();
    let mut i: usize = 0;
    while i < atoms.len()
        invariant
            0 <= i <= atoms@.len(),
            views == atom_views(atoms@),
            out@ == rendered_all(views.take(i as int)),
        decreases atoms@.len() - i,
    {
        let a = &atoms[i];
        assert(views.take(i + 1).drop_last() =~= views.take(i as int));
        assert(views.take(i + 1).last() == a@);
        if (a.coordinate.sub_mask.0 & SubMask::STRUCTURAL_MARKER) != 0 {
            push_char(&mut out, '\n');
            push_char(&mut out, '[');
            out.append(a.text_content.as_str());
            push_char(&mut out, ']');
            push_char(&mut out, ' ');
        } else {
            out.append(a.text_content.as_str());
            push_char(&mut out, ' ');
        }
        i = i + 1;
        assert(out@ =~= rendered_all(views.take(i as int)));
    }
    assert(views.take(atoms@.len() as int) =~= views);
    trim_end_str(out.as_str())
}

// ---------------------------------------------------------------------------
// Reading back what was seeded
// ---------------------------------------------------------------------------

/// The atoms of a run of segments of one container, seeded from position 0: each
/// segment's marker takes the position after the atoms before it.
pub open spec fn segments_atoms(
    work: i32,
    macro_id: i32,
    namespace: i16,
    mask: u16,
    segs: Seq<(Seq<char>, Seq<char>)>,
) -> Seq<AtomView>
    decreases segs.len(),
{
    if segs.len() == 0 {
        Seq::<AtomView>::empty()
    } else {
        let before = segments_atoms(work, macro_id, namespace, mask, segs.drop_last());
        before + segment_atoms(
            work,
            macro_id,
            namespace,
            mask,
            before.len(),
            segs.last().0,
            segs.last().1,
        )
    }
}

/// Words each followed by a space.
pub open spec fn words_rendered(ws: Seq<Seq<char>>) -> Seq<char>
    decreases ws.len(),
{
    if ws.len() == 0 {
        Seq::<char>::empty()
    } else {
        words_rendered(ws.drop_last()) + ws.last().push(' ')
    }
}

/// The reading text of segments: each as a new line `[marker] ` followed by its words,
/// each word followed by a space.
pub open spec fn segments_text(segs: Seq<(Seq<char>, Seq<char>)>) -> Seq<char>
    decreases segs.len(),
{
    if segs.len() == 0 {
        Seq::<char>::empty()
    } else {
        segments_text(segs.drop_last()) + seq!['\n', '['] + segs.last().0 + seq![']', ' ']
            + words_rendered(words(segs.last().1))
    }
}

/// Keys strictly increase along `s`.
pub open spec fn keys_increasing(s: Seq<AtomView>) -> bool {
    forall|i: int, j: int| 0 <= i < j < s.len() ==> lex_lt(key_of(#[trigger] s[i]), key_of(#[trigger] s[j]))
}

proof fn lemma_rendered_concat(a: Seq<AtomView>, b: Seq<AtomView>)
    ensures
        rendered_all(a + b) == rendered_all(a) + rendered_all(b),
    decreases b.len(),
{
    if b.len() == 0 {
        assert(a + b =~= a);
        assert(rendered_all(a) + rendered_all(b) =~= rendered_all(a));
    } else {
        lemma_rendered_concat(a, b.drop_last());
        assert((a + b).drop_last() =~= a + b.drop_last());
        assert(rendered_all(a) + (rendered_all(b.drop_last()) + rendered(b.last())) =~= (
        rendered_all(a) + rendered_all(b.drop_last())) + rendered(b.last()));
    }
}

/// The word atoms of a segment render as its words, each followed by a space.
proof fn lemma_word_atoms_rendered(
    work: i32,
    macro_id: i32,
    namespace: i16,
    mask: u16,
    start: nat,
    ws: Seq<Seq<char>>,
    n: nat,
)
    requires
        n <= ws.len(),
        mask & SubMask::STRUCTURAL_MARKER == 0,
    ensures
        rendered_all(
            Seq::new(
                ws.len(),
                |i: int| ((work, macro_id, namespace, mask, sequential_key(start + 1 + i as nat)), ws[i]),
            ).take(n as int),
        ) == words_rendered(ws.take(n as int)),
    decreases n,
{
    let all = Seq::new(
        ws.len(),
        |i: int| ((work, macro_id, namespace, mask, sequential_key(start + 1 + i as nat)), ws[i]),
    );
    if n == 0 {
        assert(all.take(0) =~= Seq::<AtomView>::empty());
        assert(ws.take(0) =~= Seq::<Seq<char>>::empty());
    } else {
        lemma_word_atoms_rendered(work, macro_id, namespace, mask, start, ws, (n - 1) as nat);
        assert(all.take(n as int).drop_last() =~= all.take(n - 1));
        assert(ws.take(n as int).drop_last() =~= ws.take(n - 1));
        assert(all.take(n as int).last() == all[n - 1]);
    }
}

/// A segment's atoms render as its reading text, when words are not flagged as markers.
proof fn lemma_segment_rendered(
    work: i32,
    macro_id: i32,
    namespace: i16,
    mask: u16,
    start: nat,
    marker: Seq<char>,
    text: Seq<char>,
)
    requires
        mask & SubMask::STRUCTURAL_MARKER == 0,
    ensures
        rendered_all(segment_atoms(work, macro_id, namespace, mask, start, marker, text))
            == seq!['\n', '['] + marker + seq![']', ' '] + words_rendered(words(text)),
{
    let ws = words(text);
    let head = seq![
        ((work, macro_id, namespace, SubMask::STRUCTURAL_MARKER, sequential_key(start)), marker),
    ];
    let tail = Seq::new(
        ws.len(),
        |i: int| ((work, macro_id, namespace, mask, sequential_key(start + 1 + i as nat)), ws[i]),
    );
    assert(segment_atoms(work, macro_id, namespace, mask, start, marker, text) =~= head + tail);
    lemma_rendered_concat(head, tail);
    assert(head.drop_last() =~= Seq::<AtomView>::empty());
    assert(SubMask::STRUCTURAL_MARKER & SubMask::STRUCTURAL_MARKER != 0) by (bit_vector);
    assert(head.last() == head[0]);
    assert(is_marker(head[0]));
    assert(rendered_all(Seq::<AtomView>::empty()) =~= Seq::<char>::empty());
    assert(rendered_all(head) =~= seq!['\n', '['] + marker + seq![']', ' ']);
    lemma_word_atoms_rendered(work, macro_id, namespace, mask, start, ws, ws.len());
    assert(tail.take(ws.len() as int) =~= tail);
    assert(ws.take(ws.len() as int) =~= ws);
}

/// The atom at position `i` of seeded segments has the `i`-th sequential key, and the
/// segments render as their reading text.
proof fn lemma_segments_shape(
    work: i32,
    macro_id: i32,
    namespace: i16,
    mask: u16,
    segs: Seq<(Seq<char>, Seq<char>)>,
)
    requires
        mask & SubMask::STRUCTURAL_MARKER == 0,
    ensures
        forall|i: int|
            0 <= i < segments_atoms(work, macro_id, namespace, mask, segs).len() ==> key_of(
                #[trigger] segments_atoms(work, macro_id, namespace, mask, segs)[i],
            ) == sequential_key(i as nat),
        rendered_all(segments_atoms(work, macro_id, namespace, mask, segs)) == segments_text(segs),
    decreases segs.len(),
{
    if segs.len() > 0 {
        lemma_segments_shape(work, macro_id, namespace, mask, segs.drop_last());
        let before = segments_atoms(work, macro_id, namespace, mask, segs.drop_last());
        let seg = segment_atoms(
            work,
            macro_id,
            namespace,
            mask,
            before.len(),
            segs.last().0,
            segs.last().1,
        );
        let all = segments_atoms(work, macro_id, namespace, mask, segs);
        assert forall|i: int| 0 <= i < all.len() implies key_of(#[trigger] all[i])
            == sequential_key(i as nat) by {
            if i < before.len() {
                assert(all[i] == before[i]);
            } else {
                assert(all[i] == seg[i - before.len()]);
            }
        }
        lemma_rendered_concat(before, seg);
        lemma_segment_rendered(
            work,
            macro_id,
            namespace,
            mask,
            before.len(),
            segs.last().0,
            segs.last().1,
        );
    }
}

/// A stable sort of a sequence whose keys strictly increase leaves it unchanged.
pub proof fn lemma_stable_sort_of_increasing(s: Seq<AtomView>, out: Seq<AtomView>)
    requires
        keys_increasing(s),
        stably_sorted(s, out),
    ensures
        out == s,
    decreases s.len(),
{
    if s.len() == 0 {
        if out.len() > 0 {
            let k = key_of(out[0]);
            lemma_keep_members(out, |a: AtomView| key_of(a) == k);
            assert(with_key(out, k).contains(out[0]));
            assert(with_key(out, k) == with_key(s, k));
            assert(with_key(s, k).len() == 0);
        }
        assert(out =~= s);
    } else {
        let x = s.last();
        let kx = key_of(x);
        let px = |a: AtomView| key_of(a) == kx;
        let s0 = s.drop_last();
        // Only the last atom of `s` has the key `kx`.
        assert forall|i: int| 0 <= i < s0.len() implies !px(#[trigger] s0[i]) by {
            assert(s0[i] == s[i]);
            assert(lex_lt(key_of(s[i]), key_of(s[s.len() - 1])));
            lemma_lex_lt_irreflexive(kx);
        }
        lemma_keep_none(s0, px);
        assert(with_key(s, kx) =~= seq![x]);
        assert(with_key(out, kx) == seq![x]);
        lemma_keep_members(out, px);
        lemma_keep_members(s, |a: AtomView| key_of(a) == key_of(out.last()));
        assert(out.len() > 0);
        // `x` occurs in `out`, and nothing else in `out` has its key.
        assert(with_key(out, kx)[0] == x);
        assert(with_key(out, kx).contains(x));
        let i = choose|i: int| 0 <= i < out.len() && out[i] == x;
        let y = out.last();
        let ky = key_of(y);
        lemma_keep_members(out, |a: AtomView| key_of(a) == ky);
        assert(with_key(out, ky).contains(y));
        assert(with_key(out, ky) == with_key(s, ky));
        let j = choose|j: int| 0 <= j < s.len() && s[j] == with_key(s, ky)[0];
        assert(key_of(s[j]) == ky) by {
            assert(with_key(s, ky).contains(with_key(s, ky)[0]));
        }
        if ky != kx {
            // The key of the last atom of `out` sorts before `kx`, yet not before it.
            assert(j < s.len() - 1);
            assert(lex_lt(ky, kx));
            assert(i < out.len() - 1);
            assert(!lex_lt(key_of(out[out.len() - 1]), key_of(out[i])));
        }
        assert(with_key(out, kx).contains(y));
        assert(y == x);
        let o0 = out.drop_last();
        assert forall|a: int, b: int| 0 <= a < b < o0.len() implies !lex_lt(
            key_of(#[trigger] o0[b]),
            key_of(#[trigger] o0[a]),
        ) by {
            assert(o0[a] == out[a] && o0[b] == out[b]);
        }
        assert forall|k: Seq<u8>| #[trigger] with_key(o0, k) == with_key(s0, k) by {
            assert(with_key(out, k) == with_key(s, k));
            if k == kx {
                assert(with_key(out, k) == with_key(o0, k).push(x));
                assert(with_key(o0, k) =~= with_key(out, k).drop_last());
            }
        }
        assert forall|a: int, b: int| 0 <= a < b < s0.len() implies lex_lt(
            key_of(#[trigger] s0[a]),
            key_of(#[trigger] s0[b]),
        ) by {
            assert(s0[a] == s[a] && s0[b] == s[b]);
        }
        lemma_stable_sort_of_increasing(s0, o0);
        assert(out =~= o0.push(y));
        assert(s =~= s0.push(x));
    }
}

/// Seeding one more segment of a container: an ingestor that has seeded `segs` into the
/// container from position 0 stands at the position `segments_atoms(segs).len()`, and its
/// `process_segment` adds `segment_atoms` from that position, which is exactly how
/// `segments_atoms` of the longer list continues, moving the position past the marker and
/// the words of the segment.
pub proof fn lemma_segments_atoms_push(
    work: i32,
    macro_id: i32,
    namespace: i16,
    mask: u16,
    segs: Seq<(Seq<char>, Seq<char>)>,
    marker: Seq<char>,
    text: Seq<char>,
)
    ensures
        segments_atoms(work, macro_id, namespace, mask, segs.push((marker, text)))
            == segments_atoms(work, macro_id, namespace, mask, segs) + segment_atoms(
            work,
            macro_id,
            namespace,
            mask,
            segments_atoms(work, macro_id, namespace, mask, segs).len(),
            marker,
            text,
        ),
        segments_atoms(work, macro_id, namespace, mask, segs.push((marker, text))).len()
            == segments_atoms(work, macro_id, namespace, mask, segs).len() + 1 + words(text).len(),
{
    assert(segs.push((marker, text)).drop_last() =~= segs);
}

/// Reading back what was seeded: the atoms of segments of one container, seeded from
/// position 0 with word flags that do not mark structure, come back from any stable
/// sort by key exactly as they were seeded, and assemble to the segments' reading text
/// (each segment on a new line as `[marker] word word ...`, trailing space removed).
/// This holds while the container has at most `62^5` atoms, the range in which
/// sequential keys sort in order.
pub proof fn lemma_seeded_segments_read_back(
    work: i32,
    macro_id: i32,
    namespace: i16,
    mask: u16,
    segs: Seq<(Seq<char>, Seq<char>)>,
    out: Seq<AtomView>,
)
    requires
        mask & SubMask::STRUCTURAL_MARKER == 0,
        segments_atoms(work, macro_id, namespace, mask, segs).len() <= pow62(5),
        stably_sorted(segments_atoms(work, macro_id, namespace, mask, segs), out),
    ensures
        out == segments_atoms(work, macro_id, namespace, mask, segs),
        trim_end(rendered_all(out)) == trim_end(segments_text(segs)),
{
    let s = segments_atoms(work, macro_id, namespace, mask, segs);
    lemma_segments_shape(work, macro_id, namespace, mask, segs);
    assert forall|i: int, j: int| 0 <= i < j < s.len() implies lex_lt(
        key_of(#[trigger] s[i]),
        key_of(#[trigger] s[j]),
    ) by {
        lemma_sequential_keys_ordered(i as nat, j as nat);
    }
    lemma_stable_sort_of_increasing(s, out);
}

/// The markers and texts of segments, in order.
pub open spec fn segment_pairs(segs: Seq<Segment>) -> Seq<(Seq<char>, Seq<char>)> {
    Seq::new(segs.len(), |i: int| (segs[i].1, segs[i].2))
}

/// Filtering keeps everything when every element satisfies the predicate.
proof fn lemma_keep_all(s: Seq<AtomView>, p: spec_fn(AtomView) -> bool)
    requires
        forall|i: int| 0 <= i < s.len() ==> p(#[trigger] s[i]),
    ensures
        keep(s, p) == s,
    decreases s.len(),
{
    if s.len() > 0 {
        assert forall|i: int| 0 <= i < s.drop_last().len() implies p(#[trigger] s.drop_last()[i]) by {
            assert(s.drop_last()[i] == s[i]);
        }
        lemma_keep_all(s.drop_last(), p);
        assert(s.drop_last().push(s.last()) =~= s);
    }
}

/// Every atom seeded for segments of one container lies in that container, work and
/// namespace.
proof fn lemma_segments_atoms_place(
    work: i32,
    macro_id: i32,
    namespace: i16,
    mask: u16,
    segs: Seq<(Seq<char>, Seq<char>)>,
)
    ensures
        forall|i: int|
            0 <= i < segments_atoms(work, macro_id, namespace, mask, segs).len() ==> {
                let a = #[trigger] segments_atoms(work, macro_id, namespace, mask, segs)[i];
                a.0.0 == work && a.0.1 == macro_id && a.0.2 == namespace
            },
    decreases segs.len(),
{
    if segs.len() > 0 {
        lemma_segments_atoms_place(work, macro_id, namespace, mask, segs.drop_last());
        let before = segments_atoms(work, macro_id, namespace, mask, segs.drop_last());
        let seg = segment_atoms(work, macro_id, namespace, mask, before.len(), segs.last().0, segs.last().1);
        let all = segments_atoms(work, macro_id, namespace, mask, segs);
        assert forall|i: int| 0 <= i < all.len() implies {
            let a = #[trigger] all[i];
            a.0.0 == work && a.0.1 == macro_id && a.0.2 == namespace
        } by {
            if i < before.len() {
                assert(all[i] == before[i]);
            } else {
                assert(all[i] == seg[i - before.len()]);
            }
        }
    }
}

/// Segments fed after a run add atoms only of their own containers: the atoms of the
/// run come first, unchanged, and none of the later ones lies in a container `m` that
/// none of the later segments names. The atoms of any run lie in its work and namespace.
proof fn lemma_run_suffix(work: i32, namespace: i16, mask: u16, a: Seq<Segment>, b: Seq<Segment>, m: i32)
    requires
        forall|j: int| 0 <= j < b.len() ==> (#[trigger] b[j]).0 != m,
    ensures
        run(work, namespace, mask, a + b).2.len() >= run(work, namespace, mask, a).2.len(),
        run(work, namespace, mask, a + b).2.subrange(0, run(work, namespace, mask, a).2.len() as int)
            == run(work, namespace, mask, a).2,
        forall|i: int|
            run(work, namespace, mask, a).2.len() <= i < run(work, namespace, mask, a + b).2.len()
                ==> (#[trigger] run(work, namespace, mask, a + b).2[i]).0.1 != m,
    decreases b.len(),
{
    let ra = run(work, namespace, mask, a).2;
    if b.len() == 0 {
        assert(a + b =~= a);
        assert(ra.subrange(0, ra.len() as int) =~= ra);
    } else {
        let b0 = b.drop_last();
        assert forall|j: int| 0 <= j < b0.len() implies (#[trigger] b0[j]).0 != m by {
            assert(b0[j] == b[j]);
        }
        lemma_run_suffix(work, namespace, mask, a, b0, m);
        assert((a + b).drop_last() =~= a + b0);
        assert((a + b).last() == b.last());
        let prev = run(work, namespace, mask, a + b0);
        let seg = b.last();
        let start: nat = if seg.0 != prev.0 {
            0
        } else {
            prev.1
        };
        let add = segment_atoms(work, seg.0, namespace, mask, start, seg.1, seg.2);
        let all = run(work, namespace, mask, a + b).2;
        assert(all == prev.2 + add);
        assert(all.subrange(0, ra.len() as int) =~= prev.2.subrange(0, ra.len() as int));
        assert forall|i: int| ra.len() <= i < all.len() implies (#[trigger] all[i]).0.1 != m by {
            if i < prev.2.len() {
                assert(all[i] == prev.2[i]);
            } else {
                assert(all[i] == add[i - prev.2.len()]);
            }
        }
    }
}

/// A run whose earlier segments never name the container `m`, followed by segments all in
/// `m`: those add exactly the seeded atoms of their markers and texts, from position 0.
proof fn lemma_run_block(
    work: i32,
    namespace: i16,
    mask: u16,
    m: i32,
    pre: Seq<Segment>,
    mid: Seq<Segment>,
)
    requires
        forall|j: int| 0 <= j < pre.len() ==> (#[trigger] pre[j]).0 != m,
        forall|j: int| 0 <= j < mid.len() ==> (#[trigger] mid[j]).0 == m,
    ensures
        run(work, namespace, mask, pre + mid).2 == run(work, namespace, mask, pre).2 + segments_atoms(
            work,
            m,
            namespace,
            mask,
            segment_pairs(mid),
        ),
        mid.len() > 0 ==> run(work, namespace, mask, pre + mid).0 == m,
        mid.len() > 0 ==> run(work, namespace, mask, pre + mid).1 == segments_atoms(
            work,
            m,
            namespace,
            mask,
            segment_pairs(mid),
        ).len(),
    decreases mid.len(),
{
    let rp = run(work, namespace, mask, pre);
    if mid.len() == 0 {
        assert(pre + mid =~= pre);
        assert(segment_pairs(mid) =~= Seq::<(Seq<char>, Seq<char>)>::empty());
        assert(rp.2 + Seq::<AtomView>::empty() =~= rp.2);
    } else {
        let m0 = mid.drop_last();
        assert forall|j: int| 0 <= j < m0.len() implies (#[trigger] m0[j]).0 == m by {
            assert(m0[j] == mid[j]);
        }
        lemma_run_block(work, namespace, mask, m, pre, m0);
        assert((pre + mid).drop_last() =~= pre + m0);
        assert((pre + mid).last() == mid.last());
        let seg = mid.last();
        assert(seg == mid[mid.len() - 1]);
        assert(seg.0 == m);
        assert(segment_pairs(mid) =~= segment_pairs(m0).push((seg.1, seg.2)));
        lemma_segments_atoms_push(work, m, namespace, mask, segment_pairs(m0), seg.1, seg.2);
        let prev = run(work, namespace, mask, pre + m0);
        let before = segments_atoms(work, m, namespace, mask, segment_pairs(m0));
        if m0.len() == 0 {
            assert(pre + m0 =~= pre);
            assert(segment_pairs(m0) =~= Seq::<(Seq<char>, Seq<char>)>::empty());
            if pre.len() > 0 {
                assert(pre.last() == pre[pre.len() - 1]);
                assert(prev.0 == pre.last().0);
            }
            // The container changes, or nothing was collected yet: the positions start at 0.
            assert((if seg.0 != prev.0 { 0 } else { prev.1 }) == before.len());
        }
        let start: nat = if seg.0 != prev.0 {
            0
        } else {
            prev.1
        };
        assert(start == before.len());
        let add = segment_atoms(work, m, namespace, mask, start, seg.1, seg.2);
        assert(run(work, namespace, mask, pre + mid).2 == prev.2 + add);
        assert(rp.2 + before + add =~= rp.2 + (before + add));
    }
}

/// Seeding, then reading back, over a whole run: when the segments of container `m` are
/// fed one after another (no segment before or after them names `m`), the atoms of `m`
/// in the work and namespace, read back in any stable order by key, are exactly the
/// atoms those segments seed from position 0, and they assemble to the segments' reading
/// text. This holds for word flags that do not mark structure, while the container has
/// at most `62^5` atoms.
pub proof fn lemma_run_reads_back(
    work: i32,
    namespace: i16,
    mask: u16,
    m: i32,
    pre: Seq<Segment>,
    mid: Seq<Segment>,
    post: Seq<Segment>,
    out: Seq<AtomView>,
)
    requires
        mask & SubMask::STRUCTURAL_MARKER == 0,
        forall|j: int| 0 <= j < pre.len() ==> (#[trigger] pre[j]).0 != m,
        forall|j: int| 0 <= j < mid.len() ==> (#[trigger] mid[j]).0 == m,
        forall|j: int| 0 <= j < post.len() ==> (#[trigger] post[j]).0 != m,
        segments_atoms(work, m, namespace, mask, segment_pairs(mid)).len() <= pow62(5),
        stably_sorted(
            keep(
                run(work, namespace, mask, pre + mid + post).2,
                |a: AtomView| in_sequence(a, work, m, namespace, None, None),
            ),
            out,
        ),
    ensures
        out == segments_atoms(work, m, namespace, mask, segment_pairs(mid)),
        trim_end(rendered_all(out)) == trim_end(segments_text(segment_pairs(mid))),
{
    let p = |a: AtomView| in_sequence(a, work, m, namespace, None, None);
    let seeded = segments_atoms(work, m, namespace, mask, segment_pairs(mid));
    let rp = run(work, namespace, mask, pre).2;
    let rpm = run(work, namespace, mask, pre + mid).2;
    let all = run(work, namespace, mask, pre + mid + post).2;
    lemma_run_block(work, namespace, mask, m, pre, mid);
    lemma_run_suffix(work, namespace, mask, Seq::<Segment>::empty(), pre, m);
    assert(Seq::<Segment>::empty() + pre =~= pre);
    lemma_run_suffix(work, namespace, mask, pre + mid, post, m);
    // The atoms of the run: those before `m`, those of `m`, those after.
    let tail = all.subrange(rpm.len() as int, all.len() as int);
    assert(all =~= rp + seeded + tail);
    assert forall|i: int| 0 <= i < rp.len() implies !p(#[trigger] rp[i]) by {
        assert(run(work, namespace, mask, Seq::<Segment>::empty()).2.len() == 0);
    }
    assert forall|i: int| 0 <= i < tail.len() implies !p(#[trigger] tail[i]) by {
        assert(tail[i] == all[rpm.len() + i]);
    }
    lemma_segments_atoms_place(work, m, namespace, mask, segment_pairs(mid));
    assert forall|i: int| 0 <= i < seeded.len() implies p(#[trigger] seeded[i]) by {}
    lemma_keep_none(rp, p);
    lemma_keep_none(tail, p);
    lemma_keep_all(seeded, p);
    lemma_keep_concat(rp + seeded, tail, p);
    lemma_keep_concat(rp, seeded, p);
    assert(keep(all, p) =~= seeded);
    lemma_seeded_segments_read_back(work, m, namespace, mask, segment_pairs(mid), out);
}

} // verus!
