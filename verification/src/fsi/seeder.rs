//! # Seeding pipeline
//!
//! The `Ingestor` turns segments of text (a structural marker such as `AYAH:1` and the
//! words that follow it) into scroll atoms with sequential keys, restarting the key
//! sequence whenever the macro container changes. Atoms are collected in a batch that is
//! handed out for storage once it holds at least 5,000 atoms, and on `finish`.
use vstd::prelude::*;
use crate::fsi::lex_key::{generate_sequential, sequential_key};
use crate::fsi::scroll::{
    atom_views, duplicate_atoms, AtomView, Coordinate, MacroID, NamespaceID, ScriptureAtom,
    SubMask, WorkID,
};
use crate::text::{
    chars_of, decimal, parse_i32, parse_i32_range, push_char, push_decimal, split_on,
    split_ranges, split_words, starts_with, string_of, trim, trim_range, words,
};

verus! {

/// The number of atoms at which a batch is handed out for storage.
pub const BATCH_LIMIT: usize = 5000;

/// The atom of a structural marker at word position `counter`.
pub open spec fn marker_atom(work: i32, macro_id: i32, namespace: i16, counter: nat, marker: Seq<char>) -> AtomView {
    ((work, macro_id, namespace, SubMask::STRUCTURAL_MARKER, sequential_key(counter)), marker)
}

/// The atom of a word at word position `counter`.
pub open spec fn word_atom(
    work: i32,
    macro_id: i32,
    namespace: i16,
    mask: u16,
    counter: nat,
    word: Seq<char>,
) -> AtomView {
    ((work, macro_id, namespace, mask, sequential_key(counter)), word)
}

/// The atoms of one segment whose marker takes position `start`: the marker, then each
/// whitespace-separated word of `text` at the following positions.
pub open spec fn segment_atoms(
    work: i32,
    macro_id: i32,
    namespace: i16,
    mask: u16,
    start: nat,
    marker: Seq<char>,
    text: Seq<char>,
) -> Seq<AtomView> {
    seq![marker_atom(work, macro_id, namespace, start, marker)] + Seq::new(
        words(text).len(),
        |i: int| word_atom(work, macro_id, namespace, mask, start + 1 + i as nat, words(text)[i]),
    )
}

/// A segment of source text: its macro container, its structural marker and its text.
pub type Segment = (i32, Seq<char>, Seq<char>);

/// Seeding `segs` one after another into a fresh ingestor of `work` and `namespace` whose
/// word atoms carry the flags `mask`: the container of the last segment, the position the
/// next atom takes, and every atom collected, in order. The positions restart at zero
/// whenever the container changes.
pub open spec fn run(work: i32, namespace: i16, mask: u16, segs: Seq<Segment>) -> (i32, nat, Seq<AtomView>)
    decreases segs.len(),
{
    if segs.len() == 0 {
        (0, 0, Seq::<AtomView>::empty())
    } else {
        let prev = run(work, namespace, mask, segs.drop_last());
        let seg = segs.last();
        let start: nat = if seg.0 != prev.0 {
            0
        } else {
            prev.1
        };
        (
            seg.0,
            start + 1 + words(seg.2).len(),
            prev.2 + segment_atoms(work, seg.0, namespace, mask, start, seg.1, seg.2),
        )
    }
}

/// Collects the atoms of one work and namespace, segment by segment.
pub struct Ingestor {
    work: WorkID,
    namespace: NamespaceID,
    base_mask: SubMask,
    current_macro: i32,
    word_counter: usize,
    batch: Vec<ScriptureAtom>,
    stored: Ghost<Seq<AtomView>>,
    fed: Ghost<Seq<Segment>>,
}

impl Ingestor {
    /// The work the atoms belong to.
    pub closed spec fn work(&self) -> i32 {
        self.work.0
    }

    /// The namespace the atoms belong to.
    pub closed spec fn namespace(&self) -> i16 {
        self.namespace.0
    }

    /// The flags given to word atoms.
    pub closed spec fn base_mask(&self) -> u16 {
        self.base_mask.0
    }

    /// The macro container of the last segment.
    pub closed spec fn current_macro(&self) -> i32 {
        self.current_macro
    }

    /// The position the next atom of the current container takes.
    pub closed spec fn word_counter(&self) -> nat {
        self.word_counter as nat
    }

    /// The atoms collected and not yet confirmed as stored.
    pub closed spec fn pending(&self) -> Seq<AtomView> {
        atom_views(self.batch@)
    }

    /// The atoms of the batches confirmed as stored, in order.
    pub closed spec fn stored(&self) -> Seq<AtomView> {
        self.stored@
    }

    /// Every atom collected so far, in order: those stored, then those pending.
    pub open spec fn produced(&self) -> Seq<AtomView> {
        self.stored() + self.pending()
    }

    /// The segments fed to the ingestor so far, in order.
    pub closed spec fn fed(&self) -> Seq<Segment> {
        self.fed@
    }

    /// The ingestor stands where seeding its segments from scratch leads: same container,
    /// same next position, and the atoms collected are those of the segments.
    pub closed spec fn wf(&self) -> bool {
        let r = run(self.work.0, self.namespace.0, self.base_mask.0, self.fed@);
        &&& self.current_macro == r.0
        &&& self.word_counter == r.1
        &&& self.produced() == r.2
    }

    /// The position the marker of a segment in container `macro_id` takes: the sequence
    /// restarts at zero when the container changes.
    pub open spec fn start_of(&self, macro_id: i32) -> nat {
        if macro_id != self.current_macro() {
            0
        } else {
            self.word_counter()
        }
    }

    /// The position the marker of a segment in container `macro_id` would take.
    pub fn position_for(&self, macro_id: i32) -> (p: usize)
        ensures
            p == self.start_of(macro_id),
    {
        if macro_id != self.current_macro {
            0
        } else {
            self.word_counter
        }
    }

    /// An ingestor with an empty batch, positioned before container 0.
    pub fn new(work: WorkID, namespace: NamespaceID, base_mask: SubMask) -> (r: Ingestor)
        ensures
            r.work() == work.0,
            r.namespace() == namespace.0,
            r.base_mask() == base_mask.0,
            r.current_macro() == 0,
            r.word_counter() == 0,
            r.pending() == Seq::<AtomView>::empty(),
            r.stored() == Seq::<AtomView>::empty(),
            r.fed() == Seq::<Segment>::empty(),
            r.wf(),
    {
        let r = Ingestor {
            work,
            namespace,
            base_mask,
            current_macro: 0,
            word_counter: 0,
            batch: Vec::new(),
            stored: Ghost(Seq::empty()),
            fed: Ghost(Seq::empty()),
        };
        assert(r.pending() =~= Seq::<AtomView>::empty());
        r
    }

    /// Adds one segment: the marker atom, then one atom per word of `text`
    ///
    ///
    /// When the batch then holds at least `BATCH_LIMIT` atoms, a copy of it is handed out,
    /// in order, for storage. The batch stays pending until `confirm_flushed` reports that
    /// it was stored; if the storage fails, a later flush or `finish` hands it out again.
    pub fn process_segment(&mut self, macro_id: i32, structural_marker: &str, text: &str) -> (flushed: Option<Vec<ScriptureAtom>>)
        requires
            old(self).wf(),
            old(self).start_of(macro_id) + 1 + words(text@).len() <= usize::MAX,
        ensures
            final(self).wf(),
            final(self).fed() == old(self).fed().push((macro_id, structural_marker@, text@)),
            final(self).work() == old(self).work(),
            final(self).namespace() == old(self).namespace(),
            final(self).base_mask() == old(self).base_mask(),
            final(self).current_macro() == macro_id,
            final(self).word_counter() == old(self).start_of(macro_id) + 1 + words(text@).len(),
            final(self).stored() == old(self).stored(),
            ({
                let all = old(self).pending() + segment_atoms(
                    old(self).work(),
                    macro_id,
                    old(self).namespace(),
                    old(self).base_mask(),
                    old(self).start_of(macro_id),
                    structural_marker@,
                    text@,
                );
                &&& final(self).pending() == all
                &&& if all.len() >= BATCH_LIMIT {
                    flushed matches Some(b) && atom_views(b@) == all
                } else {
                    flushed is None
                }
            }),
    {
        let ghost start = self.start_of(macro_id);
        let ghost before = self.pending();
        let ghost fed0 = self.fed@;
        self.fed = Ghost(fed0.push((macro_id, structural_marker@, text@)));
        assert(self.fed@.drop_last() =~= fed0);
        if macro_id != self.current_macro {
            self.current_macro = macro_id;
            self.word_counter = 0;
        }
        let ghost produced = segment_atoms(
            self.work.0,
            macro_id,
            self.namespace.0,
            self.base_mask.0,
            start,
            structural_marker@,
            text@,
        );
        // 1. The structural marker.
        let marker_coord = Coordinate {
            work: self.work,
            macro_level: MacroID(self.current_macro),
            namespace: self.namespace,
            sub_mask: SubMask(SubMask::STRUCTURAL_MARKER),
            lex_key: generate_sequential(self.word_counter),
        };
        self.batch.push(ScriptureAtom { coordinate: marker_coord, text_content: String::from_str(structural_marker) });
        self.word_counter = self.word_counter + 1;
        assert(self.pending() =~= before + produced.take(1));
        // 2. The words.
        let ws = split_words(text);
        let mut k: usize = 0;
        while k < ws.len()
            invariant
                0 <= k <= ws@.len(),
                ws@.len() == words(text@).len(),
                forall|j: int| 0 <= j < ws@.len() ==> (#[trigger] ws@[j])@ == words(text@)[j],
                self.work.0 == old(self).work(),
                self.namespace.0 == old(self).namespace(),
                self.base_mask.0 == old(self).base_mask(),
                self.stored@ == old(self).stored(),
                self.fed@ == old(self).fed().push((macro_id, structural_marker@, text@)),
                self.current_macro == macro_id,
                self.word_counter == start + 1 + k,
                start + 1 + words(text@).len() <= usize::MAX,
                produced == segment_atoms(
                    self.work.0,
                    macro_id,
                    self.namespace.0,
                    self.base_mask.0,
                    start,
                    structural_marker@,
                    text@,
                ),
                self.pending() == before + produced.take(k + 1),
            decreases ws@.len() - k,
        {
            let atom_coord = Coordinate {
                work: self.work,
                macro_level: MacroID(self.current_macro),
                namespace: self.namespace,
                sub_mask: self.base_mask,
                lex_key: generate_sequential(self.word_counter),
            };
            let ghost prev = self.pending();
            self.batch.push(ScriptureAtom { coordinate: atom_coord, text_content: ws[k].clone() });
            self.word_counter = self.word_counter + 1;
            k = k + 1;
            assert(produced.take(k + 1) =~= produced.take(k as int).push(produced[k as int]));
            assert(self.pending() =~= prev.push(produced[k as int]));
        }
        assert(produced.take(ws@.len() as int + 1) =~= produced);
        proof {
            let r0 = run(self.work.0, self.namespace.0, self.base_mask.0, fed0);
            assert(r0.0 == old(self).current_macro() && r0.1 == old(self).word_counter());
            assert(self.fed@.last() == (macro_id, structural_marker@, text@));
            assert(run(self.work.0, self.namespace.0, self.base_mask.0, self.fed@) == (
                macro_id,
                start + 1 + words(text@).len(),
                r0.2 + produced,
            ));
            assert(self.produced() =~= old(self).produced() + produced);
        }
        // 3. Hand out a full batch; it stays pending until its storage is confirmed.
        if self.batch.len() >= BATCH_LIMIT {
            Some(duplicate_atoms(&self.batch))
        } else {
            None
        }
    }

    /// Records that the batch handed out was stored: its atoms join those stored and the
    /// ingestor keeps an empty batch (the clearing of the batch after a successful
    /// insert).
    pub fn confirm_flushed(&mut self)
        requires
            old(self).wf(),
        ensures
            final(self).wf(),
            final(self).fed() == old(self).fed(),
            final(self).work() == old(self).work(),
            final(self).namespace() == old(self).namespace(),
            final(self).base_mask() == old(self).base_mask(),
            final(self).current_macro() == old(self).current_macro(),
            final(self).word_counter() == old(self).word_counter(),
            final(self).stored() == old(self).stored() + old(self).pending(),
            final(self).pending() == Seq::<AtomView>::empty(),
    {
        let ghost all = self.stored@ + atom_views(self.batch@);
        self.stored = Ghost(all);
        self.batch = Vec::new();
        assert(self.pending() =~= Seq::<AtomView>::empty());
        assert(self.produced() =~= old(self).produced());
    }

    /// Hands out the atoms still pending, if any.
    ///
    /// No atom is lost, duplicated or reordered over a whole run: the batches confirmed
    /// before, followed by these, are exactly the atoms of every segment fed to the
    /// ingestor, in the order they were fed.
    pub fn finish(self) -> (rest: Option<Vec<ScriptureAtom>>)
        requires
            self.wf(),
        ensures
            self.stored() + (match rest {
                Some(b) => atom_views(b@),
                None => Seq::<AtomView>::empty(),
            }) == run(self.work(), self.namespace(), self.base_mask(), self.fed()).2,
            if self.pending().len() > 0 {
                rest matches Some(b) && atom_views(b@) == self.pending()
            } else {
                rest is None
            },
            self.stored() + (match rest {
                Some(b) => atom_views(b@),
                None => Seq::<AtomView>::empty(),
            }) == self.produced(),
    {
        if self.batch.len() > 0 {
            Some(self.batch)
        } else {
            None
        }
    }
}

// ---------------------------------------------------------------------------
// The two sources seeded into the Quran (work 786)
// ---------------------------------------------------------------------------

/// The ingestor of the Khalifa English translation: work 786, namespace 19, no flags.
pub fn khalifa_ingestor() -> (r: Ingestor)
    ensures
        r.work() == 786 && r.namespace() == 19 && r.base_mask() == 0,
        r.current_macro() == 0 && r.word_counter() == 0,
        r.pending() == Seq::<AtomView>::empty(),
        r.stored() == Seq::<AtomView>::empty(),
        r.fed() == Seq::<Segment>::empty(),
        r.wf(),
{
    Ingestor::new(WorkID(786), NamespaceID(19), SubMask(0x0000))
}

/// The ingestor of the Uthmani Arabic root text: work 786, namespace `0x02`, flagged as
/// logical anchors written right to left.
pub fn uthmani_ingestor() -> (r: Ingestor)
    ensures
        r.work() == 786 && r.namespace() == 0x02,
        r.base_mask() == SubMask::LOGICAL_ANCHOR | SubMask::RTL,
        r.current_macro() == 0 && r.word_counter() == 0,
        r.pending() == Seq::<AtomView>::empty(),
        r.stored() == Seq::<AtomView>::empty(),
        r.fed() == Seq::<Segment>::empty(),
        r.wf(),
{
    Ingestor::new(WorkID(786), NamespaceID(0x02), SubMask(SubMask::LOGICAL_ANCHOR | SubMask::RTL))
}

/// The marker of a verse: `AYAH:` followed by its number.
pub fn ayah_marker(verse_num: i32) -> (m: String)
    ensures
        m@ == seq!['A', 'Y', 'A', 'H', ':'] + decimal(verse_num as int),
{
    let mut m = String::new();
    push_char(&mut m, 'A');
    push_char(&mut m, 'Y');
    push_char(&mut m, 'A');
    push_char(&mut m, 'H');
    push_char(&mut m, ':');
    let ghost prefix = m@;
    push_decimal(&mut m, verse_num as i64);
    assert(prefix =~= seq!['A', 'Y', 'A', 'H', ':']);
    m
}

/// The segment a line of the pipe-delimited Uthmani text describes (`surah|ayah|text`):
/// comment lines (starting with `#`), blank lines and lines without exactly three fields
/// describe none. An unreadable surah number counts as 0.
pub open spec fn uthmani_segment_of(line: Seq<char>) -> Option<(i32, Seq<char>, Seq<char>)> {
    let parts = split_on(line, '|');
    if starts_with(line, '#') || trim(line).len() == 0 || parts.len() != 3 {
        None
    } else {
        let surah = match parse_i32(parts[0]) {
            Some(v) => v,
            None => 0,
        };
        Some((surah, seq!['A', 'Y', 'A', 'H', ':'] + parts[1], trim(parts[2])))
    }
}

/// Reads one line of the Uthmani text into the segment `(surah, marker, text)` it
/// describes, if any.
pub fn uthmani_line_segment(line: &str) -> (r: Option<(i32, String, String)>)
    ensures
        match r {
            Some((surah, marker, text)) => uthmani_segment_of(line@) == Some((surah, marker@, text@)),
            None => uthmani_segment_of(line@) is None,
        },
{
    let cs = chars_of(line);
    assert(cs@.subrange(0, cs@.len() as int) =~= line@);
    let (a, b) = trim_range(&cs, 0, cs.len());
    let parts = split_ranges(&cs, 0, cs.len(), '|');
    if (cs.len() > 0 && cs[0] == '#') || a == b || parts.len() != 3 {
        return None;
    }
    let (p0, p1) = parts[0];
    let surah = match parse_i32_range(&cs, p0, p1) {
        Some(v) => v,
        None => 0,
    };
    let (m0, m1) = parts[1];
    let mut marker = String::new();
    push_char(&mut marker, 'A');
    push_char(&mut marker, 'Y');
    push_char(&mut marker, 'A');
    push_char(&mut marker, 'H');
    push_char(&mut marker, ':');
    let ghost prefix = marker@;
    let tail = string_of(&cs, m0, m1);
    marker.append(tail.as_str());
    assert(prefix =~= seq!['A', 'Y', 'A', 'H', ':']);
    let (t0, t1) = parts[2];
    let (x, y) = trim_range(&cs, t0, t1);
    let text = string_of(&cs, x, y);
    Some((surah, marker, text))
}

/// The segments the lines of the Uthmani text describe, in order.
pub open spec fn uthmani_segments(lines: Seq<Seq<char>>) -> Seq<Segment>
    decreases lines.len(),
{
    if lines.len() == 0 {
        Seq::<Segment>::empty()
    } else {
        match uthmani_segment_of(lines.last()) {
            Some(seg) => uthmani_segments(lines.drop_last()).push(seg),
            None => uthmani_segments(lines.drop_last()),
        }
    }
}

} // verus!
