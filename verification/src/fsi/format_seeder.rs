//! # Format-based seeding
//!
//! A variant of the seeding pipeline for any work and namespace: the batch is checked
//! after every atom and handed out as soon as it holds 5,000 atoms, so that no single
//! segment can grow it past that threshold. Source lines in the Tanzil pipe format and
//! translation records are turned into segments marked `VERSE:<n>`.
use vstd::prelude::*;
use crate::fsi::lex_key::generate_sequential;
use crate::fsi::scroll::{
    atom_views, duplicate_atoms, AtomView, Coordinate, MacroID, NamespaceID, ScriptureAtom,
    SubMask, WorkID,
};
use crate::fsi::seeder::{
    run, segment_atoms, uthmani_segment_of, uthmani_segments, word_atom, Segment,
};
use crate::text::{
    chars_of, decimal, is_white_space, lemma_split_on_len, parse_i32, parse_i32_range, push_char,
    push_decimal, split_on, split_ranges, split_words, starts_with, string_of, trim, trim_end,
    trim_range, trim_start, words,
};

verus! {

/// The number of atoms at which a batch is handed out for storage.
pub const WORD_BATCH_LIMIT: usize = 5000;

/// How many of `n` atoms, added one by one to a batch of `p` atoms with a check after
/// each, go in before the batch is handed out: all of them while the batch stays under
/// the limit, otherwise those up to the first that brings it to the limit (just one if it
/// was already there).
pub open spec fn taken_before_flush(p: nat, n: nat) -> nat {
    if p + n < WORD_BATCH_LIMIT {
        n
    } else if p >= WORD_BATCH_LIMIT {
        if n == 0 {
            0
        } else {
            1
        }
    } else {
        (WORD_BATCH_LIMIT - p) as nat
    }
}

/// Collects the atoms of one work and namespace, checking the batch after every atom.
///
/// When an atom brings the batch to `WORD_BATCH_LIMIT`, a copy of it is handed out and
/// the words of the segment not yet atomized wait until `confirm_flushed` reports that
/// the batch was stored. A batch whose storage fails stays pending.
pub struct Ingestor {
    work: WorkID,
    namespace: NamespaceID,
    base_mask: SubMask,
    current_macro: i32,
    word_counter: usize,
    batch: Vec<ScriptureAtom>,
    queue: Vec<String>,
    stored: Ghost<Seq<AtomView>>,
    fed: Ghost<Seq<Segment>>,
    complete: Ghost<bool>,
}

impl Ingestor {
    /// The work the atoms belong to.
    pub closed spec fn work(&self) -> i32 {
        self.work.0
    }

    /// The namespace the atoms belong to.
    pub closed spec fn namespace(&self) -> i16 {
        self.namespace.0
    }

    /// The flags given to word atoms.
    pub closed spec fn base_mask(&self) -> u16 {
        self.base_mask.0
    }

    /// The macro container of the last segment.
    pub closed spec fn current_macro(&self) -> i32 {
        self.current_macro
    }

    /// The position the next atom of the current container takes.
    pub closed spec fn word_counter(&self) -> nat {
        self.word_counter as nat
    }

    /// The atoms collected and not yet confirmed as stored.
    pub closed spec fn pending(&self) -> Seq<AtomView> {
        atom_views(self.batch@)
    }

    /// The atoms of the batches confirmed as stored, in order.
    pub closed spec fn stored(&self) -> Seq<AtomView> {
        self.stored@
    }

    /// Every atom collected so far, in order: those stored, then those pending.
    pub open spec fn produced(&self) -> Seq<AtomView> {
        self.stored() + self.pending()
    }

    /// The word atoms of the current segment still to be collected, in order, at the
    /// positions they will take.
    pub closed spec fn queued(&self) -> Seq<AtomView> {
        Seq::new(
            self.queue@.len(),
            |i: int|
                word_atom(
                    self.work.0,
                    self.current_macro,
                    self.namespace.0,
                    self.base_mask.0,
                    (self.word_counter + i) as nat,
                    self.queue@[self.queue@.len() - 1 - i]@,
                ),
        )
    }

    /// The segments fed to the ingestor so far, in order.
    pub closed spec fn fed(&self) -> Seq<Segment> {
        self.fed@
    }

    /// No segment was fed while words of the one before were still queued: every batch
    /// handed out was confirmed until the queue ran empty.
    pub closed spec fn complete(&self) -> bool {
        self.complete@
    }

    /// Every queued word still has a position that fits in `usize`; and, while the run is
    /// complete, the ingestor stands where seeding its segments from scratch leads: same
    /// container, the queued words ending at the same next position, and the atoms
    /// collected followed by those queued being the atoms of the segments.
    pub closed spec fn wf(&self) -> bool {
        let r = run(self.work.0, self.namespace.0, self.base_mask.0, self.fed@);
        &&& self.word_counter + self.queue@.len() <= usize::MAX
        &&& self.complete@ ==> {
            &&& self.current_macro == r.0
            &&& self.word_counter + self.queue@.len() == r.1
            &&& self.produced() + self.queued() == r.2
        }
    }

    /// The position the marker of a segment in container `macro_id` takes.
    pub open spec fn start_of(&self, macro_id: i32) -> nat {
        if macro_id != self.current_macro() {
            0
        } else {
            self.word_counter()
        }
    }

    /// The position the marker of a segment in container `macro_id` would take.
    pub fn position_for(&self, macro_id: i32) -> (p: usize)
        ensures
            p == self.start_of(macro_id),
    {
        if macro_id != self.current_macro {
            0
        } else {
            self.word_counter
        }
    }

    /// An ingestor with an empty batch, positioned before container 0.
    pub fn new(work: WorkID, namespace: NamespaceID, base_mask: SubMask) -> (r: Ingestor)
        ensures
            r.work() == work.0,
            r.namespace() == namespace.0,
            r.base_mask() == base_mask.0,
            r.current_macro() == 0,
            r.word_counter() == 0,
            r.pending() == Seq::<AtomView>::empty(),
            r.stored() == Seq::<AtomView>::empty(),
            r.queued() == Seq::<AtomView>::empty(),
            r.fed() == Seq::<Segment>::empty(),
            r.complete(),
            r.wf(),
    {
        let r = Ingestor {
            work,
            namespace,
            base_mask,
            current_macro: 0,
            word_counter: 0,
            batch: Vec::new(),
            queue: Vec::new(),
            stored: Ghost(Seq::empty()),
            fed: Ghost(Seq::empty()),
            complete: Ghost(true),
        };
        assert(r.pending() =~= Seq::<AtomView>::empty());
        assert(r.queued() =~= Seq::<AtomView>::empty());
        r
    }

    /// Collects queued words one by one until none is left or the batch reaches the
    /// limit, checking the batch after each. Returns whether the batch is full.
    fn fill(&mut self) -> (full: bool)
        requires
            old(self).wf(),
            old(self).pending().len() < WORD_BATCH_LIMIT,
        ensures
            final(self).work() == old(self).work(),
            final(self).namespace() == old(self).namespace(),
            final(self).base_mask() == old(self).base_mask(),
            final(self).current_macro() == old(self).current_macro(),
            final(self).stored() == old(self).stored(),
            final(self).fed() == old(self).fed(),
            final(self).complete() == old(self).complete(),
            final(self).wf(),
            ({
                let k = taken_before_flush(old(self).pending().len(), old(self).queued().len());
                &&& final(self).pending() == old(self).pending() + old(self).queued().take(k as int)
                &&& final(self).queued() == old(self).queued().skip(k as int)
                &&& final(self).word_counter() == old(self).word_counter() + k
            }),
            full == (final(self).pending().len() >= WORD_BATCH_LIMIT),
    {
        let ghost p0 = self.pending();
        let ghost q0 = self.queued();
        let ghost k = taken_before_flush(p0.len(), q0.len());
        let ghost mut j: nat = 0;
        assert(q0.take(0) =~= Seq::<AtomView>::empty());
        assert(q0.skip(0) =~= q0);
        while self.queue.len() > 0 && self.batch.len() < WORD_BATCH_LIMIT
            invariant
                self.work.0 == old(self).work(),
                self.namespace.0 == old(self).namespace(),
                self.base_mask.0 == old(self).base_mask(),
                self.current_macro == old(self).current_macro(),
                self.stored@ == old(self).stored(),
                self.fed@ == old(self).fed(),
                self.complete@ == old(self).complete(),
                old(self).wf(),
                self.produced() + self.queued() == old(self).produced() + old(self).queued(),
                self.word_counter + self.queue@.len() == old(self).word_counter() + old(self).queued().len(),
                p0 == old(self).pending(),
                q0 == old(self).queued(),
                k == taken_before_flush(p0.len(), q0.len()),
                p0.len() < WORD_BATCH_LIMIT,
                j <= k,
                k <= q0.len(),
                self.wf(),
                self.pending() == p0 + q0.take(j as int),
                self.queued() == q0.skip(j as int),
                self.word_counter == old(self).word_counter() + j,
            decreases self.queue@.len(),
        {
            let ghost before = self.pending();
            let ghost q = self.queued();
            assert(q.len() == self.queue@.len());
            assert(q0.skip(j as int).len() == q0.len() - j);
            assert(q0.skip(j as int)[0] == q0[j as int]);
            assert(before.len() == self.batch@.len());
            let w = self.queue.pop().unwrap();
            let atom_coord = Coordinate {
                work: self.work,
                macro_level: MacroID(self.current_macro),
                namespace: self.namespace,
                sub_mask: self.base_mask,
                lex_key: generate_sequential(self.word_counter),
            };
            self.batch.push(ScriptureAtom { coordinate: atom_coord, text_content: w });
            self.word_counter = self.word_counter + 1;
            proof {
                assert(self.pending() =~= before.push(q[0]));
                assert(q0.take((j + 1) as int) =~= q0.take(j as int).push(q0[j as int]));
                assert(self.queued() =~= q.drop_first());
                assert(q0.skip((j + 1) as int) =~= q0.skip(j as int).drop_first());
                assert(self.produced() + self.queued() =~= old(self).produced() + old(self).queued()) by {
                    assert(self.produced() =~= (old(self).stored() + before).push(q[0]));
                    assert(old(self).produced() + old(self).queued() =~= (old(self).stored() + before) + q);
                }
                j = j + 1;
            }
        }
        self.batch.len() >= WORD_BATCH_LIMIT
    }

    /// Adds one segment: the marker atom, then one atom per word of `text`, checking the
    /// batch after each. When an atom brings the batch to
    /// `WORD_BATCH_LIMIT`, a copy of the batch is handed out for storage and the rest of
    /// the segment waits for `confirm_flushed`. Any words still queued from an earlier
    /// segment are dropped.
    pub fn process_segment(&mut self, macro_id: i32, structural_marker: &str, text: &str) -> (flushed: Option<Vec<ScriptureAtom>>)
        requires
            old(self).wf(),
            old(self).start_of(macro_id) + 1 + words(text@).len() <= usize::MAX,
        ensures
            final(self).work() == old(self).work(),
            final(self).namespace() == old(self).namespace(),
            final(self).base_mask() == old(self).base_mask(),
            final(self).current_macro() == macro_id,
            final(self).stored() == old(self).stored(),
            final(self).fed() == old(self).fed().push((macro_id, structural_marker@, text@)),
            final(self).complete() == (old(self).complete() && old(self).queued().len() == 0),
            final(self).wf(),
            ({
                let items = segment_atoms(
                    old(self).work(),
                    macro_id,
                    old(self).namespace(),
                    old(self).base_mask(),
                    old(self).start_of(macro_id),
                    structural_marker@,
                    text@,
                );
                let k = taken_before_flush(old(self).pending().len(), items.len());
                &&& final(self).pending() == old(self).pending() + items.take(k as int)
                &&& final(self).queued() == items.skip(k as int)
                &&& final(self).word_counter() == old(self).start_of(macro_id) + k
            }),
            if final(self).pending().len() >= WORD_BATCH_LIMIT {
                flushed matches Some(b) && atom_views(b@) == final(self).pending()
            } else {
                flushed is None
            },
    {
        let ghost start = self.start_of(macro_id);
        let ghost before = self.pending();
        if macro_id != self.current_macro {
            self.current_macro = macro_id;
            self.word_counter = 0;
        }
        let ghost items = segment_atoms(
            self.work.0,
            macro_id,
            self.namespace.0,
            self.base_mask.0,
            start,
            structural_marker@,
            text@,
        );
        // 1. The structural marker.
        let marker_coord = Coordinate {
            work: self.work,
            macro_level: MacroID(self.current_macro),
            namespace: self.namespace,
            sub_mask: SubMask(SubMask::STRUCTURAL_MARKER),
            lex_key: generate_sequential(self.word_counter),
        };
        self.batch.push(ScriptureAtom { coordinate: marker_coord, text_content: String::from_str(structural_marker) });
        self.word_counter = self.word_counter + 1;
        assert(self.pending() =~= before + items.take(1));
        // 2. The words wait in the queue, last word first.
        let mut ws = split_words(text);
        let ghost n = ws@.len();
        let mut rev: Vec<String> = Vec::new();
        while ws.len() > 0
            invariant
                n == words(text@).len(),
                rev@.len() + ws@.len() == n,
                forall|j: int| 0 <= j < ws@.len() ==> (#[trigger] ws@[j])@ == words(text@)[j],
                forall|j: int| 0 <= j < rev@.len() ==> (#[trigger] rev@[j])@ == words(text@)[n - 1 - j],
            decreases ws@.len(),
        {
            let w = ws.pop().unwrap();
            rev.push(w);
        }
        self.queue = rev;
        assert(self.queued() =~= items.skip(1));
        let ghost fed0 = self.fed@;
        let ghost was_complete = self.complete@ && old(self).queued().len() == 0;
        self.fed = Ghost(fed0.push((macro_id, structural_marker@, text@)));
        self.complete = Ghost(was_complete);
        proof {
            assert(self.fed@.drop_last() =~= fed0);
            assert(self.fed@.last() == (macro_id, structural_marker@, text@));
            assert(items.len() == 1 + words(text@).len());
            if was_complete {
                let r0 = run(self.work.0, self.namespace.0, self.base_mask.0, fed0);
                assert(r0.0 == old(self).current_macro() && r0.1 == old(self).word_counter());
                assert(old(self).queued() =~= Seq::<AtomView>::empty());
                assert(old(self).produced() =~= r0.2);
                assert(run(self.work.0, self.namespace.0, self.base_mask.0, self.fed@) == (
                    macro_id,
                    start + 1 + words(text@).len(),
                    r0.2 + items,
                ));
                assert(self.produced() + self.queued() =~= r0.2 + items) by {
                    assert(items.take(1) + items.skip(1) =~= items);
                }
            }
        }
        // 3. The batch is checked after the marker, then after each word.
        if self.batch.len() >= WORD_BATCH_LIMIT {
            assert(taken_before_flush(before.len(), items.len()) == 1);
            return Some(duplicate_atoms(&self.batch));
        }
        let ghost mid_p = self.pending();
        let ghost mid_q = self.queued();
        let full = self.fill();
        proof {
            let k1 = taken_before_flush(mid_p.len(), mid_q.len());
            assert(taken_before_flush(before.len(), items.len()) == 1 + k1);
            assert(items.take((1 + k1) as int) =~= items.take(1) + items.skip(1).take(k1 as int));
            assert(items.skip((1 + k1) as int) =~= items.skip(1).skip(k1 as int));
        }
        if full {
            Some(duplicate_atoms(&self.batch))
        } else {
            None
        }
    }

    /// Records that the batch handed out was stored (the clearing of the batch after a
    /// successful insert): its atoms join those stored, and the queued words of the
    /// segment are collected into a new batch, which is handed out in turn if it reaches
    /// `WORD_BATCH_LIMIT`.
    pub fn confirm_flushed(&mut self) -> (flushed: Option<Vec<ScriptureAtom>>)
        requires
            old(self).wf(),
        ensures
            final(self).work() == old(self).work(),
            final(self).namespace() == old(self).namespace(),
            final(self).base_mask() == old(self).base_mask(),
            final(self).current_macro() == old(self).current_macro(),
            final(self).stored() == old(self).stored() + old(self).pending(),
            final(self).fed() == old(self).fed(),
            final(self).complete() == old(self).complete(),
            final(self).wf(),
            ({
                let k = taken_before_flush(0, old(self).queued().len());
                &&& final(self).pending() == old(self).queued().take(k as int)
                &&& final(self).queued() == old(self).queued().skip(k as int)
                &&& final(self).word_counter() == old(self).word_counter() + k
            }),
            if final(self).pending().len() >= WORD_BATCH_LIMIT {
                flushed matches Some(b) && atom_views(b@) == final(self).pending()
            } else {
                flushed is None
            },
    {
        let ghost all = self.stored@ + atom_views(self.batch@);
        self.stored = Ghost(all);
        self.batch = Vec::new();
        assert(self.pending() =~= Seq::<AtomView>::empty());
        assert(self.produced() =~= old(self).produced());
        let ghost q = self.queued();
        let full = self.fill();
        assert(Seq::<AtomView>::empty() + q.take(taken_before_flush(0, q.len()) as int) =~= q.take(
            taken_before_flush(0, q.len()) as int,
        ));
        if full {
            Some(duplicate_atoms(&self.batch))
        } else {
            None
        }
    }

    /// Hands out the atoms still pending, if any; words still queued are dropped.
    ///
    /// The batches confirmed before, followed by these, are every atom the ingestor
    /// collected, in order. Over a complete run (every batch confirmed until the queue ran
    /// empty) nothing is lost, duplicated or reordered: they and the words still queued
    /// are exactly the atoms of every segment fed, in the order they were fed.
    pub fn finish(self) -> (rest: Option<Vec<ScriptureAtom>>)
        requires
            self.wf(),
        ensures
            self.complete() ==> self.stored() + (match rest {
                Some(b) => atom_views(b@),
                None => Seq::<AtomView>::empty(),
            }) + self.queued() == run(self.work(), self.namespace(), self.base_mask(), self.fed()).2,
            if self.pending().len() > 0 {
                rest matches Some(b) && atom_views(b@) == self.pending()
            } else {
                rest is None
            },
            self.stored() + (match rest {
                Some(b) => atom_views(b@),
                None => Seq::<AtomView>::empty(),
            }) == self.produced(),
    {
        if self.batch.len() > 0 {
            Some(self.batch)
        } else {
            None
        }
    }
}

/// The marker of a verse: `VERSE:` followed by its number.
pub fn verse_marker(verse_num: i32) -> (m: String)
    ensures
        m@ == seq!['V', 'E', 'R', 'S', 'E', ':'] + decimal(verse_num as int),
{
    let mut m = String::new();
    push_char(&mut m, 'V');
    push_char(&mut m, 'E');
    push_char(&mut m, 'R');
    push_char(&mut m, 'S');
    push_char(&mut m, 'E');
    push_char(&mut m, ':');
    let ghost prefix = m@;
    push_decimal(&mut m, verse_num as i64);
    assert(prefix =~= seq!['V', 'E', 'R', 'S', 'E', ':']);
    m
}

/// The segment a line of a Tanzil pipe-delimited text describes (`chapter|verse|text`):
/// comment lines (starting with `#`), empty lines and lines without exactly three fields
/// describe none. An unreadable chapter number counts as 0.
pub open spec fn tanzil_segment_of(line: Seq<char>) -> Option<(i32, Seq<char>, Seq<char>)> {
    let parts = split_on(line, '|');
    if starts_with(line, '#') || line.len() == 0 || parts.len() != 3 {
        None
    } else {
        let chapter = match parse_i32(parts[0]) {
            Some(v) => v,
            None => 0,
        };
        Some((chapter, seq!['V', 'E', 'R', 'S', 'E', ':'] + parts[1], trim(parts[2])))
    }
}

/// Reads one line of a Tanzil text into the segment `(chapter, marker, text)` it
/// describes, if any.
pub fn tanzil_line_segment(line: &str) -> (r: Option<(i32, String, String)>)
    ensures
        match r {
            Some((chapter, marker, text)) => tanzil_segment_of(line@) == Some((chapter, marker@, text@)),
            None => tanzil_segment_of(line@) is None,
        },
{
    let cs = chars_of(line);
    assert(cs@.subrange(0, cs@.len() as int) =~= line@);
    let parts = split_ranges(&cs, 0, cs.len(), '|');
    if (cs.len() > 0 && cs[0] == '#') || cs.len() == 0 || parts.len() != 3 {
        return None;
    }
    let (p0, p1) = parts[0];
    let chapter = match parse_i32_range(&cs, p0, p1) {
        Some(v) => v,
        None => 0,
    };
    let (m0, m1) = parts[1];
    let mut marker = String::new();
    push_char(&mut marker, 'V');
    push_char(&mut marker, 'E');
    push_char(&mut marker, 'R');
    push_char(&mut marker, 'S');
    push_char(&mut marker, 'E');
    push_char(&mut marker, ':');
    let ghost prefix = marker@;
    let tail = string_of(&cs, m0, m1);
    marker.append(tail.as_str());
    assert(prefix =~= seq!['V', 'E', 'R', 'S', 'E', ':']);
    let (t0, t1) = parts[2];
    let (x, y) = trim_range(&cs, t0, t1);
    let text = string_of(&cs, x, y);
    Some((chapter, marker, text))
}

/// A line with no separator is a single piece.
proof fn lemma_split_on_single(s: Seq<char>, sep: char)
    requires
        forall|i: int| 0 <= i < s.len() ==> s[i] != sep,
    ensures
        split_on(s, sep).len() == 1,
    decreases s.len(),
{
    if s.len() > 0 {
        lemma_split_on_single(s.drop_last(), sep);
        lemma_split_on_len(s.drop_last(), sep);
    }
}

/// When trimming leaves nothing, every character is whitespace.
proof fn lemma_trim_empty_all_white(s: Seq<char>)
    requires
        trim(s).len() == 0,
    ensures
        forall|i: int| 0 <= i < s.len() ==> is_white_space(s[i]),
{
    lemma_trim_end_empty(trim_start(s));
    lemma_trim_start_empty(s);
}

proof fn lemma_trim_end_empty(s: Seq<char>)
    requires
        trim_end(s).len() == 0,
    ensures
        forall|i: int| 0 <= i < s.len() ==> is_white_space(s[i]),
    decreases s.len(),
{
    if s.len() > 0 {
        lemma_trim_end_empty(s.drop_last());
        assert forall|i: int| 0 <= i < s.len() implies is_white_space(s[i]) by {
            if i < s.len() - 1 {
                assert(s.drop_last()[i] == s[i]);
            }
        }
    }
}

proof fn lemma_trim_start_empty(s: Seq<char>)
    requires
        forall|i: int| 0 <= i < trim_start(s).len() ==> is_white_space(trim_start(s)[i]),
    ensures
        forall|i: int| 0 <= i < s.len() ==> is_white_space(s[i]),
    decreases s.len(),
{
    if s.len() > 0 && is_white_space(s[0]) {
        assert(trim_start(s) == trim_start(s.drop_first()));
        lemma_trim_start_empty(s.drop_first());
        assert forall|i: int| 0 <= i < s.len() implies is_white_space(s[i]) by {
            if i > 0 {
                assert(s.drop_first()[i - 1] == s[i]);
            }
        }
    } else if s.len() > 0 {
        assert(trim_start(s) == s);
        assert(is_white_space(trim_start(s)[0]));
    }
}

/// The Tanzil and Uthmani readings of a line agree: both skip it or both read the same
/// chapter, the same marker number and the same text; only the marker's prefix differs
/// (`VERSE:` against `AYAH:`). So feeding a file through either ingestor with the same
/// work, namespace and flags yields the same atoms but for the marker texts.
pub proof fn lemma_tanzil_matches_uthmani(line: Seq<char>)
    ensures
        tanzil_segment_of(line) is None <==> uthmani_segment_of(line) is None,
        tanzil_segment_of(line) matches Some((c, m, t)) ==> (uthmani_segment_of(line) matches Some(
            (c2, m2, t2),
        ) && c2 == c && t2 == t && m == seq!['V', 'E', 'R', 'S', 'E', ':'] + m2.skip(5) && m2
            == seq!['A', 'Y', 'A', 'H', ':'] + m2.skip(5)),
{
    if trim(line).len() == 0 && line.len() > 0 {
        lemma_trim_empty_all_white(line);
        assert forall|i: int| 0 <= i < line.len() implies line[i] != '|' by {
            assert(is_white_space(line[i]));
        }
        lemma_split_on_single(line, '|');
    }
    if line.len() == 0 {
        assert(trim_start(line) == line);
    }
    let parts = split_on(line, '|');
    if tanzil_segment_of(line) is Some {
        let v = seq!['V', 'E', 'R', 'S', 'E', ':'];
        let a = seq!['A', 'Y', 'A', 'H', ':'];
        assert((a + parts[1]).skip(5) =~= parts[1]);
    }
}

/// The segments the lines of a Tanzil text describe, in order.
pub open spec fn tanzil_segments(lines: Seq<Seq<char>>) -> Seq<Segment>
    decreases lines.len(),
{
    if lines.len() == 0 {
        Seq::<Segment>::empty()
    } else {
        match tanzil_segment_of(lines.last()) {
            Some(seg) => tanzil_segments(lines.drop_last()).push(seg),
            None => tanzil_segments(lines.drop_last()),
        }
    }
}

/// An atom with a `VERSE:` marker given the `AYAH:` marker of the same number; any other
/// atom as it is.
pub open spec fn as_ayah(a: AtomView) -> AtomView {
    let v = seq!['V', 'E', 'R', 'S', 'E', ':'];
    if a.0.3 == SubMask::STRUCTURAL_MARKER && a.1.len() >= 6 && a.1.take(6) == v {
        (a.0, seq!['A', 'Y', 'A', 'H', ':'] + a.1.skip(6))
    } else {
        a
    }
}

/// Seeding one segment with a `VERSE:` marker gives the atoms of the same segment with
/// the `AYAH:` marker of the same number, once markers are read as `AYAH:`.
proof fn lemma_segment_as_ayah(
    work: i32,
    macro_id: i32,
    namespace: i16,
    mask: u16,
    start: nat,
    num: Seq<char>,
    text: Seq<char>,
)
    requires
        mask != SubMask::STRUCTURAL_MARKER,
    ensures
        segment_atoms(
            work,
            macro_id,
            namespace,
            mask,
            start,
            seq!['V', 'E', 'R', 'S', 'E', ':'] + num,
            text,
        ).map_values(|a: AtomView| as_ayah(a)) == segment_atoms(
            work,
            macro_id,
            namespace,
            mask,
            start,
            seq!['A', 'Y', 'A', 'H', ':'] + num,
            text,
        ),
{
    let v = seq!['V', 'E', 'R', 'S', 'E', ':'];
    let st = segment_atoms(work, macro_id, namespace, mask, start, v + num, text);
    let su = segment_atoms(work, macro_id, namespace, mask, start, seq!['A', 'Y', 'A', 'H', ':'] + num, text);
    assert((v + num).take(6) =~= v);
    assert((v + num).skip(6) =~= num);
    assert(st.map_values(|a: AtomView| as_ayah(a)) =~= su);
}

/// Feeding the same lines through the Tanzil reading and through the Uthmani reading,
/// into ingestors of the same work, namespace and word flags (flags other than the
/// structural marker alone), gives the same run: the same container, the same next
/// position, and the same atoms, except that each marker reads `VERSE:n` in place of
/// `AYAH:n`.
pub proof fn lemma_tanzil_run_matches_uthmani(
    work: i32,
    namespace: i16,
    mask: u16,
    lines: Seq<Seq<char>>,
)
    requires
        mask != SubMask::STRUCTURAL_MARKER,
    ensures
        run(work, namespace, mask, tanzil_segments(lines)).0 == run(
            work,
            namespace,
            mask,
            uthmani_segments(lines),
        ).0,
        run(work, namespace, mask, tanzil_segments(lines)).1 == run(
            work,
            namespace,
            mask,
            uthmani_segments(lines),
        ).1,
        run(work, namespace, mask, tanzil_segments(lines)).2.map_values(|a: AtomView| as_ayah(a))
            == run(work, namespace, mask, uthmani_segments(lines)).2,
    decreases lines.len(),
{
    if lines.len() > 0 {
        let l0 = lines.drop_last();
        lemma_tanzil_run_matches_uthmani(work, namespace, mask, l0);
        lemma_tanzil_matches_uthmani(lines.last());
        let ts = tanzil_segments(l0);
        let us = uthmani_segments(l0);
        if let Some(seg) = tanzil_segment_of(lines.last()) {
            let useg = uthmani_segment_of(lines.last()).unwrap();
            let tall = ts.push(seg);
            let uall = us.push(useg);
            assert(tall.drop_last() =~= ts);
            assert(uall.drop_last() =~= us);
            let rt = run(work, namespace, mask, ts);
            let ru = run(work, namespace, mask, us);
            let start: nat = if seg.0 != rt.0 {
                0
            } else {
                rt.1
            };
            let num = useg.1.skip(5);
            lemma_segment_as_ayah(work, seg.0, namespace, mask, start, num, seg.2);
            let st = segment_atoms(work, seg.0, namespace, mask, start, seg.1, seg.2);
            assert((rt.2 + st).map_values(|a: AtomView| as_ayah(a)) =~= rt.2.map_values(
                |a: AtomView| as_ayah(a),
            ) + st.map_values(|a: AtomView| as_ayah(a)));
        }
    }
}

} // verus!
