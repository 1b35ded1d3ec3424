//! # Pipe-delimited parser
//!
//! Reads texts whose lines are `macro|key|text`: the first column is the macro division,
//! the second the word key and the rest (pipes included) the text. Blank lines and
//! lines starting with `#` are skipped; any other line needs at least three columns.
use vstd::prelude::*;
use crate::fsi::models::{Coordinate, LexKey, MacroID, NamespaceID, WorkID};
use crate::parsers::{ParsedEntry, ScriptureParser};
use crate::text::{
    chars_of, decimal, is_white_space, join, lemma_join_push_last, lemma_lines_concat,
    lemma_split_on_len, lemma_trim_end_keeps_first, lemma_trim_push_white,
    lemma_trim_start_white_prefix, trim_start, line_ranges, lines, parse_i32, parse_i32_range,
    push_joined, push_nat_digits, split_on, split_ranges, starts_with, string_of, strip_cr,
    trim, trim_range, trim_str,
};
use crate::utils::errors::ScriptureError;

verus! {

/// A parser for pipe-delimited texts of one work and namespace.
#[derive(Debug, Clone, Copy)]
pub struct QuranPipeParser {
    pub work_id: WorkID,
    pub namespace_id: NamespaceID,
}

/// What one line holds: `None` for a line to skip, `Some(None)` for a malformed line,
/// `Some(Some((macro, key, text)))` for an entry.
pub open spec fn pipe_line(line: Seq<char>) -> Option<Option<(i32, Seq<char>, Seq<char>)>> {
    let t = trim(line);
    if t.len() == 0 || starts_with(t, '#') {
        None
    } else {
        let parts = split_on(line, '|');
        if parts.len() < 3 {
            Some(None)
        } else {
            let macro_id = match parse_i32(parts[0]) {
                Some(v) => v,
                None => 0,
            };
            Some(Some((macro_id, parts[1], trim(join(parts.skip(2), seq!['|'])))))
        }
    }
}

/// The entries of a sequence of lines, or the index of the first malformed line.
pub open spec fn pipe_lines(ls: Seq<Seq<char>>) -> Result<Seq<(i32, Seq<char>, Seq<char>)>, nat>
    decreases ls.len(),
{
    if ls.len() == 0 {
        Ok(Seq::empty())
    } else {
        match pipe_lines(ls.drop_last()) {
            Err(i) => Err(i),
            Ok(es) => match pipe_line(ls.last()) {
                None => Ok(es),
                Some(None) => Err((ls.len() - 1) as nat),
                Some(Some(e)) => Ok(es.push(e)),
            },
        }
    }
}

/// The message for a malformed line (numbered from 1).
pub open spec fn invalid_line_message(line_number: nat) -> Seq<char> {
    "Invalid format at line "@ + decimal(line_number as int)
}

impl QuranPipeParser {
    /// Reads the text line by line into entries.
    pub fn parse_text(&self, raw_content: &str) -> (r: Result<Vec<ParsedEntry>, ScriptureError>)
        ensures
            match pipe_lines(lines(raw_content@)) {
                Err(i) => r matches Err(ScriptureError::ParseError(m)) && m@ == invalid_line_message(i + 1),
                Ok(es) => r matches Ok(v) && v@.len() == es.len() && forall|k: int| 0 <= k < es.len() ==>
                    (#[trigger] v@[k])@ == (self.work_id.0, es[k].0, es[k].1, es[k].2, self.namespace_id.0),
            },
    {
        let cs = chars_of(raw_content);
        let lr = line_ranges(&cs);
        let ghost ls = lines(cs@);
        let mut entries: Vec<ParsedEntry> = Vec::new();
        let mut k: usize = 0;
        assert(ls.take(0) =~= Seq::<Seq<char>>::empty());
        while k < lr.len()
            invariant
                0 <= k <= lr@.len(),
                cs@ == raw_content@,
                ls == lines(cs@),
                lr@.len() == ls.len(),
                forall|j: int|
                    0 <= j < lr@.len() ==> (#[trigger] lr@[j]).0 <= lr@[j].1 <= cs@.len()
                        && cs@.subrange(lr@[j].0 as int, lr@[j].1 as int) == ls[j],
                pipe_lines(ls.take(k as int)) matches Ok(es) && entries@.len() == es.len()
                    && forall|j: int| 0 <= j < es.len() ==> (#[trigger] entries@[j])@ == (
                        self.work_id.0,
                        es[j].0,
                        es[j].1,
                        es[j].2,
                        self.namespace_id.0,
                    ),
            decreases lr@.len() - k,
        {
            let (a, b) = lr[k];
            let ghost line = ls[k as int];
            assert(ls.take(k + 1).drop_last() =~= ls.take(k as int));
            assert(ls.take(k + 1).last() == line);
            let (t0, t1) = trim_range(&cs, a, b);
            if t0 == t1 || cs[t0] == '#' {
                proof {
                    let t = trim(line);
                    if t0 < t1 {
                        assert(t[0] == cs@[t0 as int]);
                    }
                }
                k = k + 1;
                continue;
            }
            let parts = split_ranges(&cs, a, b, '|');
            if parts.len() < 3 {
                let mut m = String::from_str("Invalid format at line ");
                let ghost prefix = m@;
                push_nat_digits(&mut m, (k + 1) as u64);
                proof {
                    let t = trim(line);
                    assert(t[0] == cs@[t0 as int]);
                    assert(pipe_lines(ls.take(k + 1)) == Err::<Seq<(i32, Seq<char>, Seq<char>)>, nat>(k as nat));
                    let pre = ls.take(k + 1);
                    assert(pipe_lines(ls) == Err::<Seq<(i32, Seq<char>, Seq<char>)>, nat>(k as nat)) by {
                        lemma_pipe_lines_err_persists(ls, (k + 1) as nat);
                    }
                }
                return Err(ScriptureError::ParseError(m));
            }
            let (p0, p1) = parts[0];
            let macro_id = match parse_i32_range(&cs, p0, p1) {
                Some(v) => v,
                None => 0,
            };
            let (q0, q1) = parts[1];
            let lex_key = string_of(&cs, q0, q1);
            let mut rest: Vec<(usize, usize)> = Vec::new();
            let mut j: usize = 2;
            while j < parts.len()
                invariant
                    2 <= j <= parts@.len(),
                    rest@ == parts@.subrange(2, j as int),
                decreases parts@.len() - j,
            {
                rest.push(parts[j]);
                j = j + 1;
                assert(rest@ =~= parts@.subrange(2, j as int));
            }
            let mut joined = String::new();
            push_joined(&mut joined, &cs, &rest, '|');
            let text = trim_str(joined.as_str());
            proof {
                let t = trim(line);
                assert(t[0] == cs@[t0 as int]);
                let ps = split_on(line, '|');
                assert(Seq::new(
                    rest@.len(),
                    |i: int| cs@.subrange(rest@[i].0 as int, rest@[i].1 as int),
                ) =~= ps.skip(2));
            }
            entries.push(
                ParsedEntry {
                    coordinate: Coordinate {
                        work_id: self.work_id,
                        macro_id: MacroID(macro_id),
                        lex_key: LexKey(lex_key),
                    },
                    text,
                    namespace_id: self.namespace_id,
                },
            );
            k = k + 1;
        }
        assert(ls.take(lr@.len() as int) =~= ls);
        Ok(entries)
    }
}

/// Once a malformed line is found, longer prefixes report the same line.
proof fn lemma_pipe_lines_err_persists(ls: Seq<Seq<char>>, n: nat)
    requires
        n <= ls.len(),
        pipe_lines(ls.take(n as int)) is Err,
    ensures
        pipe_lines(ls) == pipe_lines(ls.take(n as int)),
    decreases ls.len() - n,
{
    if n < ls.len() {
        assert(ls.take(n as int + 1).drop_last() =~= ls.take(n as int));
        lemma_pipe_lines_err_persists(ls, n + 1);
    } else {
        assert(ls.take(n as int) =~= ls);
    }
}

/// Reading lines one after another: the entries of `l1 + l2` are those of `l1` followed
/// by those of `l2`, and a malformed line is reported at its place in the whole.
pub proof fn lemma_pipe_lines_concat(l1: Seq<Seq<char>>, l2: Seq<Seq<char>>)
    ensures
        pipe_lines(l1 + l2) == match pipe_lines(l1) {
            Err(i) => Err(i),
            Ok(x) => match pipe_lines(l2) {
                Ok(y) => Ok(x + y),
                Err(j) => Err(l1.len() + j),
            },
        },
    decreases l2.len(),
{
    if l2.len() == 0 {
        assert(l1 + l2 =~= l1);
        if let Ok(x) = pipe_lines(l1) {
            assert(x + Seq::<(i32, Seq<char>, Seq<char>)>::empty() =~= x);
        }
    } else {
        let l = l1 + l2;
        assert(l.drop_last() =~= l1 + l2.drop_last());
        assert(l.last() == l2.last());
        lemma_pipe_lines_concat(l1, l2.drop_last());
        if let Ok(x) = pipe_lines(l1) {
            if let Ok(y) = pipe_lines(l2.drop_last()) {
                if let Some(Some(e)) = pipe_line(l2.last()) {
                    assert((x + y).push(e) =~= x + y.push(e));
                }
            }
        }
    }
}

/// A line reads the same with or without a carriage return at its end.
proof fn lemma_pipe_line_strip_cr(x: Seq<char>)
    ensures
        pipe_line(strip_cr(x)) == pipe_line(x),
{
    if x.len() > 0 && x.last() == '\r' {
        let y = x.drop_last();
        assert(x =~= y.push('\r'));
        assert(is_white_space('\r'));
        lemma_trim_push_white(y, '\r');
        let py = split_on(y, '|');
        lemma_split_on_len(y, '|');
        assert(x.drop_last() =~= y);
        let px = split_on(x, '|');
        assert(px == py.update(py.len() - 1, py.last().push('\r')));
        if py.len() >= 3 {
            let ty = py.skip(2);
            assert(px.skip(2) =~= ty.update(ty.len() - 1, ty.last().push('\r')));
            lemma_join_push_last(ty, seq!['|'], '\r');
            lemma_trim_push_white(join(ty, seq!['|']), '\r');
            assert(px[0] == py[0] && px[1] == py[1]);
        }
    }
}

/// The lines of a text end in the same entries whether its last piece is read as a
/// terminated line or as the final line.
proof fn lemma_pipe_lines_terminated(a: Seq<char>)
    ensures
        pipe_lines(Seq::new(split_on(a, '\n').len(), |i: int| strip_cr(split_on(a, '\n')[i])))
            == pipe_lines(lines(a)),
{
    lemma_split_on_len(a, '\n');
    let pa = split_on(a, '\n');
    let t = Seq::new(pa.len(), |i: int| strip_cr(pa[i]));
    let t0 = Seq::new((pa.len() - 1) as nat, |i: int| strip_cr(pa[i]));
    assert(t.drop_last() =~= t0);
    assert(t.last() == strip_cr(pa.last()));
    lemma_pipe_line_strip_cr(pa.last());
    if pa.last().len() == 0 {
        assert(trim(pa.last()).len() == 0);
        assert(lines(a) == t0);
    } else {
        assert(lines(a) == t0.push(pa.last()));
        assert(lines(a).drop_last() =~= t0);
    }
}

/// Reading two texts joined by a line feed: when both read without error, the entries
/// are those of the first followed by those of the second; when the first has a
/// malformed line, the whole reports that line.
pub proof fn lemma_parse_concat(a: Seq<char>, b: Seq<char>)
    ensures
        match (pipe_lines(lines(a)), pipe_lines(lines(b))) {
            (Ok(x), Ok(y)) => pipe_lines(lines(a.push('\n') + b)) == Ok::<
                Seq<(i32, Seq<char>, Seq<char>)>,
                nat,
            >(x + y),
            (Err(i), _) => pipe_lines(lines(a.push('\n') + b)) == Err::<
                Seq<(i32, Seq<char>, Seq<char>)>,
                nat,
            >(i),
            (Ok(_), Err(_)) => pipe_lines(lines(a.push('\n') + b)) is Err,
        },
{
    lemma_lines_concat(a, b);
    lemma_pipe_lines_terminated(a);
    let pa = split_on(a, '\n');
    let t = Seq::new(pa.len(), |i: int| strip_cr(pa[i]));
    lemma_pipe_lines_concat(t, lines(b));
}

/// Comment and blank lines are skipped, however they are indented: a line made of any
/// whitespace followed by `#` and anything else, or of whitespace alone, yields no entry
/// and no error, and reading lines ending with such a line gives what the lines before
/// it give.
pub proof fn lemma_comment_and_blank_lines_skipped(w: Seq<char>, c: Seq<char>, ls: Seq<Seq<char>>)
    requires
        forall|i: int| 0 <= i < w.len() ==> is_white_space(#[trigger] w[i]),
    ensures
        pipe_line(w + seq!['#'] + c) is None,
        pipe_line(w) is None,
        pipe_lines(ls.push(w + seq!['#'] + c)) == pipe_lines(ls),
        pipe_lines(ls.push(w)) == pipe_lines(ls),
{
    let x = seq!['#'] + c;
    assert(w + seq!['#'] + c =~= w + x);
    assert(x[0] == '#');
    assert(!is_white_space('#'));
    lemma_trim_start_white_prefix(w, x);
    assert(trim_start(x) == x);
    lemma_trim_end_keeps_first(x);
    assert(starts_with(trim(w + x), '#'));
    lemma_trim_start_white_prefix(w, Seq::<char>::empty());
    assert(w + Seq::<char>::empty() =~= w);
    assert(trim(w).len() == 0);
    assert(ls.push(w + x).drop_last() =~= ls);
    assert(ls.push(w).drop_last() =~= ls);
}

impl ScriptureParser for QuranPipeParser {
    /// Reads the text line by line (see `parse_text`).
    fn parse(&self, raw_content: &str) -> (r: Result<Vec<ParsedEntry>, ScriptureError>)
        ensures
            match pipe_lines(lines(raw_content@)) {
                Err(i) => r matches Err(ScriptureError::ParseError(m)) && m@ == invalid_line_message(i + 1),
                Ok(es) => r matches Ok(v) && v@.len() == es.len() && forall|k: int| 0 <= k < es.len() ==>
                    (#[trigger] v@[k])@ == (self.work_id.0, es[k].0, es[k].1, es[k].2, self.namespace_id.0),
            },
    {
        self.parse_text(raw_content)
    }
}

} // verus!
