//! # In-memory scroll repository
//!
//! Holds atoms in insertion order and answers sequence queries: the atoms of one work,
//! macro container and namespace whose keys lie within optional bounds, sorted by key.
//! Atoms sharing a key keep the order in which they were inserted (a stable sort).
use vstd::prelude::*;
use crate::fsi::lex_key::{
    key_as_slice, lemma_lex_lt_asymmetric, lemma_lex_lt_irreflexive, lemma_lex_lt_total,
    lemma_lex_lt_transitive, lex_less, lex_lt,
};
use crate::fsi::scroll::{atom_views, key_of, AtomView, MacroID, NamespaceID, ScriptureAtom, WorkID};

verus! {

/// The atoms of `s` that satisfy `p`, in order.
pub open spec fn keep(s: Seq<AtomView>, p: spec_fn(AtomView) -> bool) -> Seq<AtomView>
    decreases s.len(),
{
    if s.len() == 0 {
        s
    } else if p(s.last()) {
        keep(s.drop_last(), p).push(s.last())
    } else {
        keep(s.drop_last(), p)
    }
}

/// The atoms of `s` whose key is `k`, in order.
pub open spec fn with_key(s: Seq<AtomView>, k: Seq<u8>) -> Seq<AtomView> {
    keep(s, |a: AtomView| key_of(a) == k)
}

/// `s` is sorted by key: no atom has a key sorting before the key of an earlier atom.
pub open spec fn sorted_by_key(s: Seq<AtomView>) -> bool {
    forall|i: int, j: int| 0 <= i < j < s.len() ==> !lex_lt(key_of(#[trigger] s[j]), key_of(#[trigger] s[i]))
}

/// `out` is `input` stably sorted by key: sorted, and for every key the atoms with that
/// key appear in the same order as in `input` (so `out` is a reordering of `input`).
pub open spec fn stably_sorted(input: Seq<AtomView>, out: Seq<AtomView>) -> bool {
    &&& sorted_by_key(out)
    &&& forall|k: Seq<u8>| #[trigger] with_key(out, k) == with_key(input, k)
}

/// Whether an atom belongs to the requested work, macro container and namespace, and its
/// key lies within the bounds (inclusive) that are given.
pub open spec fn in_sequence(
    a: AtomView,
    work: i32,
    macro_level: i32,
    namespace: i16,
    start: Option<Seq<u8>>,
    end: Option<Seq<u8>>,
) -> bool {
    &&& a.0.0 == work
    &&& a.0.1 == macro_level
    &&& a.0.2 == namespace
    &&& match start {
        Some(s) => !lex_lt(key_of(a), s),
        None => true,
    }
    &&& match end {
        Some(e) => !lex_lt(e, key_of(a)),
        None => true,
    }
}

/// The view of an optional bound.
pub open spec fn bound_view(b: Option<&[u8]>) -> Option<Seq<u8>> {
    match b {
        Some(s) => Some(s@),
        None => None,
    }
}

/// Filtering distributes over concatenation.
pub proof fn lemma_keep_concat(a: Seq<AtomView>, b: Seq<AtomView>, p: spec_fn(AtomView) -> bool)
    ensures
        keep(a + b, p) == keep(a, p) + keep(b, p),
    decreases b.len(),
{
    if b.len() == 0 {
        assert(a + b =~= a);
        assert(keep(a, p) + keep(b, p) =~= keep(a, p));
    } else {
        lemma_keep_concat(a, b.drop_last(), p);
        assert((a + b).drop_last() =~= a + b.drop_last());
        assert((a + b).last() == b.last());
        if p(b.last()) {
            assert(keep(a, p) + keep(b.drop_last(), p).push(b.last()) =~= (keep(a, p) + keep(
                b.drop_last(),
                p,
            )).push(b.last()));
        }
    }
}

/// Every element the filter keeps comes from the sequence and satisfies the predicate;
/// every element of the sequence that satisfies it is kept.
pub proof fn lemma_keep_members(s: Seq<AtomView>, p: spec_fn(AtomView) -> bool)
    ensures
        forall|k: int| 0 <= k < keep(s, p).len() ==> p(#[trigger] keep(s, p)[k]) && s.contains(keep(s, p)[k]),
        forall|i: int| 0 <= i < s.len() && p(#[trigger] s[i]) ==> keep(s, p).contains(s[i]),
    decreases s.len(),
{
    if s.len() > 0 {
        lemma_keep_members(s.drop_last(), p);
        let r = keep(s.drop_last(), p);
        assert forall|k: int| 0 <= k < keep(s, p).len() implies p(#[trigger] keep(s, p)[k]) && s.contains(
            keep(s, p)[k],
        ) by {
            if k < r.len() {
                assert(keep(s, p)[k] == r[k]);
                let j = choose|j: int| 0 <= j < s.drop_last().len() && s.drop_last()[j] == r[k];
                assert(s[j] == r[k]);
            } else {
                assert(keep(s, p)[k] == s.last());
                assert(s[s.len() - 1] == s.last());
            }
        }
        assert forall|i: int| 0 <= i < s.len() && p(#[trigger] s[i]) implies keep(s, p).contains(s[i]) by {
            if i < s.len() - 1 {
                assert(s.drop_last()[i] == s[i]);
                let k = choose|k: int| 0 <= k < r.len() && r[k] == s[i];
                assert(keep(s, p)[k] == r[k]);
            } else {
                assert(keep(s, p)[r.len() as int] == s.last());
            }
        }
    }
}

/// What a sequence read returns: every atom read is one of the atoms held, lies in the
/// requested work, macro container and namespace, and has a key within each bound that
/// is given (not before the start, not after the end, each checked on its own); and
/// every atom held that meets all of this is read.
pub proof fn lemma_sequence_read(
    s: Seq<AtomView>,
    work: i32,
    macro_level: i32,
    namespace: i16,
    start: Option<Seq<u8>>,
    end: Option<Seq<u8>>,
    out: Seq<AtomView>,
)
    requires
        stably_sorted(
            keep(s, |a: AtomView| in_sequence(a, work, macro_level, namespace, start, end)),
            out,
        ),
    ensures
        forall|i: int|
            0 <= i < out.len() ==> {
                let a = #[trigger] out[i];
                &&& s.contains(a)
                &&& a.0.0 == work && a.0.1 == macro_level && a.0.2 == namespace
                &&& (start matches Some(b) ==> !lex_lt(key_of(a), b))
                &&& (end matches Some(e) ==> !lex_lt(e, key_of(a)))
            },
        forall|j: int|
            0 <= j < s.len() ==> ({
                let a = #[trigger] s[j];
                &&& a.0.0 == work && a.0.1 == macro_level && a.0.2 == namespace
                &&& (start matches Some(b) ==> !lex_lt(key_of(a), b))
                &&& (end matches Some(e) ==> !lex_lt(e, key_of(a)))
            }) ==> out.contains(s[j]),
        forall|i: int, j: int|
            0 <= i < j < out.len() ==> !lex_lt(key_of(#[trigger] out[j]), key_of(#[trigger] out[i])),
{
    let p = |a: AtomView| in_sequence(a, work, macro_level, namespace, start, end);
    let input = keep(s, p);
    lemma_keep_members(s, p);
    assert forall|i: int| 0 <= i < out.len() implies {
        let a = #[trigger] out[i];
        &&& s.contains(a)
        &&& a.0.0 == work && a.0.1 == macro_level && a.0.2 == namespace
        &&& (start matches Some(b) ==> !lex_lt(key_of(a), b))
        &&& (end matches Some(e) ==> !lex_lt(e, key_of(a)))
    } by {
        let a = out[i];
        let q = |x: AtomView| key_of(x) == key_of(a);
        lemma_keep_members(out, q);
        lemma_keep_members(input, q);
        assert(with_key(out, key_of(a)) == with_key(input, key_of(a)));
        assert(keep(out, q).contains(a));
        let k = choose|k: int| 0 <= k < keep(input, q).len() && keep(input, q)[k] == a;
        assert(input.contains(a));
        let m = choose|m: int| 0 <= m < input.len() && input[m] == a;
        assert(p(input[m]));
    }
    assert forall|j: int|
        0 <= j < s.len() && ({
            let a = #[trigger] s[j];
            &&& a.0.0 == work && a.0.1 == macro_level && a.0.2 == namespace
            &&& (start matches Some(b) ==> !lex_lt(key_of(a), b))
            &&& (end matches Some(e) ==> !lex_lt(e, key_of(a)))
        }) implies out.contains(s[j]) by {
        let a = s[j];
        assert(p(a));
        assert(input.contains(a));
        let m = choose|m: int| 0 <= m < input.len() && input[m] == a;
        let q = |x: AtomView| key_of(x) == key_of(a);
        lemma_keep_members(out, q);
        lemma_keep_members(input, q);
        assert(with_key(out, key_of(a)) == with_key(input, key_of(a)));
        assert(keep(input, q).contains(a));
        let k = choose|k: int| 0 <= k < keep(out, q).len() && keep(out, q)[k] == a;
        assert(out.contains(a));
    }
}

/// Filtering keeps nothing when no element satisfies the predicate.
pub proof fn lemma_keep_none(s: Seq<AtomView>, p: spec_fn(AtomView) -> bool)
    requires
        forall|i: int| 0 <= i < s.len() ==> !p(#[trigger] s[i]),
    ensures
        keep(s, p) == Seq::<AtomView>::empty(),
    decreases s.len(),
{
    if s.len() > 0 {
        lemma_keep_none(s.drop_last(), p);
    }
}

/// Inserting an atom after every atom whose key does not sort after its key, and before
/// every atom whose key does, keeps a sorted sequence sorted and appends the atom to its
/// key's group.
proof fn lemma_insert_sorted(out: Seq<AtomView>, pos: int, x: AtomView)
    requires
        0 <= pos <= out.len(),
        sorted_by_key(out),
        forall|i: int| 0 <= i < pos ==> !lex_lt(key_of(x), key_of(#[trigger] out[i])),
        pos < out.len() ==> lex_lt(key_of(x), key_of(out[pos])),
    ensures
        sorted_by_key(out.insert(pos, x)),
        forall|k: Seq<u8>|
            #[trigger] with_key(out.insert(pos, x), k) == if k == key_of(x) {
                with_key(out, k).push(x)
            } else {
                with_key(out, k)
            },
{
    let n = out.insert(pos, x);
    // Every atom from `pos` on has a key sorting strictly after `x`.
    assert forall|j: int| pos <= j < out.len() implies lex_lt(key_of(x), key_of(#[trigger] out[j])) by {
        if j > pos {
            assert(!lex_lt(key_of(out[j]), key_of(out[pos])));
            lemma_lex_lt_total(key_of(out[pos]), key_of(out[j]));
            if key_of(out[pos]) != key_of(out[j]) {
                lemma_lex_lt_transitive(key_of(x), key_of(out[pos]), key_of(out[j]));
            }
        }
    }
    assert forall|i: int, j: int| 0 <= i < j < n.len() implies !lex_lt(
        key_of(#[trigger] n[j]),
        key_of(#[trigger] n[i]),
    ) by {
        if j < pos {
            assert(n[i] == out[i] && n[j] == out[j]);
        } else if j == pos {
            assert(n[j] == x && n[i] == out[i]);
        } else if i < pos {
            assert(n[i] == out[i] && n[j] == out[j - 1]);
            // key(out[i]) <= key(x) < key(out[j - 1])
            lemma_lex_lt_total(key_of(x), key_of(out[i]));
            if key_of(out[i]) != key_of(x) {
                lemma_lex_lt_transitive(key_of(out[i]), key_of(x), key_of(out[j - 1]));
                lemma_lex_lt_asymmetric(key_of(out[i]), key_of(out[j - 1]));
            } else {
                lemma_lex_lt_asymmetric(key_of(x), key_of(out[j - 1]));
            }
        } else if i == pos {
            assert(n[i] == x && n[j] == out[j - 1]);
            lemma_lex_lt_asymmetric(key_of(x), key_of(out[j - 1]));
        } else {
            assert(n[i] == out[i - 1] && n[j] == out[j - 1]);
        }
    }
    assert(n =~= out.take(pos) + seq![x] + out.skip(pos));
    assert(out =~= out.take(pos) + out.skip(pos));
    assert forall|k: Seq<u8>| #[trigger] with_key(n, k) == if k == key_of(x) {
        with_key(out, k).push(x)
    } else {
        with_key(out, k)
    } by {
        let p = |a: AtomView| key_of(a) == k;
        lemma_keep_concat(out.take(pos) + seq![x], out.skip(pos), p);
        lemma_keep_concat(out.take(pos), seq![x], p);
        lemma_keep_concat(out.take(pos), out.skip(pos), p);
        assert(seq![x].drop_last() =~= Seq::<AtomView>::empty());
        assert(seq![x].last() == x);
        assert(keep(Seq::<AtomView>::empty(), p) =~= Seq::<AtomView>::empty());
        if k == key_of(x) {
            assert forall|i: int| 0 <= i < out.skip(pos).len() implies !p(
                #[trigger] out.skip(pos)[i],
            ) by {
                assert(out.skip(pos)[i] == out[pos + i]);
                assert(lex_lt(key_of(x), key_of(out[pos + i])));
                lemma_lex_lt_irreflexive(key_of(x));
            }
            lemma_keep_none(out.skip(pos), p);
            assert(keep(out.take(pos) + seq![x], p) =~= keep(out.take(pos), p).push(x));
            assert(with_key(n, k) =~= with_key(out, k).push(x));
        } else {
            assert(keep(seq![x], p) =~= Seq::<AtomView>::empty());
            assert(with_key(n, k) =~= with_key(out, k));
        }
    }
}

/// An in-memory repository of scroll atoms.
pub struct MockFsiRepository {
    store: Vec<ScriptureAtom>,
}

impl MockFsiRepository {
    /// The atoms held, in insertion order.
    pub closed spec fn atoms(&self) -> Seq<AtomView> {
        atom_views(self.store@)
    }

    /// An empty repository.
    pub fn new() -> (r: MockFsiRepository)
        ensures
            r.atoms() == Seq::<AtomView>::empty(),
    {
        let r = MockFsiRepository { store: Vec::new() };
        assert(r.atoms() =~= Seq::<AtomView>::empty());
        r
    }

    /// A repository preloaded with `atoms`.
    pub fn with_data(atoms: Vec<ScriptureAtom>) -> (r: MockFsiRepository)
        ensures
            r.atoms() == atom_views(atoms@),
    {
        MockFsiRepository { store: atoms }
    }

    /// Appends atoms to the repository, keeping any already held.
    pub fn insert_atoms(&mut self, atoms: Vec<ScriptureAtom>)
        ensures
            final(self).atoms() == old(self).atoms() + atom_views(atoms@),
    {
        let mut atoms = atoms;
        let ghost added = atom_views(atoms@);
        let ghost before = self.atoms();
        self.store.append(&mut atoms);
        assert(self.atoms() =~= before + added);
    }

    /// The atoms of a work, macro container and namespace whose keys lie within the
    /// given bounds (inclusive), stably sorted by key.
    pub fn get_sequence(
        &self,
        work: WorkID,
        macro_level: MacroID,
        namespace: NamespaceID,
        start_lex: Option<&[u8]>,
        end_lex: Option<&[u8]>,
    ) -> (r: Vec<ScriptureAtom>)
        ensures
            stably_sorted(
                keep(
                    self.atoms(),
                    |a: AtomView|
                        in_sequence(
                            a,
                            work.0,
                            macro_level.0,
                            namespace.0,
                            bound_view(start_lex),
                            bound_view(end_lex),
                        ),
                ),
                atom_views(r@),
            ),
            forall|i: int|
                0 <= i < r@.len() ==> {
                    let a = #[trigger] atom_views(r@)[i];
                    &&& self.atoms().contains(a)
                    &&& a.0.0 == work.0 && a.0.1 == macro_level.0 && a.0.2 == namespace.0
                    &&& (start_lex matches Some(b) ==> !lex_lt(key_of(a), b@))
                    &&& (end_lex matches Some(e) ==> !lex_lt(e@, key_of(a)))
                },
            forall|j: int|
                0 <= j < self.atoms().len() ==> ({
                    let a = #[trigger] self.atoms()[j];
                    &&& a.0.0 == work.0 && a.0.1 == macro_level.0 && a.0.2 == namespace.0
                    &&& (start_lex matches Some(b) ==> !lex_lt(key_of(a), b@))
                    &&& (end_lex matches Some(e) ==> !lex_lt(e@, key_of(a)))
                }) ==> atom_views(r@).contains(self.atoms()[j]),
    {
        let ghost p = |a: AtomView|
            in_sequence(
                a,
                work.0,
                macro_level.0,
                namespace.0,
                bound_view(start_lex),
                bound_view(end_lex),
            );
        let ghost all = self.atoms();
        let mut out: Vec<ScriptureAtom> = Vec::new();
        let mut i: usize = 0;
        assert(all.take(0) =~= Seq::<AtomView>::empty());
        assert(atom_views(out@) =~= Seq::<AtomView>::empty());
        while i < self.store.len()
            invariant
                0 <= i <= self.store@.len(),
                all == atom_views(self.store@),
                p == (|a: AtomView|
                    in_sequence(
                        a,
                        work.0,
                        macro_level.0,
                        namespace.0,
                        bound_view(start_lex),
                        bound_view(end_lex),
                    )),
                stably_sorted(keep(all.take(i as int), p), atom_views(out@)),
            decreases self.store@.len() - i,
        {
            let a = &self.store[i];
            assert(all.take(i + 1).drop_last() =~= all.take(i as int));
            assert(all.take(i + 1).last() == a@);
            let key = key_as_slice(&a.coordinate.lex_key);
            let mut wanted = a.coordinate.work == work && a.coordinate.macro_level == macro_level
                && a.coordinate.namespace == namespace;
            if wanted {
                match start_lex {
                    Some(s) => {
                        if lex_less(key, s) {
                            wanted = false;
                        }
                    },
                    None => {},
                }
            }
            if wanted {
                match end_lex {
                    Some(e) => {
                        if lex_less(e, key) {
                            wanted = false;
                        }
                    },
                    None => {},
                }
            }
            assert(a@.0.0 == a.coordinate.work.0);
            assert(wanted == in_sequence(
                a@,
                work.0,
                macro_level.0,
                namespace.0,
                bound_view(start_lex),
                bound_view(end_lex),
            ));
            assert(wanted == p(a@));
            if wanted {
                // Insert after every atom whose key does not sort after this one.
                let mut pos: usize = 0;
                while pos < out.len() && !lex_less(key, key_as_slice(&out[pos].coordinate.lex_key))
                    invariant
                        0 <= pos <= out@.len(),
                        key@ == key_of(a@),
                        forall|j: int|
                            0 <= j < pos ==> !lex_lt(
                                key_of(a@),
                                key_of(#[trigger] atom_views(out@)[j]),
                            ),
                    decreases out@.len() - pos,
                {
                    pos = pos + 1;
                }
                let ghost before = atom_views(out@);
                proof {
                    lemma_insert_sorted(before, pos as int, a@);
                }
                out.insert(pos, a.duplicate());
                assert(atom_views(out@) =~= before.insert(pos as int, a@));
                assert forall|k: Seq<u8>| #[trigger] with_key(atom_views(out@), k) == with_key(
                    keep(all.take(i + 1), p),
                    k,
                ) by {
                    let q = |b: AtomView| key_of(b) == k;
                    assert(keep(all.take(i + 1), p) == keep(all.take(i as int), p).push(a@));
                    assert(keep(all.take(i as int), p).push(a@).drop_last() =~= keep(
                        all.take(i as int),
                        p,
                    ));
                    assert(with_key(before, k) == with_key(keep(all.take(i as int), p), k));
                }
            } else {
                assert(keep(all.take(i + 1), p) == keep(all.take(i as int), p));
            }
            i = i + 1;
        }
        assert(all.take(self.store@.len() as int) =~= all);
        proof {
            lemma_sequence_read(
                all,
                work.0,
                macro_level.0,
                namespace.0,
                bound_view(start_lex),
                bound_view(end_lex),
                atom_views(out@),
            );
        }
        out
    }
}

} // verus!
