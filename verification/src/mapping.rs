//! The rename mapping and its on-disk format.
//!
//! From the filtered symbol names the mapper builds an ordered sequence of
//! unique `(original, prefixed)` pairs, sorted lexicographically by
//! original name so that the persisted mapping file is byte-for-byte
//! reproducible. The persister renders one pair per line, the two names
//! separated by a single space and the line closed by a newline.

use vstd::prelude::*;

verus! {

use crate::naming::prefix_spec;
use crate::naming::prefixed;
use crate::naming::prefixed_name;
use crate::order::bytes_eq;
use crate::order::bytes_lt;
use crate::order::lemma_lex_le_antisym;
use crate::order::lemma_lex_le_total;
use crate::order::lemma_lex_lt_trans;
use crate::order::lex_le;
use crate::order::lex_lt;
use crate::symbols::is_ws;
use crate::symbols::lemma_line_break_is;
use crate::symbols::lemma_tok_len_is;
use crate::symbols::lines_of;
use crate::symbols::split_lines;
use crate::symbols::split_tokens;
use crate::symbols::tok_len;
use crate::symbols::tokens;
use crate::symbols::valid_symbol_name;
use vstd::slice::slice_to_vec;

/// One entry of the rename mapping.
pub struct RenamePair {
    pub original: Vec<u8>,
    pub prefixed: Vec<u8>,
}

impl View for RenamePair {
    type V = (Seq<u8>, Seq<u8>);

    open spec fn view(&self) -> (Seq<u8>, Seq<u8>) {
        (self.original@, self.prefixed@)
    }
}

/// The views of a sequence of rename pairs.
pub open spec fn pair_views(ps: Seq<RenamePair>) -> Seq<(Seq<u8>, Seq<u8>)> {
    ps.map_values(|p: RenamePair| p@)
}

/// The ordered rename mapping, one pair per renamed symbol.
pub struct RenameMapping {
    pub pairs: Vec<RenamePair>,
}

impl View for RenameMapping {
    type V = Seq<(Seq<u8>, Seq<u8>)>;

    open spec fn view(&self) -> Seq<(Seq<u8>, Seq<u8>)> {
        pair_views(self.pairs@)
    }
}

/// Well-formedness of a pair sequence: every original is a usable symbol
/// name, every prefixed name follows the renaming rule, and the originals
/// are strictly sorted — so each occurs exactly once.
pub open spec fn pairs_wf(m: Seq<(Seq<u8>, Seq<u8>)>) -> bool {
    &&& forall|i: int|
        0 <= i < m.len() ==> valid_symbol_name((#[trigger] m[i]).0) && m[i].1 == prefixed(m[i].0)
    &&& forall|i: int, j: int| 0 <= i < j < m.len() ==> #[trigger] lex_lt(m[i].0, m[j].0)
}

/// Whether some pair of `m` renames the original name `n`.
pub open spec fn contains_original(m: Seq<(Seq<u8>, Seq<u8>)>, n: Seq<u8>) -> bool {
    exists|i: int| 0 <= i < m.len() && (#[trigger] m[i]).0 == n
}

/// The full contract of mapping construction: a well-formed pair sequence
/// whose originals are exactly the distinct names of the input list.
pub open spec fn is_mapping_for(m: Seq<(Seq<u8>, Seq<u8>)>, names: Seq<Seq<u8>>) -> bool {
    &&& pairs_wf(m)
    &&& forall|k: int| 0 <= k < names.len() ==> contains_original(m, #[trigger] names[k])
    &&& forall|i: int| 0 <= i < m.len() ==> names.contains((#[trigger] m[i]).0)
}

/// The prefixed counterpart of a usable symbol name is itself usable.
pub proof fn lemma_prefixed_valid(n: Seq<u8>)
    requires
        valid_symbol_name(n),
    ensures
        valid_symbol_name(prefixed(n)),
{
    assert forall|j: int| 0 <= j < prefixed(n).len() implies !is_ws(#[trigger] prefixed(n)[j])
        && prefixed(n)[j] != 10 by {
        if j < 5 {
            assert(prefixed(n)[j] == (prefix_spec() + seq![95u8])[j]);
        } else {
            assert(prefixed(n)[j] == n[j - 5]);
        }
    }
}

/// Builds the rename mapping from the filtered symbol names: one pair per
/// distinct name, sorted lexicographically by original name, each prefixed
/// name derived by the renaming rule.
pub fn build_mapping(names: &Vec<Vec<u8>>) -> (m: RenameMapping)
    requires
        forall|i: int| 0 <= i < names@.len() ==> valid_symbol_name(#[trigger] names@[i]@),
    ensures
        is_mapping_for(m@, names@.map_values(|n: Vec<u8>| n@)),
{
    let ghost nviews = names@.map_values(|n: Vec<u8>| n@);
    let mut pairs: Vec<RenamePair> = Vec::new();
    let mut k: usize = 0;
    while k < names.len()
        invariant
            k <= names.len(),
            nviews == names@.map_values(|n: Vec<u8>| n@),
            nviews.len() == names@.len(),
            forall|i: int| 0 <= i < names@.len() ==> valid_symbol_name(#[trigger] names@[i]@),
            pairs_wf(pair_views(pairs@)),
            forall|t: int|
                0 <= t < k ==> contains_original(
                    pair_views(pairs@),
                    #[trigger] nviews[t],
                ),
            forall|i: int|
                0 <= i < pairs@.len() ==> nviews.take(k as int).contains(
                    (#[trigger] pair_views(pairs@)[i]).0,
                ),
        decreases names.len() - k,
    {
        let ghost old_v = pair_views(pairs@);
        let name = &names[k];
        let mut idx: usize = 0;
        loop
            invariant
                idx <= pairs.len(),
                old_v == pair_views(pairs@),
                forall|t: int| 0 <= t < idx ==> lex_lt((#[trigger] old_v[t]).0, name@),
            ensures
                idx <= pairs.len(),
                old_v == pair_views(pairs@),
                forall|t: int| 0 <= t < idx ==> lex_lt((#[trigger] old_v[t]).0, name@),
                idx == pairs@.len() || !lex_lt(old_v[idx as int].0, name@),
            decreases pairs.len() - idx,
        {
            if idx >= pairs.len() {
                break;
            }
            if !bytes_lt(pairs[idx].original.as_slice(), name.as_slice()) {
                proof {
                    assert(old_v[idx as int].0 == pairs@[idx as int].original@);
                }
                break;
            }
            proof {
                assert(old_v[idx as int].0 == pairs@[idx as int].original@);
            }
            idx = idx + 1;
        }
        let mut duplicate = false;
        if idx < pairs.len() {
            duplicate = bytes_eq(pairs[idx].original.as_slice(), name.as_slice());
        }
        if duplicate {
            proof {
                assert(old_v[idx as int].0 == pairs@[idx as int].original@);
                assert(contains_original(old_v, nviews[k as int]));
                assert(nviews.take(k as int + 1) =~= nviews.take(k as int).push(nviews[k as int]));
                assert forall|i: int| 0 <= i < pairs@.len() implies nviews.take(
                    k as int + 1,
                ).contains((#[trigger] pair_views(pairs@)[i]).0) by {
                    assert(nviews.take(k as int).contains(old_v[i].0));
                    let t = choose|t: int|
                        0 <= t < k && nviews.take(k as int)[t] == old_v[i].0;
                    assert(nviews.take(k as int + 1)[t] == old_v[i].0);
                }
            }
        } else {
            let pair = RenamePair {
                original: slice_to_vec(name.as_slice()),
                prefixed: prefixed_name(name.as_slice()),
            };
            proof {
                // The insertion point splits the old pairs strictly below
                // and strictly above the new name.
                if idx < old_v.len() {
                    lemma_lex_le_total(name@, old_v[idx as int].0);
                    if lex_le(old_v[idx as int].0, name@) {
                        lemma_lex_le_antisym(old_v[idx as int].0, name@);
                    }
                    assert(lex_lt(name@, old_v[idx as int].0));
                }
                assert forall|t: int| idx <= t < old_v.len() implies lex_lt(
                    name@,
                    (#[trigger] old_v[t]).0,
                ) by {
                    if t > idx {
                        lemma_lex_lt_trans(name@, old_v[idx as int].0, old_v[t].0);
                    }
                }
            }
            pairs.insert(idx, pair);
            proof {
                let new_v = pair_views(pairs@);
                lemma_prefixed_valid(name@);
                assert forall|i: int| 0 <= i < new_v.len() implies ((#[trigger] new_v[i])
                    == if i < idx {
                    old_v[i]
                } else if i == idx {
                    (name@, prefixed(name@))
                } else {
                    old_v[i - 1]
                }) by {
                    assert(new_v[i] == pairs@[i]@);
                }
                assert(pairs_wf(new_v)) by {
                    assert forall|i: int, j: int| 0 <= i < j < new_v.len() implies #[trigger] lex_lt(
                        new_v[i].0,
                        new_v[j].0,
                    ) by {}
                }
                assert(contains_original(new_v, nviews[k as int])) by {
                    assert(new_v[idx as int].0 == nviews[k as int]);
                }
                assert forall|t: int| 0 <= t < k + 1 implies contains_original(
                    new_v,
                    #[trigger] nviews[t],
                ) by {
                    if t < k {
                        assert(contains_original(old_v, nviews[t]));
                        let i = choose|i: int| 0 <= i < old_v.len() && (#[trigger] old_v[i]).0
                            == nviews[t];
                        if i < idx {
                            assert(new_v[i].0 == nviews[t]);
                        } else {
                            assert(new_v[i + 1].0 == nviews[t]);
                        }
                    }
                }
                assert(nviews.take(k as int + 1) =~= nviews.take(k as int).push(nviews[k as int]));
                assert forall|i: int| 0 <= i < new_v.len() implies nviews.take(
                    k as int + 1,
                ).contains((#[trigger] new_v[i]).0) by {
                    if i == idx {
                        assert(nviews.take(k as int + 1)[k as int] == new_v[i].0);
                    } else {
                        let o = if i < idx { i } else { i - 1 };
                        assert(nviews.take(k as int).contains(old_v[o].0));
                        let t = choose|t: int|
                            0 <= t < k && nviews.take(k as int)[t] == old_v[o].0;
                        assert(nviews.take(k as int + 1)[t] == new_v[i].0);
                    }
                }
            }
        }
        k = k + 1;
    }
    proof {
        assert(nviews.take(nviews.len() as int) =~= nviews);
    }
    RenameMapping { pairs }
}

/// Law: each distinct original name occurs exactly once in a well-formed
/// mapping — the strict sorting leaves no room for duplicates.
pub proof fn lemma_originals_unique(m: Seq<(Seq<u8>, Seq<u8>)>, i: int, j: int)
    requires
        pairs_wf(m),
        0 <= i < m.len(),
        0 <= j < m.len(),
        i != j,
    ensures
        m[i].0 != m[j].0,
{
    if i < j {
        assert(lex_lt(m[i].0, m[j].0));
    } else {
        assert(lex_lt(m[j].0, m[i].0));
    }
}

/// Law: cross-component consistency. Every name of the input list is
/// renamed by some pair of the mapping, and that pair carries exactly
/// `prefixed(name)` — the same value the binding name rewriter computes
/// for the name, independently and without reading the mapping file.
pub proof fn lemma_binding_consistency(
    m: Seq<(Seq<u8>, Seq<u8>)>,
    names: Seq<Seq<u8>>,
    n: Seq<u8>,
)
    requires
        is_mapping_for(m, names),
        names.contains(n),
    ensures
        contains_original(m, n),
        forall|i: int| 0 <= i < m.len() && (#[trigger] m[i]).0 == n ==> m[i].1 == prefixed(n),
{
    let t = choose|t: int| 0 <= t < names.len() && names[t] == n;
    assert(contains_original(m, names[t]));
}

/// Law: mapping construction is deterministic. Any two well-formed
/// mappings whose originals cover the same set of names are equal, so
/// running the mapper twice over the same symbol list — or over any
/// reordering or duplication of it — reproduces the mapping, and with it
/// the serialized mapping file, byte for byte.
pub proof fn lemma_mapping_deterministic(
    m1: Seq<(Seq<u8>, Seq<u8>)>,
    m2: Seq<(Seq<u8>, Seq<u8>)>,
    names1: Seq<Seq<u8>>,
    names2: Seq<Seq<u8>>,
)
    requires
        is_mapping_for(m1, names1),
        is_mapping_for(m2, names2),
        forall|n: Seq<u8>| names1.contains(n) <==> names2.contains(n),
    ensures
        m1 == m2,
        serialize_pairs(m1) == serialize_pairs(m2),
{
    assert forall|n: Seq<u8>| contains_original(m1, n) implies contains_original(m2, n) by {
        let i = choose|i: int| 0 <= i < m1.len() && (#[trigger] m1[i]).0 == n;
        assert(names1.contains(n));
        let t = choose|t: int| 0 <= t < names2.len() && names2[t] == n;
        assert(contains_original(m2, names2[t]));
    }
    assert forall|n: Seq<u8>| contains_original(m2, n) implies contains_original(m1, n) by {
        let i = choose|i: int| 0 <= i < m2.len() && (#[trigger] m2[i]).0 == n;
        assert(names2.contains(n));
        let t = choose|t: int| 0 <= t < names1.len() && names1[t] == n;
        assert(contains_original(m1, names1[t]));
    }
    lemma_sorted_same_originals_equal(m1, m2);
}

/// Two well-formed pair sequences that rename the same originals are the
/// same sequence.
proof fn lemma_sorted_same_originals_equal(m1: Seq<(Seq<u8>, Seq<u8>)>, m2: Seq<(Seq<u8>, Seq<u8>)>)
    requires
        pairs_wf(m1),
        pairs_wf(m2),
        forall|n: Seq<u8>| contains_original(m1, n) <==> contains_original(m2, n),
    ensures
        m1 == m2,
    decreases m1.len(),
{
    if m1.len() == 0 {
        if m2.len() > 0 {
            assert(contains_original(m2, m2[0].0));
            assert(contains_original(m1, m2[0].0));
        }
        assert(m1 =~= m2);
    } else if m2.len() == 0 {
        assert(contains_original(m1, m1[0].0));
        assert(contains_original(m2, m1[0].0));
    } else {
        // The two head originals are each other's lower bounds, so they
        // are equal, and the prefix rule makes the whole pairs equal.
        assert(contains_original(m1, m1[0].0));
        let j = choose|j: int| 0 <= j < m2.len() && (#[trigger] m2[j]).0 == m1[0].0;
        assert(contains_original(m2, m2[0].0));
        let i = choose|i: int| 0 <= i < m1.len() && (#[trigger] m1[i]).0 == m2[0].0;
        if j > 0 && i > 0 {
            assert(lex_lt(m2[0].0, m2[j].0));
            assert(lex_lt(m1[0].0, m1[i].0));
            lemma_lex_le_antisym(m1[0].0, m2[0].0);
        } else if j > 0 {
            assert(lex_lt(m2[0].0, m2[j].0));
        } else if i > 0 {
            assert(lex_lt(m1[0].0, m1[i].0));
        }
        assert(m1[0].0 == m2[0].0);
        assert(m1[0] == m2[0]);
        let t1 = m1.drop_first();
        let t2 = m2.drop_first();
        assert forall|a: int|
            0 <= a < t1.len() implies valid_symbol_name((#[trigger] t1[a]).0) && t1[a].1
            == prefixed(t1[a].0) by {
            assert(t1[a] == m1[a + 1]);
        }
        assert forall|a: int, b: int| 0 <= a < b < t1.len() implies #[trigger] lex_lt(
            t1[a].0,
            t1[b].0,
        ) by {
            assert(t1[a] == m1[a + 1]);
            assert(t1[b] == m1[b + 1]);
        }
        assert forall|a: int|
            0 <= a < t2.len() implies valid_symbol_name((#[trigger] t2[a]).0) && t2[a].1
            == prefixed(t2[a].0) by {
            assert(t2[a] == m2[a + 1]);
        }
        assert forall|a: int, b: int| 0 <= a < b < t2.len() implies #[trigger] lex_lt(
            t2[a].0,
            t2[b].0,
        ) by {
            assert(t2[a] == m2[a + 1]);
            assert(t2[b] == m2[b + 1]);
        }
        assert forall|n: Seq<u8>| contains_original(t1, n) implies contains_original(t2, n) by {
            let a = choose|a: int| 0 <= a < t1.len() && (#[trigger] t1[a]).0 == n;
            assert(t1[a] == m1[a + 1]);
            assert(lex_lt(m1[0].0, n));
            assert(contains_original(m1, n));
            assert(contains_original(m2, n));
            let b = choose|b: int| 0 <= b < m2.len() && (#[trigger] m2[b]).0 == n;
            if b == 0 {
                assert(lex_lt(n, n));
            }
            assert(t2[b - 1].0 == n);
        }
        assert forall|n: Seq<u8>| contains_original(t2, n) implies contains_original(t1, n) by {
            let a = choose|a: int| 0 <= a < t2.len() && (#[trigger] t2[a]).0 == n;
            assert(t2[a] == m2[a + 1]);
            assert(lex_lt(m2[0].0, n));
            assert(contains_original(m2, n));
            assert(contains_original(m1, n));
            let b = choose|b: int| 0 <= b < m1.len() && (#[trigger] m1[b]).0 == n;
            if b == 0 {
                assert(lex_lt(n, n));
            }
            assert(t1[b - 1].0 == n);
        }
        lemma_sorted_same_originals_equal(t1, t2);
        assert(m1 =~= seq![m1[0]] + t1);
        assert(m2 =~= seq![m2[0]] + t2);
    }
}

/// The mapping-file rendering of one pair: original name, one space,
/// prefixed name, newline.
pub open spec fn pair_line(p: (Seq<u8>, Seq<u8>)) -> Seq<u8> {
    p.0 + seq![32u8] + p.1 + seq![10u8]
}

/// The mapping-file rendering of a whole mapping: one line per pair, in
/// order, no header and no trailing metadata.
pub open spec fn serialize_pairs(m: Seq<(Seq<u8>, Seq<u8>)>) -> Seq<u8>
    decreases m.len(),
{
    if m.len() == 0 {
        seq![]
    } else {
        pair_line(m[0]) + serialize_pairs(m.drop_first())
    }
}

proof fn lemma_serialize_push(m: Seq<(Seq<u8>, Seq<u8>)>, p: (Seq<u8>, Seq<u8>))
    ensures
        serialize_pairs(m.push(p)) == serialize_pairs(m) + pair_line(p),
    decreases m.len(),
{
    if m.len() == 0 {
        assert(m.push(p).drop_first() =~= m);
        assert(serialize_pairs(m.push(p)) =~= serialize_pairs(m) + pair_line(p));
    } else {
        lemma_serialize_push(m.drop_first(), p);
        assert(m.push(p).drop_first() =~= m.drop_first().push(p));
        assert(serialize_pairs(m.push(p)) =~= serialize_pairs(m) + pair_line(p));
    }
}

/// Appends a byte string to a buffer.
pub(crate) fn append_bytes(out: &mut Vec<u8>, s: &[u8])
    ensures
        final(out)@ == old(out)@ + s@,
{
    let mut i: usize = 0;
    proof {
        assert(out@ =~= old(out)@ + s@.take(0));
    }
    while i < s.len()
        invariant
            i <= s.len(),
            out@ == old(out)@ + s@.take(i as int),
        decreases s.len() - i,
    {
        out.push(s[i]);
        i = i + 1;
        proof {
            assert(out@ =~= old(out)@ + s@.take(i as int));
        }
    }
    proof {
        assert(s@.take(s@.len() as int) =~= s@);
    }
}

/// Serializes the mapping to the mapping-file format.
pub fn serialize_mapping(m: &RenameMapping) -> (out: Vec<u8>)
    ensures
        out@ == serialize_pairs(m@),
{
    let mut out: Vec<u8> = Vec::new();
    let mut i: usize = 0;
    proof {
        assert(m@.take(0) =~= Seq::<(Seq<u8>, Seq<u8>)>::empty());
        assert(out@ =~= serialize_pairs(m@.take(0)));
    }
    while i < m.pairs.len()
        invariant
            i <= m.pairs.len(),
            m@.len() == m.pairs@.len(),
            forall|t: int| 0 <= t < m@.len() ==> #[trigger] m@[t] == m.pairs@[t]@,
            out@ == serialize_pairs(m@.take(i as int)),
        decreases m.pairs.len() - i,
    {
        append_bytes(&mut out, m.pairs[i].original.as_slice());
        out.push(32);
        append_bytes(&mut out, m.pairs[i].prefixed.as_slice());
        out.push(10);
        proof {
            lemma_serialize_push(m@.take(i as int), m@[i as int]);
            assert(m@.take(i as int).push(m@[i as int]) =~= m@.take(i as int + 1));
            assert(out@ =~= serialize_pairs(m@.take(i as int)) + pair_line(m@[i as int]));
        }
        i = i + 1;
    }
    proof {
        assert(m@.take(m@.len() as int) =~= m@);
    }
    out
}

/// What re-parsing a mapping file yields: for each line its two
/// whitespace-separated fields, or nothing if any line does not have
/// exactly two.
pub open spec fn parse_pairs_lines(ls: Seq<Seq<u8>>) -> Option<Seq<(Seq<u8>, Seq<u8>)>>
    decreases ls.len(),
{
    if ls.len() == 0 {
        Some(seq![])
    } else if tokens(ls[0]).len() == 2 {
        match parse_pairs_lines(ls.drop_first()) {
            Some(r) => Some(seq![(tokens(ls[0])[0], tokens(ls[0])[1])] + r),
            None => None,
        }
    } else {
        None
    }
}

/// What re-parsing raw mapping-file bytes yields.
pub open spec fn parse_mapping_spec(data: Seq<u8>) -> Option<Seq<(Seq<u8>, Seq<u8>)>> {
    parse_pairs_lines(lines_of(data))
}

proof fn lemma_parse_lines_push(ls: Seq<Seq<u8>>, l: Seq<u8>)
    ensures
        parse_pairs_lines(ls.push(l)) == match parse_pairs_lines(ls) {
            Some(r) => {
                if tokens(l).len() == 2 {
                    Some(r.push((tokens(l)[0], tokens(l)[1])))
                } else {
                    None::<Seq<(Seq<u8>, Seq<u8>)>>
                }
            },
            None => None,
        },
    decreases ls.len(),
{
    if ls.len() == 0 {
        assert(ls.push(l).drop_first() =~= ls);
        if tokens(l).len() == 2 {
            assert(seq![(tokens(l)[0], tokens(l)[1])] + Seq::<(Seq<u8>, Seq<u8>)>::empty()
                =~= Seq::<(Seq<u8>, Seq<u8>)>::empty().push((tokens(l)[0], tokens(l)[1])));
        }
    } else {
        lemma_parse_lines_push(ls.drop_first(), l);
        assert(ls.push(l).drop_first() =~= ls.drop_first().push(l));
        if tokens(ls[0]).len() == 2 {
            match parse_pairs_lines(ls.drop_first()) {
                Some(r) => {
                    if tokens(l).len() == 2 {
                        assert(seq![(tokens(ls[0])[0], tokens(ls[0])[1])] + r.push(
                            (tokens(l)[0], tokens(l)[1]),
                        ) =~= (seq![(tokens(ls[0])[0], tokens(ls[0])[1])] + r).push(
                            (tokens(l)[0], tokens(l)[1]),
                        ));
                    }
                },
                None => {},
            }
        }
    }
}

proof fn lemma_parse_lines_bad_line(ls: Seq<Seq<u8>>, i: int)
    requires
        0 <= i < ls.len(),
        tokens(ls[i]).len() != 2,
    ensures
        parse_pairs_lines(ls) is None,
    decreases i,
{
    if i > 0 && tokens(ls[0]).len() == 2 {
        assert(ls.drop_first()[i - 1] == ls[i]);
        lemma_parse_lines_bad_line(ls.drop_first(), i - 1);
    }
}

/// Re-parses mapping-file bytes into pairs; `None` when some line does not
/// hold exactly two whitespace-separated fields.
pub fn parse_mapping(data: &[u8]) -> (r: Option<RenameMapping>)
    ensures
        match r {
            Some(m) => parse_mapping_spec(data@) == Some(m@),
            None => parse_mapping_spec(data@) is None,
        },
{
    let lines = split_lines(data);
    let ghost lviews = lines@.map_values(|l: Vec<u8>| l@);
    let mut pairs: Vec<RenamePair> = Vec::new();
    let mut i: usize = 0;
    proof {
        assert(lviews.take(0) =~= Seq::<Seq<u8>>::empty());
        assert(Some(pair_views(pairs@)) =~= parse_pairs_lines(lviews.take(0)));
    }
    while i < lines.len()
        invariant
            i <= lines.len(),
            lines@.map_values(|l: Vec<u8>| l@) == lviews,
            lviews.len() == lines@.len(),
            lviews == lines_of(data@),
            parse_pairs_lines(lviews.take(i as int)) == Some(
                pair_views(pairs@),
            ),
        decreases lines.len() - i,
    {
        let mut ts = split_tokens(lines[i].as_slice());
        proof {
            assert(lviews[i as int] == lines@[i as int]@);
            lemma_parse_lines_push(lviews.take(i as int), lviews[i as int]);
            assert(lviews.take(i as int).push(lviews[i as int]) =~= lviews.take(i as int + 1));
            assert(ts@.len() == tokens(lviews[i as int]).len());
        }
        if ts.len() != 2 {
            proof {
                lemma_parse_lines_bad_line(lviews, i as int);
            }
            return None;
        }
        let second = ts.remove(1);
        let first = ts.remove(0);
        proof {
            assert(first@ == tokens(lviews[i as int])[0]);
            assert(second@ == tokens(lviews[i as int])[1]);
        }
        let ghost old_pairs = pairs@;
        pairs.push(RenamePair { original: first, prefixed: second });
        proof {
            assert(pair_views(pairs@) =~= pair_views(old_pairs).push((tokens(lviews[i as int])[0], tokens(lviews[i as int])[1])));
        }
        i = i + 1;
    }
    proof {
        assert(lviews.take(lviews.len() as int) =~= lviews);
    }
    Some(RenameMapping { pairs })
}

/// Law: the lines of a serialized pair sequence are exactly one line per
/// pair, and re-parsing them restores the pair sequence — serialization
/// round-trips.
pub proof fn lemma_round_trip(m: Seq<(Seq<u8>, Seq<u8>)>)
    requires
        forall|i: int|
            0 <= i < m.len() ==> valid_symbol_name((#[trigger] m[i]).0) && valid_symbol_name(
                m[i].1,
            ),
    ensures
        parse_mapping_spec(serialize_pairs(m)) == Some(m),
    decreases m.len(),
{
    if m.len() == 0 {
    } else {
        let p = m[0];
        let rest = m.drop_first();
        let x = p.0 + seq![32u8] + p.1;
        assert forall|a: int|
            0 <= a < rest.len() implies valid_symbol_name((#[trigger] rest[a]).0)
            && valid_symbol_name(rest[a].1) by {
            assert(rest[a] == m[a + 1]);
        }
        lemma_round_trip(rest);
        assert forall|j: int| 0 <= j < x.len() implies #[trigger] x[j] != 10 by {
            if j < p.0.len() {
                assert(x[j] == p.0[j]);
            } else if j == p.0.len() {
                assert(x[j] == 32);
            } else {
                assert(x[j] == p.1[j - p.0.len() - 1]);
            }
        }
        assert(serialize_pairs(m) =~= x + seq![10u8] + serialize_pairs(rest));
        lemma_lines_of_line(x, serialize_pairs(rest));
        lemma_tokens_of_two(p.0, p.1);
        let ls = lines_of(serialize_pairs(m));
        assert(ls == seq![x] + lines_of(serialize_pairs(rest)));
        assert(ls[0] == x);
        assert(ls.drop_first() =~= lines_of(serialize_pairs(rest)));
        assert(tokens(ls[0]).len() == 2);
        assert((tokens(ls[0])[0], tokens(ls[0])[1]) == p);
        assert(seq![p] + rest =~= m);
    }
}

/// Splitting text at a first line that holds no newline peels that line
/// off.
proof fn lemma_lines_of_line(x: Seq<u8>, rest: Seq<u8>)
    requires
        forall|j: int| 0 <= j < x.len() ==> #[trigger] x[j] != 10,
    ensures
        lines_of(x + seq![10u8] + rest) == seq![x] + lines_of(rest),
{
    let s = x + seq![10u8] + rest;
    assert forall|j: int| 0 <= j < x.len() implies #[trigger] s[j] != 10 by {
        assert(s[j] == x[j]);
    }
    assert(s[x.len() as int] == 10);
    lemma_line_break_is(s, x.len() as int);
    assert(s.subrange(0, x.len() as int) =~= x);
    assert(s.subrange(x.len() as int + 1, s.len() as int) =~= rest);
    assert(lines_of(s) =~= seq![x] + lines_of(rest));
}

/// Tokenizing two usable names joined by a single space yields exactly the
/// two names.
proof fn lemma_tokens_of_two(a: Seq<u8>, b: Seq<u8>)
    requires
        valid_symbol_name(a),
        valid_symbol_name(b),
    ensures
        tokens(a + seq![32u8] + b) == seq![a, b],
{
    let s = a + seq![32u8] + b;
    assert forall|j: int| 0 <= j < a.len() implies !is_ws(#[trigger] s[j]) by {
        assert(s[j] == a[j]);
    }
    assert(s[a.len() as int] == 32);
    assert(is_ws(s[a.len() as int]));
    lemma_tok_len_is(s, a.len() as int);
    assert(s[0] == a[0]);
    assert(!is_ws(s[0]));
    assert(s.subrange(0, a.len() as int) =~= a);
    let r = s.skip(a.len() as int);
    assert(tokens(s) == seq![a] + tokens(r));
    assert(r.len() == b.len() + 1);
    assert(r[0] == s[a.len() as int]);
    assert(is_ws(r[0]));
    assert(r.drop_first() =~= b);
    assert(tokens(r) == tokens(b));
    assert(b.len() > 0 && !is_ws(b[0]));
    lemma_tok_len_is(b, b.len() as int);
    assert(tok_len(b) == b.len());
    assert(b.subrange(0, b.len() as int) =~= b);
    let e = b.skip(b.len() as int);
    assert(e.len() == 0);
    assert(tokens(e) == Seq::<Seq<u8>>::empty());
    assert(tokens(b) == seq![b] + tokens(e));
    assert(tokens(b) =~= seq![b]);
    assert(tokens(s) =~= seq![a, b]);
}

} // verus!
