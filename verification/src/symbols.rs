//! Parsing of the symbol lister's textual output.
//!
//! The lister prints one symbol per line, columns separated by whitespace:
//! address, a single-character type marker, and the symbol name. A line is
//! kept only when its marker denotes a globally visible symbol and the name
//! does not start with an underscore.

use vstd::prelude::*;

verus! {

use vstd::slice::slice_subrange;
use vstd::slice::slice_to_vec;

/// The classification a type marker gives a symbol. Only the six global
/// markers (`T`, `D`, `B`, `C`, `R`, `W`) are kept; everything else —
/// local, debug and undefined symbols — is `Other` and discarded.
#[derive(Clone, Copy, Debug, PartialEq, Eq, Structural)]
pub enum SymbolKind {
    Text,
    InitializedData,
    UninitializedData,
    Const,
    ReadOnly,
    Weak,
    Other,
}

/// The kind a marker byte denotes (ASCII `T`, `D`, `B`, `C`, `R`, `W`).
pub open spec fn kind_of_marker(c: u8) -> SymbolKind {
    if c == 84 {
        SymbolKind::Text
    } else if c == 68 {
        SymbolKind::InitializedData
    } else if c == 66 {
        SymbolKind::UninitializedData
    } else if c == 67 {
        SymbolKind::Const
    } else if c == 82 {
        SymbolKind::ReadOnly
    } else if c == 87 {
        SymbolKind::Weak
    } else {
        SymbolKind::Other
    }
}

/// Whether a marker byte denotes a globally visible symbol.
pub open spec fn is_global_marker(c: u8) -> bool {
    kind_of_marker(c) != SymbolKind::Other
}

/// Classifies one marker byte.
pub fn marker_kind(c: u8) -> (k: SymbolKind)
    ensures
        k == kind_of_marker(c),
{
    if c == 84 {
        SymbolKind::Text
    } else if c == 68 {
        SymbolKind::InitializedData
    } else if c == 66 {
        SymbolKind::UninitializedData
    } else if c == 67 {
        SymbolKind::Const
    } else if c == 82 {
        SymbolKind::ReadOnly
    } else if c == 87 {
        SymbolKind::Weak
    } else {
        SymbolKind::Other
    }
}

/// In-line whitespace: space, tab or carriage return.
pub open spec fn is_ws(c: u8) -> bool {
    c == 32 || c == 9 || c == 13
}

/// A usable symbol name: non-empty, and free of whitespace and newlines,
/// so that it survives the whitespace-separated mapping-file format.
pub open spec fn valid_symbol_name(s: Seq<u8>) -> bool {
    s.len() > 0 && forall|j: int| 0 <= j < s.len() ==> !is_ws(#[trigger] s[j]) && s[j] != 10
}

/// Length of the leading whitespace-free token of `s`.
pub open spec fn tok_len(s: Seq<u8>) -> nat
    decreases s.len(),
{
    if s.len() == 0 || is_ws(s[0]) {
        0
    } else {
        1 + tok_len(s.drop_first())
    }
}

pub proof fn lemma_tok_len_le(s: Seq<u8>)
    ensures
        tok_len(s) <= s.len(),
        forall|j: int| 0 <= j < tok_len(s) ==> !is_ws(#[trigger] s[j]),
        tok_len(s) < s.len() ==> is_ws(s[tok_len(s) as int]),
    decreases s.len(),
{
    if s.len() > 0 && !is_ws(s[0]) {
        lemma_tok_len_le(s.drop_first());
        assert forall|j: int| 0 <= j < tok_len(s) implies !is_ws(#[trigger] s[j]) by {
            if j > 0 {
                assert(s.drop_first()[j - 1] == s[j]);
            }
        }
        if tok_len(s) < s.len() {
            assert(s.drop_first()[tok_len(s) as int - 1] == s[tok_len(s) as int]);
        }
    }
}

/// The token length is pinned by its characters: everything before it is
/// non-whitespace and it ends at whitespace or at the end of the input.
pub proof fn lemma_tok_len_is(s: Seq<u8>, i: int)
    requires
        0 <= i <= s.len(),
        forall|j: int| 0 <= j < i ==> !is_ws(#[trigger] s[j]),
        i == s.len() || is_ws(s[i]),
    ensures
        tok_len(s) == i,
    decreases i,
{
    if i > 0 {
        lemma_tok_len_is(s.drop_first(), i - 1);
    }
}

/// The whitespace-separated tokens of a line, in order.
pub open spec fn tokens(s: Seq<u8>) -> Seq<Seq<u8>>
    decreases s.len(),
    via tokens_decreases
{
    if s.len() == 0 {
        seq![]
    } else if is_ws(s[0]) {
        tokens(s.drop_first())
    } else {
        let k = tok_len(s);
        seq![s.subrange(0, k as int)] + tokens(s.skip(k as int))
    }
}

#[via_fn]
proof fn tokens_decreases(s: Seq<u8>) {
    if s.len() > 0 && !is_ws(s[0]) {
        lemma_tok_len_le(s);
    }
}

/// Every token is non-empty, whitespace-free, and drawn from the line's
/// own bytes.
pub proof fn lemma_tokens_wf(s: Seq<u8>)
    ensures
        forall|i: int| 0 <= i < tokens(s).len() ==> (#[trigger] tokens(s)[i]).len() > 0,
        forall|i: int, j: int|
            0 <= i < tokens(s).len() && 0 <= j < tokens(s)[i].len()
                ==> !is_ws(#[trigger] tokens(s)[i][j]) && s.contains(tokens(s)[i][j]),
    decreases s.len(),
{
    if s.len() == 0 {
    } else if is_ws(s[0]) {
        lemma_tokens_wf(s.drop_first());
        assert forall|i: int, j: int|
            0 <= i < tokens(s).len() && 0 <= j < tokens(s)[i].len() implies !is_ws(
            #[trigger] tokens(s)[i][j],
        ) && s.contains(tokens(s)[i][j]) by {
            assert(s.drop_first().contains(tokens(s.drop_first())[i][j]));
            let w = choose|w: int|
                0 <= w < s.drop_first().len() && s.drop_first()[w] == tokens(s.drop_first())[i][j];
            assert(s[w + 1] == tokens(s)[i][j]);
        }
    } else {
        let k = tok_len(s) as int;
        lemma_tok_len_le(s);
        lemma_tokens_wf(s.skip(k));
        assert forall|i: int| 0 <= i < tokens(s).len() implies (#[trigger] tokens(s)[i]).len()
            > 0 by {
            if i == 0 {
                assert(tokens(s)[0] == s.subrange(0, k));
            } else {
                assert(tokens(s)[i] == tokens(s.skip(k))[i - 1]);
            }
        }
        assert forall|i: int, j: int|
            0 <= i < tokens(s).len() && 0 <= j < tokens(s)[i].len() implies !is_ws(
            #[trigger] tokens(s)[i][j],
        ) && s.contains(tokens(s)[i][j]) by {
            if i == 0 {
                assert(tokens(s)[0] == s.subrange(0, k));
                assert(tokens(s)[0][j] == s[j]);
            } else {
                assert(tokens(s)[i] == tokens(s.skip(k))[i - 1]);
                assert(s.skip(k).contains(tokens(s.skip(k))[i - 1][j]));
                let w = choose|w: int|
                    0 <= w < s.skip(k).len() && s.skip(k)[w] == tokens(s.skip(k))[i - 1][j];
                assert(s[w + k] == tokens(s)[i][j]);
            }
        }
    }
}

/// Whether the line holds a global type marker in its own column: a marker
/// byte with a space on each side, as the lister prints it.
pub open spec fn has_global_marker(line: Seq<u8>) -> bool {
    exists|i: int|
        1 <= i && i + 1 < line.len() && line[i - 1] == 32 && line[i + 1] == 32
            && is_global_marker(#[trigger] line[i])
}

/// What one dump line contributes: the third column as the symbol name,
/// kept only when a global marker is present and the name does not start
/// with an underscore.
pub open spec fn line_symbol(line: Seq<u8>) -> Option<Seq<u8>> {
    if has_global_marker(line) && tokens(line).len() >= 3 && tokens(line)[2][0] != 95 {
        Some(tokens(line)[2])
    } else {
        None
    }
}

/// The extraction rule, stated as a law: a line with a global marker and at
/// least three columns yields exactly its third column, unless that name
/// starts with an underscore; every other line yields nothing.
pub proof fn lemma_line_extraction(line: Seq<u8>)
    ensures
        has_global_marker(line) && tokens(line).len() >= 3 && tokens(line)[2][0] != 95
            ==> line_symbol(line) == Some(tokens(line)[2]),
        !(has_global_marker(line) && tokens(line).len() >= 3 && tokens(line)[2][0] != 95)
            ==> line_symbol(line) is None,
{
}

/// Length of the first line of `s`: the distance to the first newline, or
/// the whole length when there is none.
pub open spec fn line_break(s: Seq<u8>) -> nat
    decreases s.len(),
{
    if s.len() == 0 || s[0] == 10 {
        0
    } else {
        1 + line_break(s.drop_first())
    }
}

pub proof fn lemma_line_break_le(s: Seq<u8>)
    ensures
        line_break(s) <= s.len(),
        forall|j: int| 0 <= j < line_break(s) ==> #[trigger] s[j] != 10,
        line_break(s) < s.len() ==> s[line_break(s) as int] == 10,
    decreases s.len(),
{
    if s.len() > 0 && s[0] != 10 {
        lemma_line_break_le(s.drop_first());
        assert forall|j: int| 0 <= j < line_break(s) implies #[trigger] s[j] != 10 by {
            if j > 0 {
                assert(s.drop_first()[j - 1] == s[j]);
            }
        }
        if line_break(s) < s.len() {
            assert(s.drop_first()[line_break(s) as int - 1] == s[line_break(s) as int]);
        }
    }
}

pub proof fn lemma_line_break_is(s: Seq<u8>, i: int)
    requires
        0 <= i <= s.len(),
        forall|j: int| 0 <= j < i ==> #[trigger] s[j] != 10,
        i == s.len() || s[i] == 10,
    ensures
        line_break(s) == i,
    decreases i,
{
    if i > 0 {
        lemma_line_break_is(s.drop_first(), i - 1);
    }
}

/// The lines of a text, split at newlines; a trailing newline closes the
/// last line rather than opening an empty one.
pub open spec fn lines_of(s: Seq<u8>) -> Seq<Seq<u8>>
    decreases s.len(),
{
    if s.len() == 0 {
        seq![]
    } else {
        let k = line_break(s) as int;
        if k < s.len() {
            seq![s.subrange(0, k)] + lines_of(s.subrange(k + 1, s.len() as int))
        } else {
            seq![s]
        }
    }
}

/// No line holds a newline byte.
pub proof fn lemma_lines_no_newline(s: Seq<u8>)
    ensures
        forall|i: int, j: int|
            0 <= i < lines_of(s).len() && 0 <= j < lines_of(s)[i].len()
                ==> #[trigger] lines_of(s)[i][j] != 10,
    decreases s.len(),
{
    if s.len() > 0 {
        let k = line_break(s) as int;
        lemma_line_break_le(s);
        if k < s.len() {
            let tail = s.subrange(k + 1, s.len() as int);
            lemma_lines_no_newline(tail);
            assert forall|i: int, j: int|
                0 <= i < lines_of(s).len() && 0 <= j < lines_of(s)[i].len()
                implies #[trigger] lines_of(s)[i][j] != 10 by {
                if i == 0 {
                    assert(lines_of(s)[0] == s.subrange(0, k));
                    assert(lines_of(s)[0][j] == s[j]);
                } else {
                    assert(lines_of(s)[i] == lines_of(tail)[i - 1]);
                }
            }
        } else {
            assert forall|i: int, j: int|
                0 <= i < lines_of(s).len() && 0 <= j < lines_of(s)[i].len()
                implies #[trigger] lines_of(s)[i][j] != 10 by {
                assert(lines_of(s)[i] == s);
            }
        }
    }
}

/// The names drawn from the dump: for each line, in order, its symbol if
/// the line is retained.
pub open spec fn symbols_of_lines(ls: Seq<Seq<u8>>) -> Seq<Seq<u8>>
    decreases ls.len(),
{
    if ls.len() == 0 {
        seq![]
    } else {
        match line_symbol(ls[0]) {
            Some(n) => seq![n] + symbols_of_lines(ls.drop_first()),
            None => symbols_of_lines(ls.drop_first()),
        }
    }
}

pub proof fn lemma_symbols_of_lines_push(ls: Seq<Seq<u8>>, l: Seq<u8>)
    ensures
        symbols_of_lines(ls.push(l)) == match line_symbol(l) {
            Some(n) => symbols_of_lines(ls) + seq![n],
            None => symbols_of_lines(ls),
        },
    decreases ls.len(),
{
    if ls.len() == 0 {
        assert(ls.push(l).drop_first() =~= ls);
        match line_symbol(l) {
            Some(n) => {
                assert(symbols_of_lines(ls.push(l)) =~= symbols_of_lines(ls) + seq![n]);
            },
            None => {},
        }
    } else {
        lemma_symbols_of_lines_push(ls.drop_first(), l);
        assert(ls.push(l).drop_first() =~= ls.drop_first().push(l));
        match line_symbol(ls[0]) {
            Some(n) => {
                match line_symbol(l) {
                    Some(m) => {
                        assert(symbols_of_lines(ls.push(l)) =~= symbols_of_lines(ls) + seq![m]);
                    },
                    None => {},
                }
            },
            None => {},
        }
    }
}

/// The symbol names a whole dump yields.
pub open spec fn symbols_of(s: Seq<u8>) -> Seq<Seq<u8>> {
    symbols_of_lines(lines_of(s))
}

/// Every extracted name is usable in the mapping-file format and does not
/// start with an underscore.
pub proof fn lemma_symbols_valid(s: Seq<u8>)
    ensures
        forall|i: int|
            0 <= i < symbols_of(s).len()
                ==> valid_symbol_name(#[trigger] symbols_of(s)[i]) && symbols_of(s)[i][0] != 95,
{
    lemma_lines_no_newline(s);
    lemma_symbols_valid_lines(lines_of(s));
}

proof fn lemma_symbols_valid_lines(ls: Seq<Seq<u8>>)
    requires
        forall|i: int, j: int|
            0 <= i < ls.len() && 0 <= j < ls[i].len() ==> #[trigger] ls[i][j] != 10,
    ensures
        forall|i: int|
            0 <= i < symbols_of_lines(ls).len()
                ==> valid_symbol_name(#[trigger] symbols_of_lines(ls)[i])
                && symbols_of_lines(ls)[i][0] != 95,
    decreases ls.len(),
{
    if ls.len() > 0 {
        assert forall|i: int, j: int|
            0 <= i < ls.drop_first().len() && 0 <= j < ls.drop_first()[i].len()
            implies #[trigger] ls.drop_first()[i][j] != 10 by {
            assert(ls.drop_first()[i] == ls[i + 1]);
        }
        lemma_symbols_valid_lines(ls.drop_first());
        let rest = symbols_of_lines(ls.drop_first());
        match line_symbol(ls[0]) {
            Some(n) => {
                lemma_tokens_wf(ls[0]);
                assert(n == tokens(ls[0])[2]);
                assert(valid_symbol_name(n)) by {
                    assert forall|j: int| 0 <= j < n.len() implies !is_ws(#[trigger] n[j]) && n[j]
                        != 10 by {
                        assert(ls[0].contains(n[j]));
                        let w = choose|w: int| 0 <= w < ls[0].len() && ls[0][w] == n[j];
                        assert(ls[0][w] != 10);
                    }
                }
                assert forall|i: int| 0 <= i < symbols_of_lines(ls).len() implies valid_symbol_name(
                    #[trigger] symbols_of_lines(ls)[i],
                ) && symbols_of_lines(ls)[i][0] != 95 by {
                    if i > 0 {
                        assert(symbols_of_lines(ls)[i] == rest[i - 1]);
                    }
                }
            },
            None => {
                assert forall|i: int| 0 <= i < symbols_of_lines(ls).len() implies valid_symbol_name(
                    #[trigger] symbols_of_lines(ls)[i],
                ) && symbols_of_lines(ls)[i][0] != 95 by {
                    assert(symbols_of_lines(ls)[i] == rest[i]);
                }
            },
        }
    }
}

/// Splits a line into its whitespace-separated tokens.
pub fn split_tokens(line: &[u8]) -> (ts: Vec<Vec<u8>>)
    ensures
        ts@.map_values(|t: Vec<u8>| t@) == tokens(line@),
{
    let mut ts: Vec<Vec<u8>> = Vec::new();
    let mut i: usize = 0;
    proof {
        assert(line@.skip(0) =~= line@);
        assert(ts@.map_values(|t: Vec<u8>| t@) =~= Seq::<Seq<u8>>::empty());
    }
    while i < line.len()
        invariant
            i <= line.len(),
            tokens(line@) == ts@.map_values(|t: Vec<u8>| t@) + tokens(line@.skip(i as int)),
        decreases line.len() - i,
    {
        if is_ws_byte(line[i]) {
            proof {
                assert(line@.skip(i as int)[0] == line@[i as int]);
                assert(line@.skip(i as int).drop_first() =~= line@.skip(i as int + 1));
            }
            i = i + 1;
        } else {
            let mut j: usize = i + 1;
            while j < line.len()
                invariant
                    i < j <= line.len(),
                    forall|m: int| i <= m < j ==> !is_ws(#[trigger] line@[m]),
                ensures
                    i < j <= line.len(),
                    forall|m: int| i <= m < j ==> !is_ws(#[trigger] line@[m]),
                    j == line.len() || is_ws(line@[j as int]),
                decreases line.len() - j,
            {
                if is_ws_byte(line[j]) {
                    break;
                }
                j = j + 1;
            }
            proof {
                let rest = line@.skip(i as int);
                assert forall|m: int| 0 <= m < j - i implies !is_ws(#[trigger] rest[m]) by {
                    assert(rest[m] == line@[m + i]);
                }
                if (j as int) < line@.len() {
                    assert(rest[j - i] == line@[j as int]);
                }
                lemma_tok_len_is(rest, j - i);
                assert(rest.subrange(0, j - i) =~= line@.subrange(i as int, j as int));
                assert(rest.skip(j - i) =~= line@.skip(j as int));
            }
            let tok = slice_to_vec(slice_subrange(line, i, j));
            let ghost old_ts = ts@;
            ts.push(tok);
            proof {
                assert(ts@.map_values(|t: Vec<u8>| t@) =~= old_ts.map_values(|t: Vec<u8>| t@)
                    + seq![tok@]);
            }
            i = j;
        }
    }
    proof {
        assert(line@.skip(line@.len() as int).len() == 0);
        assert(tokens(line@) =~= ts@.map_values(|t: Vec<u8>| t@));
    }
    ts
}

/// Whether a byte is in-line whitespace.
pub fn is_ws_byte(c: u8) -> (r: bool)
    ensures
        r == is_ws(c),
{
    c == 32 || c == 9 || c == 13
}

/// Scans a line for a global type marker standing alone between spaces.
pub fn find_global_marker(line: &[u8]) -> (r: bool)
    ensures
        r == has_global_marker(line@),
{
    if line.len() < 3 {
        return false;
    }
    let mut i: usize = 1;
    while i < line.len() - 1
        invariant
            1 <= i <= line.len(),
            line.len() >= 3,
            forall|w: int|
                1 <= w < i && w + 1 < line@.len()
                    ==> !(line@[w - 1] == 32 && line@[w + 1] == 32 && is_global_marker(
                    #[trigger] line@[w],
                )),
        decreases line.len() - i,
    {
        if line[i - 1] == 32 && line[i + 1] == 32 {
            let k = marker_kind(line[i]);
            if !matches!(k, SymbolKind::Other) {
                return true;
            }
        }
        i = i + 1;
    }
    false
}

/// Parses one dump line: the retained symbol name, or nothing.
pub fn parse_line(line: &[u8]) -> (r: Option<Vec<u8>>)
    ensures
        match r {
            Some(n) => line_symbol(line@) == Some(n@),
            None => line_symbol(line@) is None,
        },
{
    if !find_global_marker(line) {
        return None;
    }
    let mut ts = split_tokens(line);
    if ts.len() < 3 {
        proof {
            assert(tokens(line@).len() == ts@.len());
        }
        return None;
    }
    let name = ts.remove(2);
    proof {
        assert(tokens(line@)[2] == name@);
        lemma_tokens_wf(line@);
    }
    if name[0] == 95 {
        return None;
    }
    Some(name)
}

/// Extracts from the whole dump, in order, every retained symbol name.
/// Every name that comes back is non-empty, free of whitespace and
/// newlines, and does not start with an underscore.
pub fn extract_symbols(output: &[u8]) -> (syms: Vec<Vec<u8>>)
    ensures
        syms@.map_values(|s: Vec<u8>| s@) == symbols_of(output@),
        forall|i: int|
            0 <= i < syms@.len()
                ==> valid_symbol_name(#[trigger] syms@[i]@) && syms@[i]@[0] != 95,
{
    let lines = split_lines(output);
    let ghost lviews = lines@.map_values(|l: Vec<u8>| l@);
    let mut syms: Vec<Vec<u8>> = Vec::new();
    let mut i: usize = 0;
    proof {
        assert(lviews.take(0) =~= Seq::<Seq<u8>>::empty());
        assert(syms@.map_values(|s: Vec<u8>| s@) =~= symbols_of_lines(lviews.take(0)));
    }
    while i < lines.len()
        invariant
            i <= lines.len(),
            lines@.map_values(|l: Vec<u8>| l@) == lviews,
            lviews.len() == lines@.len(),
            syms@.map_values(|s: Vec<u8>| s@) == symbols_of_lines(lviews.take(i as int)),
        decreases lines.len() - i,
    {
        let r = parse_line(lines[i].as_slice());
        proof {
            assert(lviews[i as int] == lines@[i as int]@);
            lemma_symbols_of_lines_push(lviews.take(i as int), lviews[i as int]);
            assert(lviews.take(i as int).push(lviews[i as int]) =~= lviews.take(i as int + 1));
        }
        match r {
            Some(n) => {
                let ghost old_syms = syms@;
                syms.push(n);
                proof {
                    assert(syms@.map_values(|s: Vec<u8>| s@) =~= old_syms.map_values(
                        |s: Vec<u8>| s@,
                    ) + seq![n@]);
                }
            },
            None => {},
        }
        i = i + 1;
    }
    proof {
        assert(lviews.take(lines@.len() as int) =~= lviews);
        lemma_symbols_valid(output@);
        assert forall|i: int| 0 <= i < syms@.len() implies valid_symbol_name(
            #[trigger] syms@[i]@,
        ) && syms@[i]@[0] != 95 by {
            assert(syms@.map_values(|s: Vec<u8>| s@)[i] == syms@[i]@);
            assert(symbols_of(output@)[i] == syms@[i]@);
        }
    }
    syms
}

/// Splits raw dump output into lines.
pub fn split_lines(data: &[u8]) -> (ls: Vec<Vec<u8>>)
    ensures
        ls@.map_values(|l: Vec<u8>| l@) == lines_of(data@),
{
    let mut ls: Vec<Vec<u8>> = Vec::new();
    let mut i: usize = 0;
    proof {
        assert(data@.skip(0) =~= data@);
        assert(ls@.map_values(|l: Vec<u8>| l@) =~= Seq::<Seq<u8>>::empty());
    }
    while i < data.len()
        invariant
            i <= data.len(),
            lines_of(data@) == ls@.map_values(|l: Vec<u8>| l@) + lines_of(data@.skip(i as int)),
        decreases data.len() - i,
    {
        let mut j: usize = i;
        while j < data.len()
            invariant
                i <= j <= data.len(),
                forall|m: int| i <= m < j ==> #[trigger] data@[m] != 10,
            ensures
                i <= j <= data.len(),
                forall|m: int| i <= m < j ==> #[trigger] data@[m] != 10,
                j == data.len() || data@[j as int] == 10,
            decreases data.len() - j,
        {
            if data[j] == 10 {
                break;
            }
            j = j + 1;
        }
        proof {
            let rest = data@.skip(i as int);
            assert forall|m: int| 0 <= m < j - i implies #[trigger] rest[m] != 10 by {
                assert(rest[m] == data@[m + i]);
            }
            if (j as int) < data@.len() {
                assert(rest[j - i] == data@[j as int]);
            }
            lemma_line_break_is(rest, j - i);
            assert(rest.subrange(0, j - i) =~= data@.subrange(i as int, j as int));
            if (j as int) < data@.len() {
                assert(rest.subrange(j - i + 1, rest.len() as int) =~= data@.skip(j as int + 1));
            }
        }
        let piece = slice_to_vec(slice_subrange(data, i, j));
        let ghost old_ls = ls@;
        ls.push(piece);
        proof {
            assert(ls@.map_values(|l: Vec<u8>| l@) =~= old_ls.map_values(|l: Vec<u8>| l@)
                + seq![piece@]);
        }
        if j < data.len() {
            i = j + 1;
        } else {
            i = j;
            proof {
                assert(data@.skip(i as int).len() == 0);
            }
        }
    }
    proof {
        assert(data@.skip(data@.len() as int).len() == 0);
        assert(lines_of(data@) =~= ls@.map_values(|l: Vec<u8>| l@));
    }
    ls
}

} // verus!
