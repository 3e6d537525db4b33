//! The tile alphabet: 31 symbols (the letters 'A' to 'Z' and five digraph
//! symbols), the per-symbol value table, and the ways a plain-letter word can
//! be laid out ("encoded") with single-letter and digraph tiles.

use vstd::prelude::*;

verus! {

/// A tile symbol: one of the 31 characters 'A' ..= '_'.  The five characters
/// after 'Z' are the digraph tiles: '[' is CL, '\\' is ER, ']' is IN,
/// '^' is QU, '_' is TH.
pub open spec fn valid_sym(c: char) -> bool {
    'A' <= c && c <= '_'
}

/// A plain letter 'A' ..= 'Z'.
pub open spec fn is_letter(c: char) -> bool {
    'A' <= c && c <= 'Z'
}

/// The index of a symbol in a 31-entry value table.
pub open spec fn sym_idx(c: char) -> int {
    c as int - 65
}

/// The digraph symbol standing for the two letters `a`, `b`, if there is one.
pub open spec fn spec_digraph(a: char, b: char) -> Option<char> {
    if a == 'C' && b == 'L' {
        Some('[')
    } else if a == 'E' && b == 'R' {
        Some('\\')
    } else if a == 'I' && b == 'N' {
        Some(']')
    } else if a == 'Q' && b == 'U' {
        Some('^')
    } else if a == 'T' && b == 'H' {
        Some('_')
    } else {
        None
    }
}

/// Every sequence of symbols is valid.
pub open spec fn all_valid(key: Seq<char>) -> bool {
    forall|i: int| 0 <= i < key.len() ==> valid_sym(#[trigger] key[i])
}

/// Every symbol is a plain letter.
pub open spec fn all_letters(key: Seq<char>) -> bool {
    forall|i: int| 0 <= i < key.len() ==> is_letter(#[trigger] key[i])
}

/// The score of a tile sequence: the sum of the table's values of its symbols.
pub open spec fn weight(table: Seq<u8>, key: Seq<char>) -> int
    decreases key.len(),
{
    if key.len() == 0 {
        0
    } else {
        table[sym_idx(key[0])] + weight(table, key.skip(1))
    }
}

/// `e` lays out the plain-letter word `w`: each symbol of `e` is either the
/// next letter of `w` or the digraph tile standing for the next two letters.
pub open spec fn is_encoding_of(e: Seq<char>, w: Seq<char>) -> bool
    decreases e.len(),
{
    if e.len() == 0 {
        w.len() == 0
    } else if is_letter(e[0]) {
        w.len() >= 1 && e[0] == w[0] && is_encoding_of(e.skip(1), w.skip(1))
    } else {
        w.len() >= 2 && spec_digraph(w[0], w[1]) == Some(e[0]) && is_encoding_of(
            e.skip(1),
            w.skip(2),
        )
    }
}

/// How many distinct encodings the word `w` has (2^k for k independent
/// digraph-eligible positions).
pub open spec fn enc_count(w: Seq<char>) -> nat
    decreases w.len(),
{
    if w.len() == 0 {
        1
    } else if w.len() >= 2 && spec_digraph(w[0], w[1]) is Some {
        enc_count(w.skip(1)) + enc_count(w.skip(2))
    } else {
        enc_count(w.skip(1))
    }
}

pub fn sym_index(c: char) -> (i: usize)
    requires
        valid_sym(c),
    ensures
        i == sym_idx(c),
        i < 31,
{
    (c as usize) - 65
}

pub fn digraph_of(a: char, b: char) -> (r: Option<char>)
    ensures
        r == spec_digraph(a, b),
{
    if a == 'C' && b == 'L' {
        Some('[')
    } else if a == 'E' && b == 'R' {
        Some('\\')
    } else if a == 'I' && b == 'N' {
        Some(']')
    } else if a == 'Q' && b == 'U' {
        Some('^')
    } else if a == 'T' && b == 'H' {
        Some('_')
    } else {
        None
    }
}

/// A score is never negative and never more than 255 per tile.
pub proof fn lemma_weight_bounds(table: Seq<u8>, key: Seq<char>)
    requires
        table.len() == 31,
        all_valid(key),
    ensures
        0 <= weight(table, key) <= 255 * key.len(),
    decreases key.len(),
{
    if key.len() > 0 {
        assert(all_valid(key.skip(1)));
        lemma_weight_bounds(table, key.skip(1));
    }
}

/// Appending one symbol adds its value to the score.
pub proof fn lemma_weight_push(table: Seq<u8>, key: Seq<char>, c: char)
    ensures
        weight(table, key.push(c)) == weight(table, key) + table[sym_idx(c)],
    decreases key.len(),
{
    let p = key.push(c);
    assert(p.len() == key.len() + 1);
    if key.len() == 0 {
        assert(p[0] == c);
        assert(p.skip(1) =~= Seq::<char>::empty());
        assert(weight(table, p) == table[sym_idx(c)] + weight(table, p.skip(1)));
    } else {
        assert(p[0] == key[0]);
        assert(p.skip(1) =~= key.skip(1).push(c));
        lemma_weight_push(table, key.skip(1), c);
        assert(weight(table, p) == table[sym_idx(key[0])] + weight(table, p.skip(1)));
    }
}

/// A word made only of plain letters is one of its own encodings.
pub proof fn lemma_letters_self_encoding(w: Seq<char>)
    requires
        all_letters(w),
    ensures
        is_encoding_of(w, w),
    decreases w.len(),
{
    if w.len() > 0 {
        assert(all_letters(w.skip(1)));
        lemma_letters_self_encoding(w.skip(1));
    }
}

/// An encoding of a plain-letter word is made of valid symbols and is no
/// longer than the word; it is empty only for the empty word.
pub proof fn lemma_encoding_props(e: Seq<char>, w: Seq<char>)
    requires
        all_letters(w),
        is_encoding_of(e, w),
    ensures
        all_valid(e),
        e.len() <= w.len(),
        e.len() == 0 ==> w.len() == 0,
    decreases e.len(),
{
    if e.len() > 0 {
        if is_letter(e[0]) {
            assert(all_letters(w.skip(1)));
            lemma_encoding_props(e.skip(1), w.skip(1));
        } else {
            assert(all_letters(w.skip(2)));
            lemma_encoding_props(e.skip(1), w.skip(2));
            assert(valid_sym(e[0]));
        }
        assert forall|i: int| 0 <= i < e.len() implies valid_sym(#[trigger] e[i]) by {
            if i > 0 {
                assert(e[i] == e.skip(1)[i - 1]);
            }
        }
    }
}

} // verus!
