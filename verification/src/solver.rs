//! The word finder and play composer: searches a hand of tiles for all
//! dictionary words it can lay, then packs found words into non-overlapping
//! plays and ranks them.

use vstd::prelude::*;
use vstd::multiset::Multiset;
use vstd::slice::slice_to_vec;
use crate::tiles::{
    valid_sym, all_valid, all_letters, weight, sym_idx, sym_index, is_encoding_of,
    lemma_weight_bounds, lemma_weight_push, lemma_letters_self_encoding,
};
use crate::trie::{TrieSet, KeyState};

verus! {

broadcast use vstd::seq_lib::group_to_multiset_ensures, vstd::multiset::group_multiset_axioms, vstd::seq_lib::lemma_multiset_commutative;

/// A word actually laid from a hand: the tile sequence drawn, in order, and
/// its score.
#[derive(Debug, PartialEq, Eq, Clone)]
pub struct CardWord {
    pub cards: Vec<char>,
    pub score: u64,
}

/// Two card words carry the same tiles in the same order and the same score.
pub open spec fn cw_matches(a: CardWord, b: CardWord) -> bool {
    a.cards@ == b.cards@ && a.score == b.score
}

/// A card word's score is the sum of its tiles' values from the table.
pub open spec fn cw_ok(table: Seq<u8>, cw: CardWord) -> bool {
    all_valid(cw.cards@) && cw.score == weight(table, cw.cards@)
}

/// The sum of the values of a multiset of tiles.
pub open spec fn mw(table: Seq<u8>, m: Multiset<char>) -> int
    decreases m.len(),
{
    if m.len() == 0 {
        0
    } else {
        let c = m.choose();
        table[sym_idx(c)] + mw(table, m.remove(c))
    }
}

/// Whichever tile with a positive count is split off first, the sum is the
/// tile's value plus the sum of the rest.
proof fn lemma_mw_remove(table: Seq<u8>, m: Multiset<char>, d: char)
    requires
        m.count(d) > 0,
    ensures
        mw(table, m) == table[sym_idx(d)] + mw(table, m.remove(d)),
    decreases m.len(),
{
    let c = m.choose();
    if c == d {
    } else {
        lemma_mw_remove(table, m.remove(c), d);
        lemma_mw_remove(table, m.remove(d), c);
        assert(m.remove(c).remove(d) =~= m.remove(d).remove(c));
    }
}

/// Adding one tile adds its value to the sum.
proof fn lemma_mw_insert(table: Seq<u8>, m: Multiset<char>, c: char)
    ensures
        mw(table, m.insert(c)) == mw(table, m) + table[sym_idx(c)],
{
    lemma_mw_remove(table, m.insert(c), c);
    assert(m.insert(c).remove(c) =~= m);
}

/// The sum of values over a union of multisets is the sum of the sums.
proof fn lemma_mw_add(table: Seq<u8>, a: Multiset<char>, b: Multiset<char>)
    ensures
        mw(table, a.add(b)) == mw(table, a) + mw(table, b),
    decreases a.len(),
{
    if a.len() == 0 {
        assert(a.add(b) =~= b);
    } else {
        let c = a.choose();
        lemma_mw_add(table, a.remove(c), b);
        lemma_mw_remove(table, a, c);
        lemma_mw_remove(table, a.add(b), c);
        assert(a.add(b).remove(c) =~= a.remove(c).add(b));
    }
}

/// A tile sequence's score is the value sum of its multiset: the score does
/// not depend on the order of the tiles.
pub proof fn lemma_weight_is_mw(table: Seq<u8>, s: Seq<char>)
    ensures
        weight(table, s) == mw(table, s.to_multiset()),
    decreases s.len(),
{
    if s.len() == 0 {
        assert(s.to_multiset().len() == 0);
    } else {
        assert(s.remove(0) =~= s.drop_first());
        assert(s.remove(0).to_multiset() =~= s.to_multiset().remove(s[0]));
        assert(s.contains(s[0]));
        assert(s.to_multiset().count(s[0]) > 0);
        assert(s.to_multiset() =~= s.drop_first().to_multiset().insert(s.first()));
        lemma_weight_is_mw(table, s.drop_first());
        lemma_mw_insert(table, s.drop_first().to_multiset(), s.first());
        assert(s.drop_first() =~= s.skip(1));
    }
}

/// A sub-multiset is no larger than the whole.
proof fn lemma_le_len(a: Multiset<char>, b: Multiset<char>)
    requires
        a.subset_of(b),
    ensures
        a.len() <= b.len(),
{
    assert(b =~= a.add(b.sub(a)));
}

impl CardWord {
    /// A fresh copy carrying the same tiles and score.
    pub fn duplicate(&self) -> (r: CardWord)
        ensures
            cw_matches(r, *self),
    {
        CardWord { cards: copy_chars(&self.cards), score: self.score }
    }

    /// If every tile of this word is present in `hand` (with multiplicity),
    /// removes them and returns the rest of the hand; otherwise `None`.
    pub fn remove_from(&self, hand: &[char]) -> (r: Option<Vec<char>>)
        ensures
            r is Some <==> self.cards@.to_multiset().subset_of(hand@.to_multiset()),
            r matches Some(rem) ==> {
                &&& rem@.to_multiset().add(self.cards@.to_multiset()) == hand@.to_multiset()
                &&& rem@.len() + self.cards@.len() == hand@.len()
                &&& forall|x: char| #[trigger] rem@.contains(x) ==> hand@.contains(x)
            },
    {
        let ghost cs = self.cards@;
        let ghost hs = hand@;
        let mut rem: Vec<char> = slice_to_vec(hand);
        let mut i: usize = 0;
        while i < self.cards.len()
            invariant
                i <= cs.len(),
                cs == self.cards@,
                hs == hand@,
                rem@.to_multiset().add(cs.take(i as int).to_multiset()) == hs.to_multiset(),
                rem@.len() + i == hs.len(),
                forall|x: char| #[trigger] rem@.contains(x) ==> rem@.to_multiset().count(x) > 0,
            decreases cs.len() - i,
        {
            let c = self.cards[i];
            let n = rem.len();
            let mut k: usize = 0;
            while k < n && rem[k] != c
                invariant
                    k <= n,
                    n == rem@.len(),
                    forall|k2: int| 0 <= k2 < k ==> rem@[k2] != c,
                decreases n - k,
            {
                k += 1;
            }
            if k < n {
                let ghost rem_before = rem@;
                let _ = rem.remove(k);
                proof {
                    assert(rem_before[k as int] == c);
                    assert(rem@.to_multiset() == rem_before.to_multiset().remove(c));
                    assert(cs.take(i as int + 1) =~= cs.take(i as int).push(c));
                    assert(cs.take(i as int + 1).to_multiset() == cs.take(
                        i as int,
                    ).to_multiset().insert(c));
                    assert(rem_before.to_multiset().count(c) > 0);
                    assert(rem@.to_multiset().add(cs.take(i as int + 1).to_multiset())
                        =~= rem_before.to_multiset().add(cs.take(i as int).to_multiset()));
                }
                i += 1;
            } else {
                proof {
                    // the needed tile is missing: the word cannot fit
                    assert(!rem@.contains(c)) by {
                        if rem@.contains(c) {
                            let k2 = choose|k2: int| 0 <= k2 < rem@.len() && rem@[k2] == c;
                        }
                    }
                    assert(rem@.to_multiset().count(c) == 0);
                    assert(cs =~= cs.take(i as int) + cs.skip(i as int));
                    assert(cs.skip(i as int).to_multiset().count(c) > 0) by {
                        assert(cs.skip(i as int)[0] == c);
                        assert(cs.skip(i as int).contains(c));
                    }
                    assert(cs.to_multiset().count(c) == cs.take(i as int).to_multiset().count(c)
                        + cs.skip(i as int).to_multiset().count(c));
                    assert(hs.to_multiset().count(c) == rem@.to_multiset().count(c) + cs.take(
                        i as int,
                    ).to_multiset().count(c));
                    assert(cs.to_multiset().count(c) > hs.to_multiset().count(c));
                    assert(!cs.to_multiset().subset_of(hs.to_multiset()));
                }
                return None;
            }
        }
        proof {
            assert(cs.take(cs.len() as int) =~= cs);
            assert forall|x: char| cs.to_multiset().count(x) <= hs.to_multiset().count(x) by {
                assert(hs.to_multiset().count(x) == rem@.to_multiset().count(x)
                    + cs.to_multiset().count(x));
            }
            assert(cs.to_multiset().subset_of(hs.to_multiset()));
            assert forall|x: char| #[trigger] rem@.contains(x) implies hs.contains(x) by {
                assert(rem@.to_multiset().count(x) > 0);
                assert(hs.to_multiset().count(x) > 0);
            }
        }
        Some(rem)
    }

    /// A card word made of the whole given hand, scored by the table.
    pub fn new(hand: &[char], values: &Vec<u8>) -> (cw: CardWord)
        requires
            values@.len() == 31,
            all_valid(hand@),
            255 * hand@.len() <= u64::MAX,
        ensures
            cw.cards@ == hand@,
            cw.score == weight(values@, hand@),
            cw_ok(values@, cw),
    {
        let cards: Vec<char> = slice_to_vec(hand);
        let mut score: u64 = 0;
        let mut i: usize = 0;
        while i < cards.len()
            invariant
                i <= hand@.len(),
                cards@ == hand@,
                all_valid(hand@),
                values@.len() == 31,
                255 * hand@.len() <= u64::MAX,
                score == weight(values@, hand@.take(i as int)),
                score <= 255 * i,
            decreases hand@.len() - i,
        {
            proof {
                assert(hand@.take(i as int).push(hand@[i as int]) =~= hand@.take(i as int + 1));
                lemma_weight_push(values@, hand@.take(i as int), hand@[i as int]);
            }
            score = score + (values[sym_index(cards[i])] as u64);
            i += 1;
        }
        proof {
            assert(hand@.take(hand@.len() as int) =~= hand@);
        }
        CardWord { cards, score }
    }
}

/// `e` is somewhere in the collection, as a tile sequence.
pub open spec fn in_collection(ws: Seq<CardWord>, e: Seq<char>) -> bool {
    exists|j: int| 0 <= j < ws.len() && ws[j].cards@ == e
}

/// No two entries carry the same tile sequence.
pub open spec fn no_dup(ws: Seq<CardWord>) -> bool {
    forall|i: int, j: int| 0 <= i < j < ws.len() ==> ws[i].cards@ != ws[j].cards@
}

/// `e` is a word of the dictionary that the finder owes, given the tiles
/// already used (a prefix of `e`) and the tiles still in the hand.
pub open spec fn wanted(t: TrieSet, used: Seq<char>, remaining: Seq<char>, e: Seq<char>) -> bool {
    &&& t.words().contains(e)
    &&& used.is_prefix_of(e)
    &&& e.len() > used.len()
    &&& e.skip(used.len() as int).to_multiset().subset_of(remaining.to_multiset())
}

/// What is true of every entry the finder adds: a stored word with its trie
/// score, extending the used tiles by tiles drawn from the remaining ones.
pub open spec fn found_from(t: TrieSet, used: Seq<char>, remaining: Seq<char>, cw: CardWord) -> bool {
    &&& t.words().contains(cw.cards@)
    &&& cw.score == weight(t.table(), cw.cards@)
    &&& used.is_prefix_of(cw.cards@)
    &&& cw.cards@.len() > used.len()
    &&& cw.cards@.skip(used.len() as int).to_multiset().subset_of(remaining.to_multiset())
}

/// A word of the dictionary that can be laid entirely from the hand, with at
/// least two tiles.
pub open spec fn findable(t: TrieSet, hand: Seq<char>, e: Seq<char>) -> bool {
    &&& t.words().contains(e)
    &&& e.len() >= 2
    &&& e.to_multiset().subset_of(hand.to_multiset())
}

proof fn lemma_prefix_trans<A>(a: Seq<A>, b: Seq<A>, c: Seq<A>)
    requires
        a.is_prefix_of(b),
        b.is_prefix_of(c),
    ensures
        a.is_prefix_of(c),
{
    assert(a == b.subrange(0, a.len() as int));
    assert(b == c.subrange(0, b.len() as int));
    assert forall|j: int| 0 <= j < a.len() implies a[j] == c.subrange(0, a.len() as int)[j] by {
        assert(a[j] == b[j]);
        assert(b[j] == c[j]);
    }
    assert(a =~= c.subrange(0, a.len() as int));
}

proof fn lemma_push_prefix(p: Seq<char>, c: char, e: Seq<char>)
    requires
        p.is_prefix_of(e),
        e.len() > p.len(),
        e[p.len() as int] == c,
    ensures
        p.push(c).is_prefix_of(e),
{
    assert(p == e.subrange(0, p.len() as int));
    assert forall|j: int| 0 <= j < p.len() + 1 implies p.push(c)[j] == e.subrange(
        0,
        p.len() as int + 1,
    )[j] by {
        if j < p.len() {
            assert(p[j] == e[j]);
        }
    }
    assert(p.push(c) =~= e.subrange(0, p.len() as int + 1));
}

proof fn lemma_prefix_whole(p: Seq<char>, e: Seq<char>)
    requires
        p.is_prefix_of(e),
        e.len() == p.len(),
    ensures
        p == e,
{
    assert(p =~= e);
}

/// Dropping the tile at position `l` from the tail multiset.
proof fn lemma_suffix_ms_step(e: Seq<char>, l: int)
    requires
        0 <= l < e.len(),
    ensures
        e.skip(l).to_multiset() == e.skip(l + 1).to_multiset().insert(e[l]),
{
    assert(e.skip(l).remove(0) =~= e.skip(l + 1));
    assert(e.skip(l).remove(0).to_multiset() =~= e.skip(l).to_multiset().remove(e.skip(l)[0]));
    assert(e.skip(l)[0] == e[l]);
    assert(e.skip(l).contains(e.skip(l)[0]));
    assert(e.skip(l).to_multiset().count(e[l]) > 0);
    assert(e.skip(l).to_multiset() =~= e.skip(l + 1).to_multiset().insert(e[l]));
}

proof fn lemma_in_collection_grow(a: Seq<CardWord>, b: Seq<CardWord>, e: Seq<char>)
    requires
        a.is_prefix_of(b),
        in_collection(a, e),
    ensures
        in_collection(b, e),
{
    let j = choose|j: int| 0 <= j < a.len() && a[j].cards@ == e;
    assert(a == b.subrange(0, a.len() as int));
    assert(b[j] == a[j]);
}

/// Do two tile vectors hold the same sequence?
fn chars_eq(a: &Vec<char>, b: &Vec<char>) -> (r: bool)
    ensures
        r <==> a@ == b@,
{
    if a.len() != b.len() {
        return false;
    }
    let mut j: usize = 0;
    while j < a.len()
        invariant
            j <= a@.len(),
            a@.len() == b@.len(),
            forall|k: int| 0 <= k < j ==> a@[k] == b@[k],
        decreases a@.len() - j,
    {
        if a[j] != b[j] {
            return false;
        }
        j += 1;
    }
    proof {
        assert(a@ =~= b@);
    }
    true
}

/// Adds the word to the collection unless an entry with the same tile
/// sequence is already there.
fn push_unique(collector: &mut Vec<CardWord>, cw: CardWord)
    requires
        no_dup(old(collector)@),
    ensures
        no_dup(final(collector)@),
        old(collector)@.is_prefix_of(final(collector)@),
        in_collection(final(collector)@, cw.cards@),
        forall|j: int| old(collector)@.len() <= j < final(collector)@.len() ==> #[trigger] final(
            collector)@[j] == cw,
{
    let mut j: usize = 0;
    while j < collector.len()
        invariant
            j <= collector@.len(),
            collector@ == old(collector)@,
            no_dup(collector@),
            forall|k: int| 0 <= k < j ==> collector@[k].cards@ != cw.cards@,
        decreases collector@.len() - j,
    {
        if chars_eq(&collector[j].cards, &cw.cards) {
            proof {
                assert(collector@ == old(collector)@);
                assert(no_dup(collector@));
                assert(collector@.is_prefix_of(collector@)) by {
                    assert(collector@ =~= collector@.subrange(0, collector@.len() as int));
                }
                assert(collector@[j as int].cards@ == cw.cards@);
            }
            return ;
        }
        j += 1;
    }
    collector.push(cw);
    proof {
        assert(old(collector)@.is_prefix_of(collector@)) by {
            assert(old(collector)@ =~= collector@.subrange(0, old(collector)@.len() as int));
        }
        assert(collector@[collector@.len() - 1].cards@ == cw.cards@);
    }
}

/// The solver: a built dictionary, handed in ready-made, queried per hand.
pub struct Solver {
    pub dictionary: TrieSet,
}

impl Solver {
    /// A solver over an already-built dictionary.
    pub fn new(dictionary: TrieSet) -> (s: Solver)
        ensures
            s.dictionary == dictionary,
    {
        Solver { dictionary }
    }

    /// Extends the used tiles by every tile still remaining, records each
    /// extension that is a stored word, and follows each that is still a
    /// prefix; a branch that falls off the trie is abandoned, which loses no
    /// word because the trie is prefix-closed.
    fn find_word(&self, cards_used: Vec<char>, cards_remaining: Vec<char>, collector: &mut Vec<
        CardWord,
    >)
        requires
            self.dictionary.wf(),
            all_valid(cards_used@),
            all_valid(cards_remaining@),
            cards_used@.len() >= 1,
            no_dup(old(collector)@),
        ensures
            no_dup(final(collector)@),
            old(collector)@.is_prefix_of(final(collector)@),
            forall|j: int|
                old(collector)@.len() <= j < final(collector)@.len() ==> found_from(
                    self.dictionary,
                    cards_used@,
                    cards_remaining@,
                    #[trigger] final(collector)@[j],
                ),
            forall|e: Seq<char>| #[trigger] wanted(self.dictionary, cards_used@, cards_remaining@, e)
                ==> in_collection(final(collector)@, e),
        decreases cards_remaining@.len(),
    {
        let ghost t = self.dictionary;
        let ghost used = cards_used@;
        let ghost crem = cards_remaining@;
        let ghost ul = cards_used@.len() as int;
        let mut index: usize = 0;
        while index < cards_remaining.len()
            invariant
                index <= crem.len(),
                used == cards_used@,
                crem == cards_remaining@,
                ul == used.len(),
                t == self.dictionary,
                t.wf(),
                all_valid(used),
                all_valid(crem),
                used.len() >= 1,
                no_dup(collector@),
                old(collector)@.is_prefix_of(collector@),
                forall|j: int|
                    old(collector)@.len() <= j < collector@.len() ==> found_from(
                        t,
                        used,
                        crem,
                        #[trigger] collector@[j],
                    ),
                forall|e: Seq<char>|
                    #[trigger] wanted(t, used, crem, e) && (exists|i2: int|
                        0 <= i2 < index && crem[i2] == e[ul]) ==> in_collection(collector@, e),
            decreases crem.len() - index,
        {
            let ghost coll_iter_start = collector@;
            let c = cards_remaining[index];
            let mut new_used = copy_chars(&cards_used);
            new_used.push(c);
            let mut new_rem = copy_chars(&cards_remaining);
            let _removed = new_rem.remove(index);
            proof {
                assert(new_used@ == used.push(c));
                assert(new_rem@ == crem.remove(index as int));
                assert forall|k: int| 0 <= k < new_used@.len() implies valid_sym(
                    #[trigger] new_used@[k],
                ) by {
                    if k < used.len() {
                        assert(new_used@[k] == used[k]);
                    }
                }
                assert forall|k: int| 0 <= k < new_rem@.len() implies valid_sym(
                    #[trigger] new_rem@[k],
                ) by {
                    assert(new_rem@[k] == if k < index {
                        crem[k]
                    } else {
                        crem[k + 1]
                    });
                }
                assert(new_rem@.to_multiset() == crem.to_multiset().remove(c));
                assert(crem.contains(c));
                assert(crem.to_multiset().count(c) > 0);
            }
            match self.dictionary.contains(&new_used) {
                KeyState::NEITHER => {
                    proof {
                        assert forall|e: Seq<char>|
                            #[trigger] wanted(t, used, crem, e) && e[ul] == c implies false by {
                            lemma_push_prefix(used, c, e);
                            t.lemma_word_prefix_is_path(e, new_used@);
                        }
                    }
                },
                KeyState::PREFIX => {
                    self.find_word(new_used, new_rem, collector);
                    proof {
                        lemma_step_back(t, used, c, crem, index as int, coll_iter_start, collector@);
                        assert forall|e: Seq<char>|
                            #[trigger] wanted(t, used, crem, e) && e[ul] == c implies in_collection(
                            collector@,
                            e,
                        ) by {
                            if e.len() == ul + 1 {
                                lemma_push_prefix(used, c, e);
                                lemma_prefix_whole(used.push(c), e);
                                assert(false);
                            }
                        }
                    }
                },
                KeyState::STRING(score) => {
                    let cw = CardWord { cards: copy_chars(&new_used), score };
                    let ghost coll_mid0 = collector@;
                    push_unique(collector, cw);
                    let ghost coll_mid = collector@;
                    proof {
                        // the entry just pushed is sound
                        assert(cw.cards@ == used.push(c));
                        assert(used.is_prefix_of(cw.cards@)) by {
                            assert(used =~= used.push(c).subrange(0, used.len() as int));
                        }
                        assert(cw.cards@.skip(ul) =~= seq![c]);
                        assert(seq![c].to_multiset() =~= Multiset::empty().insert(c)) by {
                            assert(seq![c] =~= Seq::<char>::empty().push(c));
                        }
                        assert(cw.cards@.skip(ul).to_multiset().subset_of(crem.to_multiset()));
                        assert forall|j: int|
                            coll_mid0.len() <= j < coll_mid.len() implies found_from(
                            t,
                            used,
                            crem,
                            #[trigger] coll_mid[j],
                        ) by {
                            assert(coll_mid[j] == cw);
                        }
                    }
                    self.find_word(new_used, new_rem, collector);
                    proof {
                        lemma_prefix_trans(coll_mid0, coll_mid, collector@);
                        assert forall|j: int|
                            coll_mid0.len() <= j < collector@.len() implies found_from(
                            t,
                            used,
                            crem,
                            #[trigger] collector@[j],
                        ) by {
                            if j < coll_mid.len() {
                                assert(coll_mid == collector@.subrange(0, coll_mid.len() as int));
                                assert(collector@[j] == coll_mid[j]);
                            } else {
                                lemma_entry_back(t, used, c, crem, index as int, collector@[j]);
                            }
                        }
                        lemma_step_back(t, used, c, crem, index as int, coll_mid, collector@);
                        assert forall|e: Seq<char>|
                            #[trigger] wanted(t, used, crem, e) && e[ul] == c implies in_collection(
                            collector@,
                            e,
                        ) by {
                            if e.len() == ul + 1 {
                                lemma_push_prefix(used, c, e);
                                lemma_prefix_whole(used.push(c), e);
                                lemma_in_collection_grow(coll_mid, collector@, e);
                            }
                        }
                    }
                },
            }
            proof {
                lemma_prefix_trans(old(collector)@, coll_iter_start, collector@);
                assert forall|j: int|
                    old(collector)@.len() <= j < collector@.len() implies found_from(
                    t,
                    used,
                    crem,
                    #[trigger] collector@[j],
                ) by {
                    if j < coll_iter_start.len() {
                        assert(coll_iter_start == collector@.subrange(
                            0,
                            coll_iter_start.len() as int,
                        ));
                        assert(collector@[j] == coll_iter_start[j]);
                    }
                }
                assert forall|e: Seq<char>|
                    #[trigger] wanted(t, used, crem, e) && (exists|i2: int|
                        0 <= i2 < index + 1 && crem[i2] == e[ul]) implies in_collection(
                    collector@,
                    e,
                ) by {
                    let i2 = choose|i2: int| 0 <= i2 < index + 1 && crem[i2] == e[ul];
                    if i2 < index {
                        lemma_in_collection_grow(coll_iter_start, collector@, e);
                    } else {
                        assert(e[ul] == c);
                    }
                }
            }
            index += 1;
        }
        proof {
            assert forall|e: Seq<char>| #[trigger] wanted(t, used, crem, e) implies in_collection(
                collector@,
                e,
            ) by {
                let suffix = e.skip(ul);
                assert(suffix.len() > 0);
                assert(suffix[0] == e[ul]);
                assert(suffix.contains(suffix[0]));
                assert(suffix.to_multiset().count(e[ul]) > 0);
                assert(crem.to_multiset().count(e[ul]) > 0);
                assert(crem.contains(e[ul]));
                let i2 = choose|i2: int| 0 <= i2 < crem.len() && crem[i2] == e[ul];
            }
        }
    }
}

impl Solver {
    /// Finds every distinct word of the dictionary, of two or more tiles,
    /// that can be laid from the hand: each candidate draws a sub-multiset
    /// of the hand's tiles, is a stored word with its trie score, and no two
    /// candidates carry the same tile sequence.
    pub fn find(&self, cards: &Vec<char>) -> (r: Vec<CardWord>)
        requires
            self.dictionary.wf(),
            all_valid(cards@),
        ensures
            no_dup(r@),
            forall|j: int| 0 <= j < r@.len() ==> {
                &&& self.dictionary.words().contains((#[trigger] r@[j]).cards@)
                &&& cw_ok(self.dictionary.table(), r@[j])
                &&& r@[j].cards@.len() >= 2
                &&& r@[j].cards@.to_multiset().subset_of(cards@.to_multiset())
            },
            forall|e: Seq<char>| #[trigger] findable(self.dictionary, cards@, e) ==> in_collection(
                r@,
                e,
            ),
    {
        let ghost t = self.dictionary;
        let ghost hand = cards@;
        let mut collector: Vec<CardWord> = Vec::new();
        let mut index: usize = 0;
        while index < cards.len()
            invariant
                index <= hand.len(),
                hand == cards@,
                t == self.dictionary,
                t.wf(),
                all_valid(hand),
                no_dup(collector@),
                forall|j: int| 0 <= j < collector@.len() ==> {
                    &&& t.words().contains((#[trigger] collector@[j]).cards@)
                    &&& collector@[j].score == weight(t.table(), collector@[j].cards@)
                    &&& collector@[j].cards@.len() >= 2
                    &&& collector@[j].cards@.to_multiset().subset_of(hand.to_multiset())
                },
                forall|e: Seq<char>|
                    #[trigger] findable(t, hand, e) && (exists|i2: int|
                        0 <= i2 < index && hand[i2] == e[0]) ==> in_collection(collector@, e),
            decreases hand.len() - index,
        {
            let ghost coll_iter_start = collector@;
            let c = cards[index];
            let mut used: Vec<char> = Vec::new();
            used.push(c);
            let mut remaining = copy_chars(cards);
            let _removed = remaining.remove(index);
            proof {
                assert(used@ =~= seq![c]);
                assert(remaining@ == hand.remove(index as int));
                assert forall|k: int| 0 <= k < remaining@.len() implies valid_sym(
                    #[trigger] remaining@[k],
                ) by {
                    assert(remaining@[k] == if k < index {
                        hand[k]
                    } else {
                        hand[k + 1]
                    });
                }
                assert(remaining@.to_multiset() == hand.to_multiset().remove(c));
                assert(hand.contains(c));
                assert(hand.to_multiset().count(c) > 0);
            }
            self.find_word(used, remaining, &mut collector);
            proof {
                // entries found deeper are sound for the whole hand
                assert forall|j: int| 0 <= j < collector@.len() implies {
                    &&& t.words().contains((#[trigger] collector@[j]).cards@)
                    &&& collector@[j].score == weight(t.table(), collector@[j].cards@)
                    &&& collector@[j].cards@.len() >= 2
                    &&& collector@[j].cards@.to_multiset().subset_of(hand.to_multiset())
                } by {
                    if j < coll_iter_start.len() {
                        assert(coll_iter_start == collector@.subrange(
                            0,
                            coll_iter_start.len() as int,
                        ));
                        assert(collector@[j] == coll_iter_start[j]);
                    } else {
                        let cw = collector@[j];
                        assert(found_from(t, seq![c], hand.remove(index as int), cw));
                        lemma_suffix_ms_step(cw.cards@, 1);
                        assert(cw.cards@.skip(0) =~= cw.cards@);
                        lemma_suffix_ms_step(cw.cards@, 0);
                        assert(cw.cards@[0] == seq![c][0]);
                        assert forall|x: char| cw.cards@.to_multiset().count(x)
                            <= hand.to_multiset().count(x) by {
                            assert(cw.cards@.skip(1).to_multiset().count(x) <= hand.remove(
                                index as int,
                            ).to_multiset().count(x));
                            assert(cw.cards@.to_multiset() == cw.cards@.skip(
                                1,
                            ).to_multiset().insert(cw.cards@[0]));
                        }
                    }
                }
                // every findable word whose first tile sits at or before this
                // position is collected
                assert forall|e: Seq<char>|
                    #[trigger] findable(t, hand, e) && (exists|i2: int|
                        0 <= i2 < index + 1 && hand[i2] == e[0]) implies in_collection(
                    collector@,
                    e,
                ) by {
                    let i2 = choose|i2: int| 0 <= i2 < index + 1 && hand[i2] == e[0];
                    if i2 < index {
                        lemma_in_collection_grow(coll_iter_start, collector@, e);
                    } else {
                        assert(e[0] == c);
                        assert(seq![c].is_prefix_of(e)) by {
                            assert(seq![c] =~= e.subrange(0, 1));
                        }
                        lemma_suffix_ms_step(e, 0);
                        assert(e.skip(0) =~= e);
                        assert forall|x: char| e.skip(1).to_multiset().count(x) <= hand.remove(
                            index as int,
                        ).to_multiset().count(x) by {
                            assert(e.to_multiset().count(x) <= hand.to_multiset().count(x));
                            assert(e.to_multiset() == e.skip(1).to_multiset().insert(e[0]));
                        }
                        assert(wanted(t, seq![c], hand.remove(index as int), e));
                    }
                }
            }
            index += 1;
        }
        proof {
            assert forall|j: int| 0 <= j < collector@.len() implies cw_ok(
                t.table(),
                #[trigger] collector@[j],
            ) by {
                t.lemma_word_valid(collector@[j].cards@);
            }
            assert forall|e: Seq<char>| #[trigger] findable(t, hand, e) implies in_collection(
                collector@,
                e,
            ) by {
                assert(e.len() >= 2);
                assert(e.contains(e[0]));
                assert(e.to_multiset().count(e[0]) > 0);
                assert(hand.to_multiset().count(e[0]) > 0);
                assert(hand.contains(e[0]));
                let i2 = choose|i2: int| 0 <= i2 < hand.len() && hand[i2] == e[0];
            }
        }
        collector
    }
}

/// Carries the finder's guarantees one step backwards: what was found with
/// one more used tile `c` was found for the shorter prefix too, and every
/// word owed with `c` as its next tile is owed by the deeper search.
proof fn lemma_step_back(
    t: TrieSet,
    used: Seq<char>,
    c: char,
    crem: Seq<char>,
    index: int,
    coll_pre: Seq<CardWord>,
    coll_post: Seq<CardWord>,
)
    requires
        t.wf(),
        0 <= index < crem.len(),
        crem[index] == c,
        coll_pre.is_prefix_of(coll_post),
        forall|j: int| coll_pre.len() <= j < coll_post.len() ==> found_from(
            t,
            used.push(c),
            crem.remove(index),
            #[trigger] coll_post[j],
        ),
        forall|e2: Seq<char>| #[trigger] wanted(t, used.push(c), crem.remove(index), e2)
            ==> in_collection(coll_post, e2),
    ensures
        forall|j: int| coll_pre.len() <= j < coll_post.len() ==> found_from(
            t,
            used,
            crem,
            #[trigger] coll_post[j],
        ),
        forall|e: Seq<char>|
            #[trigger] wanted(t, used, crem, e) && e.len() > used.len() + 1 && e[used.len() as int]
                == c ==> in_collection(coll_post, e),
{
    let ul = used.len() as int;
    assert(crem.contains(c));
    assert(crem.to_multiset().count(c) > 0);
    assert(crem.remove(index).to_multiset() == crem.to_multiset().remove(c));
    assert forall|j: int| coll_pre.len() <= j < coll_post.len() implies found_from(
        t,
        used,
        crem,
        #[trigger] coll_post[j],
    ) by {
        lemma_entry_back(t, used, c, crem, index, coll_post[j]);
    }
    assert forall|e: Seq<char>|
        #[trigger] wanted(t, used, crem, e) && e.len() > ul + 1 && e[ul] == c implies in_collection(
        coll_post,
        e,
    ) by {
        lemma_push_prefix(used, c, e);
        assert(e.skip(ul).to_multiset() == e.skip(ul + 1).to_multiset().insert(e[ul])) by {
            lemma_suffix_ms_step(e, ul);
        }
        assert forall|x: char| e.skip(ul + 1).to_multiset().count(x) <= crem.remove(
            index,
        ).to_multiset().count(x) by {
            assert(e.skip(ul).to_multiset().count(x) <= crem.to_multiset().count(x));
        }
        assert(wanted(t, used.push(c), crem.remove(index), e));
    }
}

/// An entry sound for the deeper search (one more used tile `c`) is sound
/// for the shallower one.
proof fn lemma_entry_back(t: TrieSet, used: Seq<char>, c: char, crem: Seq<char>, index: int, cw: CardWord)
    requires
        t.wf(),
        0 <= index < crem.len(),
        crem[index] == c,
        found_from(t, used.push(c), crem.remove(index), cw),
    ensures
        found_from(t, used, crem, cw),
{
    let ul = used.len() as int;
    assert(used.is_prefix_of(used.push(c))) by {
        assert(used =~= used.push(c).subrange(0, ul));
    }
    lemma_prefix_trans(used, used.push(c), cw.cards@);
    assert(cw.cards@[ul] == used.push(c)[ul]);
    assert(crem.contains(c));
    assert(crem.to_multiset().count(c) > 0);
    assert(crem.remove(index).to_multiset() == crem.to_multiset().remove(c));
    lemma_suffix_ms_step(cw.cards@, ul);
    assert forall|x: char| cw.cards@.skip(ul).to_multiset().count(x) <= crem.to_multiset().count(
        x,
    ) by {
        assert(cw.cards@.skip(ul + 1).to_multiset().count(x) <= crem.remove(
            index,
        ).to_multiset().count(x));
        assert(cw.cards@.skip(ul).to_multiset() == cw.cards@.skip(ul + 1).to_multiset().insert(
            cw.cards@[ul],
        ));
    }
}

/// The round-trip law: a word of two or more plain letters that was inserted
/// into the dictionary is found again from any hand made of exactly its
/// letters as single-letter tiles, in any order.  The first quantified
/// premise is what `add_perms` ensures of the dictionary; the second is what
/// `find` ensures of its result.  (A single-letter word is out: the finder
/// only reports words of at least two tiles.)
pub proof fn lemma_round_trip(
    pre: TrieSet,
    t: TrieSet,
    w: Seq<char>,
    hand: Seq<char>,
    r: Seq<CardWord>,
)
    requires
        t.wf(),
        all_letters(w),
        w.len() >= 2,
        forall|x: Seq<char>|
            #![trigger t.words().contains(x)]
            #![trigger is_encoding_of(x, w)]
            t.words().contains(x) <==> pre.words().contains(x) || is_encoding_of(x, w),
        hand.to_multiset() == w.to_multiset(),
        forall|e: Seq<char>| #[trigger] findable(t, hand, e) ==> in_collection(r, e),
    ensures
        in_collection(r, w),
{
    lemma_letters_self_encoding(w);
    assert(t.words().contains(w));
    assert(w.to_multiset().subset_of(hand.to_multiset()));
    assert(findable(t, hand, w));
}

/// A fresh copy of a tile vector.
fn copy_chars(t: &Vec<char>) -> (r: Vec<char>)
    ensures
        r@ == t@,
{
    let mut r: Vec<char> = Vec::new();
    let mut j: usize = 0;
    while j < t.len()
        invariant
            j <= t@.len(),
            r@ =~= t@.take(j as int),
        decreases t@.len() - j,
    {
        r.push(t[j]);
        proof {
            assert(t@.take(j as int).push(t@[j as int]) =~= t@.take(j as int + 1));
        }
        j += 1;
    }
    proof {
        assert(t@.take(t@.len() as int) =~= t@);
    }
    r
}

/// The multiset of all tiles used by a list of words.
pub open spec fn msum(ws: Seq<CardWord>) -> Multiset<char>
    decreases ws.len(),
{
    if ws.len() == 0 {
        Multiset::empty()
    } else {
        ws[0].cards@.to_multiset().add(msum(ws.drop_first()))
    }
}

/// The sum of the scores of a list of words.
pub open spec fn ssum(ws: Seq<CardWord>) -> int
    decreases ws.len(),
{
    if ws.len() == 0 {
        0
    } else {
        ws[0].score + ssum(ws.drop_first())
    }
}

/// The length of the longest word in a list (0 for an empty list).
pub open spec fn max_len(ws: Seq<CardWord>) -> int
    decreases ws.len(),
{
    if ws.len() == 0 {
        0
    } else {
        let m = max_len(ws.drop_first());
        if ws[0].cards@.len() > m {
            ws[0].cards@.len() as int
        } else {
            m
        }
    }
}

proof fn lemma_sums_push(ws: Seq<CardWord>, cw: CardWord)
    ensures
        msum(ws.push(cw)) == msum(ws).add(cw.cards@.to_multiset()),
        ssum(ws.push(cw)) == ssum(ws) + cw.score,
        max_len(ws.push(cw)) == if cw.cards@.len() > max_len(ws) {
            cw.cards@.len() as int
        } else {
            max_len(ws)
        },
    decreases ws.len(),
{
    if ws.len() == 0 {
        let p = ws.push(cw);
        assert(p[0] == cw);
        assert(p.drop_first() =~= Seq::<CardWord>::empty());
        assert(msum(Seq::<CardWord>::empty()) =~= Multiset::<char>::empty());
        assert(ssum(Seq::<CardWord>::empty()) == 0);
        assert(max_len(Seq::<CardWord>::empty()) == 0);
        assert(msum(p) =~= cw.cards@.to_multiset());
        assert(ssum(p) == cw.score);
        assert(msum(ws) =~= Multiset::<char>::empty());
        assert(msum(ws).add(cw.cards@.to_multiset()) =~= cw.cards@.to_multiset());
    } else {
        assert(ws.push(cw)[0] == ws[0]);
        assert(ws.push(cw).drop_first() =~= ws.drop_first().push(cw));
        lemma_sums_push(ws.drop_first(), cw);
        assert(msum(ws.push(cw)) =~= ws[0].cards@.to_multiset().add(
            msum(ws.drop_first()).add(cw.cards@.to_multiset()),
        ));
        assert(ws[0].cards@.to_multiset().add(msum(ws.drop_first()).add(cw.cards@.to_multiset()))
            =~= msum(ws).add(cw.cards@.to_multiset()));
    }
}

/// Splitting a word list at position `k`.
proof fn lemma_sums_skip(ws: Seq<CardWord>, k: int)
    requires
        0 <= k < ws.len(),
    ensures
        msum(ws.skip(k)) == ws[k].cards@.to_multiset().add(msum(ws.skip(k + 1))),
        ssum(ws.skip(k)) == ws[k].score + ssum(ws.skip(k + 1)),
{
    assert(ws.skip(k)[0] == ws[k]);
    assert(ws.skip(k).drop_first() =~= ws.skip(k + 1));
}

proof fn lemma_ssum_nonneg(ws: Seq<CardWord>)
    ensures
        ssum(ws) >= 0,
    decreases ws.len(),
{
    if ws.len() > 0 {
        lemma_ssum_nonneg(ws.drop_first());
    }
}

/// Lists that match pointwise have the same tile multiset, score sum and
/// longest word.
proof fn lemma_words_congruent(a: Seq<CardWord>, b: Seq<CardWord>)
    requires
        a.len() == b.len(),
        forall|k: int| 0 <= k < a.len() ==> cw_matches(#[trigger] a[k], b[k]),
    ensures
        msum(a) == msum(b),
        ssum(a) == ssum(b),
        max_len(a) == max_len(b),
    decreases a.len(),
{
    if a.len() > 0 {
        assert forall|k: int| 0 <= k < a.drop_first().len() implies cw_matches(
            #[trigger] a.drop_first()[k],
            b.drop_first()[k],
        ) by {
            assert(a.drop_first()[k] == a[k + 1]);
            assert(b.drop_first()[k] == b[k + 1]);
        }
        lemma_words_congruent(a.drop_first(), b.drop_first());
        assert(cw_matches(a[0], b[0]));
    }
}

/// The score sum of a list of correctly scored words is the value sum of its
/// tile multiset.
proof fn lemma_ssum_is_mw(table: Seq<u8>, ws: Seq<CardWord>)
    requires
        forall|k: int| 0 <= k < ws.len() ==> cw_ok(table, #[trigger] ws[k]),
    ensures
        ssum(ws) == mw(table, msum(ws)),
    decreases ws.len(),
{
    if ws.len() == 0 {
        assert(mw(table, Multiset::<char>::empty()) == 0);
    } else {
        assert forall|k: int| 0 <= k < ws.drop_first().len() implies cw_ok(
            table,
            #[trigger] ws.drop_first()[k],
        ) by {
            assert(ws.drop_first()[k] == ws[k + 1]);
        }
        lemma_ssum_is_mw(table, ws.drop_first());
        lemma_weight_is_mw(table, ws[0].cards@);
        lemma_mw_add(table, ws[0].cards@.to_multiset(), msum(ws.drop_first()));
    }
}

/// One assembled play candidate: the words chosen so far and the leftover
/// pseudo-word made of the unused tiles.
struct Combo {
    words: Vec<CardWord>,
    leftover: CardWord,
}

/// What holds of every emitted combo: the chosen words and the leftover
/// together account for every tile of the hand exactly once; every chosen
/// word is one of the candidates; all scores follow the table; and no
/// candidate can still be laid from the leftover.
spec fn combo_ok(table: Seq<u8>, hand: Seq<char>, cand: Seq<CardWord>, co: Combo) -> bool {
    &&& msum(co.words@).add(co.leftover.cards@.to_multiset()) == hand.to_multiset()
    &&& forall|k: int| 0 <= k < co.words@.len() ==> cw_ok(table, #[trigger] co.words@[k])
    &&& forall|k: int| 0 <= k < co.words@.len() ==> exists|i: int|
        0 <= i < cand.len() && cw_matches(#[trigger] co.words@[k], cand[i])
    &&& cw_ok(table, co.leftover)
    &&& forall|i: int| 0 <= i < cand.len() ==> !(#[trigger] cand[i]).cards@.to_multiset().subset_of(
        co.leftover.cards@.to_multiset(),
    )
}

/// A fresh copy of a word list, entry by entry.
fn clone_words(ws: &Vec<CardWord>) -> (r: Vec<CardWord>)
    ensures
        r@.len() == ws@.len(),
        forall|k: int| 0 <= k < ws@.len() ==> cw_matches(#[trigger] r@[k], ws@[k]),
{
    let mut r: Vec<CardWord> = Vec::new();
    let mut j: usize = 0;
    while j < ws.len()
        invariant
            j <= ws@.len(),
            r@.len() == j,
            forall|k: int| 0 <= k < j ==> cw_matches(#[trigger] r@[k], ws@[k]),
        decreases ws@.len() - j,
    {
        r.push(ws[j].duplicate());
        j += 1;
    }
    r
}

/// Sorts candidates ascending by tile-sequence length, so that the
/// composer's scan can stop as soon as a candidate no longer fits.
fn sort_by_len(ws: Vec<CardWord>) -> (r: Vec<CardWord>)
    ensures
        r@.to_multiset() == ws@.to_multiset(),
        r@.len() == ws@.len(),
        forall|i: int, j: int| 0 <= i <= j < r@.len() ==> (#[trigger] r@[i]).cards@.len()
            <= (#[trigger] r@[j]).cards@.len(),
{
    let ghost orig = ws@;
    let mut src = ws;
    let mut out: Vec<CardWord> = Vec::new();
    while src.len() > 0
        invariant
            out@.to_multiset().add(src@.to_multiset()) == orig.to_multiset(),
            out@.len() + src@.len() == orig.len(),
            forall|i: int, j: int| 0 <= i <= j < out@.len() ==> (#[trigger] out@[i]).cards@.len()
                <= (#[trigger] out@[j]).cards@.len(),
            forall|i: int, j: int|
                0 <= i < out@.len() && 0 <= j < src@.len() ==> (#[trigger] out@[i]).cards@.len()
                    <= (#[trigger] src@[j]).cards@.len(),
        decreases src@.len(),
    {
        let mut m: usize = 0;
        let mut k: usize = 1;
        while k < src.len()
            invariant
                m < k <= src@.len(),
                src@.len() > 0,
                forall|k2: int| 0 <= k2 < k ==> (#[trigger] src@[k2]).cards@.len()
                    >= src@[m as int].cards@.len(),
            decreases src@.len() - k,
        {
            if src[k].cards.len() < src[m].cards.len() {
                m = k;
            }
            k += 1;
        }
        let ghost src_before = src@;
        let ghost out_before = out@;
        let w = src.remove(m);
        out.push(w);
        proof {
            assert(src@.to_multiset() == src_before.to_multiset().remove(w));
            assert(src_before.contains(w)) by {
                assert(src_before[m as int] == w);
            }
            assert(src_before.to_multiset().count(w) > 0);
            assert(out@.to_multiset() == out_before.to_multiset().insert(w));
            assert(out@.to_multiset().add(src@.to_multiset()) =~= out_before.to_multiset().add(
                src_before.to_multiset(),
            ));
            assert forall|i: int, j: int|
                0 <= i < out@.len() && 0 <= j < src@.len() implies (#[trigger] out@[i]).cards@.len()
                <= (#[trigger] src@[j]).cards@.len() by {
                assert(src@[j] == if j < m {
                    src_before[j]
                } else {
                    src_before[j + 1]
                });
                if i < out_before.len() {
                    assert(out@[i] == out_before[i]);
                } else {
                    assert(out@[i] == w);
                }
            }
            assert forall|i: int, j: int|
                0 <= i <= j < out@.len() implies (#[trigger] out@[i]).cards@.len()
                <= (#[trigger] out@[j]).cards@.len() by {
                if j == out@.len() - 1 && i < j {
                    assert(out@[i] == out_before[i]);
                    assert(out@[j] == w);
                    assert(out_before[i].cards@.len() <= src_before[m as int].cards@.len());
                }
            }
        }
    }
    out
}

/// Recursive composition: tries to subtract each candidate in turn from the
/// remaining tiles and recurses on success; when no candidate fits any more,
/// emits the choices made plus a leftover pseudo-word of what remains.
fn find_combos(
    card_words: &Vec<CardWord>,
    values: &Vec<u8>,
    cards_remaining: Vec<char>,
    choices: Vec<CardWord>,
    collector: &mut Vec<Combo>,
)
    requires
        values@.len() == 31,
        forall|i: int, j: int| 0 <= i <= j < card_words@.len() ==> (#[trigger] card_words@[i]).cards@.len() <= (#[trigger] card_words@[j]).cards@.len(),
        forall|i: int| 0 <= i < card_words@.len() ==> cw_ok(values@, #[trigger] card_words@[i])
            && card_words@[i].cards@.len() >= 1,
        all_valid(cards_remaining@),
        255 * cards_remaining@.len() <= u64::MAX,
        forall|k: int| 0 <= k < choices@.len() ==> cw_ok(values@, #[trigger] choices@[k]),
    ensures
        old(collector)@.is_prefix_of(final(collector)@),
        final(collector)@.len() > old(collector)@.len(),
        card_words@.len() == 1 ==> final(collector)@.len() == old(collector)@.len() + 1,
        forall|j: int|
            old(collector)@.len() <= j < final(collector)@.len() ==> {
                let co = (#[trigger] final(collector)@[j]);
                &&& co.words@.len() >= choices@.len()
                &&& forall|k: int| 0 <= k < choices@.len() ==> cw_matches(
                    #[trigger] co.words@[k],
                    choices@[k],
                )
                &&& forall|k: int| choices@.len() <= k < co.words@.len() ==> exists|i: int|
                    0 <= i < card_words@.len() && cw_matches(#[trigger] co.words@[k], card_words@[i])
                &&& forall|k: int| 0 <= k < co.words@.len() ==> cw_ok(
                    values@,
                    #[trigger] co.words@[k],
                )
                &&& msum(co.words@.skip(choices@.len() as int)).add(
                    co.leftover.cards@.to_multiset(),
                ) == cards_remaining@.to_multiset()
                &&& cw_ok(values@, co.leftover)
                &&& forall|i: int| 0 <= i < card_words@.len() ==> !(#[trigger] card_words@[i]).cards@.to_multiset().subset_of(co.leftover.cards@.to_multiset())
            },
    decreases cards_remaining@.len(),
{
    let ghost cand = card_words@;
    let ghost crem = cards_remaining@;
    let ghost cl = choices@.len() as int;
    let mut finished: bool = true;
    let mut i: usize = 0;
    while i < card_words.len() && card_words[i].cards.len() <= cards_remaining.len()
        invariant
            i <= cand.len(),
            cand == card_words@,
            crem == cards_remaining@,
            cl == choices@.len(),
            values@.len() == 31,
            forall|i2: int, j2: int| 0 <= i2 <= j2 < cand.len() ==> (#[trigger] cand[i2]).cards@.len() <= (#[trigger] cand[j2]).cards@.len(),
            forall|i2: int| 0 <= i2 < cand.len() ==> cw_ok(values@, #[trigger] cand[i2])
                && cand[i2].cards@.len() >= 1,
            all_valid(crem),
            255 * crem.len() <= u64::MAX,
            forall|k: int| 0 <= k < choices@.len() ==> cw_ok(values@, #[trigger] choices@[k]),
            finished ==> forall|i2: int|
                0 <= i2 < i ==> !(#[trigger] cand[i2]).cards@.to_multiset().subset_of(
                    crem.to_multiset(),
                ),
            i == 0 ==> finished,
            finished ==> collector@ == old(collector)@,
            !finished ==> collector@.len() > old(collector)@.len(),
            cand.len() == 1 && !finished ==> collector@.len() == old(collector)@.len() + 1,
            old(collector)@.is_prefix_of(collector@),
            forall|j: int|
                old(collector)@.len() <= j < collector@.len() ==> {
                    let co = (#[trigger] collector@[j]);
                    &&& co.words@.len() >= cl
                    &&& forall|k: int| 0 <= k < cl ==> cw_matches(
                        #[trigger] co.words@[k],
                        choices@[k],
                    )
                    &&& forall|k: int| cl <= k < co.words@.len() ==> exists|i2: int|
                        0 <= i2 < cand.len() && cw_matches(#[trigger] co.words@[k], cand[i2])
                    &&& forall|k: int| 0 <= k < co.words@.len() ==> cw_ok(
                        values@,
                        #[trigger] co.words@[k],
                    )
                    &&& msum(co.words@.skip(cl)).add(co.leftover.cards@.to_multiset())
                        == crem.to_multiset()
                    &&& cw_ok(values@, co.leftover)
                    &&& forall|i2: int| 0 <= i2 < cand.len() ==> !(#[trigger] cand[i2]).cards@.to_multiset().subset_of(co.leftover.cards@.to_multiset())
                },
        decreases cand.len() - i,
    {
        let w = &card_words[i];
        match w.remove_from(cards_remaining.as_slice()) {
            Some(hand2) => {
                finished = false;
                let mut new_choices = clone_words(&choices);
                new_choices.push(w.duplicate());
                let ghost coll_before = collector@;
                proof {
                    assert forall|k: int| 0 <= k < hand2@.len() implies valid_sym(
                        #[trigger] hand2@[k],
                    ) by {
                        assert(hand2@.contains(hand2@[k]));
                        assert(crem.contains(hand2@[k]));
                        let k2 = choose|k2: int| 0 <= k2 < crem.len() && crem[k2] == hand2@[k];
                    }
                    assert forall|k: int| 0 <= k < new_choices@.len() implies cw_ok(
                        values@,
                        #[trigger] new_choices@[k],
                    ) by {
                        if k < cl {
                            assert(cw_matches(new_choices@[k], choices@[k]));
                        } else {
                            assert(cw_matches(new_choices@[k], cand[i as int]));
                        }
                    }
                    assert(hand2@.len() < crem.len());
                }
                find_combos(card_words, values, hand2, new_choices, collector);
                proof {
                    lemma_prefix_trans_combo(coll_before, collector@, old(collector)@);
                    assert forall|j: int| 0 <= j < coll_before.len() implies collector@[j]
                        == coll_before[j] by {
                        assert(coll_before == collector@.subrange(0, coll_before.len() as int));
                    }
                    let ghost ncl = cl + 1;
                    assert forall|j: int|
                        coll_before.len() <= j < collector@.len() implies {
                        let co = (#[trigger] collector@[j]);
                        &&& co.words@.len() >= cl
                        &&& forall|k: int| 0 <= k < cl ==> cw_matches(
                            #[trigger] co.words@[k],
                            choices@[k],
                        )
                        &&& forall|k: int| cl <= k < co.words@.len() ==> exists|i2: int|
                            0 <= i2 < cand.len() && cw_matches(#[trigger] co.words@[k], cand[i2])
                        &&& msum(co.words@.skip(cl)).add(co.leftover.cards@.to_multiset())
                            == crem.to_multiset()
                    } by {
                        let co = collector@[j];
                        assert forall|k: int| 0 <= k < cl implies cw_matches(
                            #[trigger] co.words@[k],
                            choices@[k],
                        ) by {
                            assert(cw_matches(co.words@[k], new_choices@[k]));
                            assert(cw_matches(new_choices@[k], choices@[k]));
                        }
                        assert forall|k: int|
                            cl <= k < co.words@.len() implies exists|i2: int|
                            0 <= i2 < cand.len() && cw_matches(#[trigger] co.words@[k], cand[i2]) by {
                            if k == cl {
                                assert(cw_matches(co.words@[k], new_choices@[cl]));
                                assert(cw_matches(new_choices@[cl], cand[i as int]));
                                assert(cw_matches(co.words@[k], cand[i as int]));
                            }
                        }
                        lemma_sums_skip(co.words@, cl);
                        assert(co.words@[cl].cards@ == cand[i as int].cards@) by {
                            assert(cw_matches(co.words@[cl], new_choices@[cl]));
                            assert(cw_matches(new_choices@[cl], cand[i as int]));
                        }
                        assert(msum(co.words@.skip(ncl)).add(co.leftover.cards@.to_multiset())
                            == hand2@.to_multiset());
                        assert(hand2@.to_multiset().add(cand[i as int].cards@.to_multiset())
                            == crem.to_multiset());
                        assert(msum(co.words@.skip(cl)).add(co.leftover.cards@.to_multiset())
                            =~= crem.to_multiset());
                    }
                    assert forall|j: int|
                        old(collector)@.len() <= j < collector@.len() implies {
                        let co = (#[trigger] collector@[j]);
                        &&& co.words@.len() >= cl
                        &&& forall|k: int| 0 <= k < cl ==> cw_matches(
                            #[trigger] co.words@[k],
                            choices@[k],
                        )
                        &&& forall|k: int| cl <= k < co.words@.len() ==> exists|i2: int|
                            0 <= i2 < cand.len() && cw_matches(#[trigger] co.words@[k], cand[i2])
                        &&& forall|k: int| 0 <= k < co.words@.len() ==> cw_ok(
                            values@,
                            #[trigger] co.words@[k],
                        )
                        &&& msum(co.words@.skip(cl)).add(co.leftover.cards@.to_multiset())
                            == crem.to_multiset()
                        &&& cw_ok(values@, co.leftover)
                        &&& forall|i2: int| 0 <= i2 < cand.len() ==> !(#[trigger] cand[i2]).cards@.to_multiset().subset_of(co.leftover.cards@.to_multiset())
                    } by {
                        if j < coll_before.len() {
                            assert(collector@[j] == coll_before[j]);
                        }
                    }
                }
            },
            None => {},
        }
        i += 1;
    }
    proof {
        if finished {
            assert forall|i2: int|
                0 <= i2 < cand.len() implies !(#[trigger] cand[i2]).cards@.to_multiset().subset_of(crem.to_multiset()) by {
                if i2 >= i {
                    assert(cand[i as int].cards@.len() <= cand[i2].cards@.len());
                    if cand[i2].cards@.to_multiset().subset_of(crem.to_multiset()) {
                        lemma_le_len(cand[i2].cards@.to_multiset(), crem.to_multiset());
                    }
                }
            }
        }
    }
    if finished {
        let leftover = CardWord::new(cards_remaining.as_slice(), values);
        let co = Combo { words: clone_words(&choices), leftover };
        collector.push(co);
        proof {
            assert(old(collector)@.is_prefix_of(collector@)) by {
                assert(old(collector)@ =~= collector@.subrange(0, old(collector)@.len() as int));
            }
            let co2 = collector@[collector@.len() - 1];
            assert(co2.words@.skip(cl) =~= Seq::<CardWord>::empty());
            assert(msum(co2.words@.skip(cl)).add(co2.leftover.cards@.to_multiset())
                =~= crem.to_multiset());
        }
    }
}

/// The four ranking criteria of the composer.
#[derive(Debug, PartialEq, Eq, Clone, Copy)]
pub enum PlayKind {
    /// Minimal leftover score (equivalently, maximal used score).
    TopScore,
    /// Greatest count of component words.
    MostWords,
    /// Contains the single longest component word.
    LongestWord,
    /// Longest word first, then minimal leftover score, then first emitted.
    LongestWordTopScore,
}

/// A ranked assembly of non-overlapping words plus the leftover tiles.
#[derive(Debug)]
pub struct Play {
    pub kind: PlayKind,
    pub words: Vec<CardWord>,
    pub remaining: CardWord,
    pub score: u64,
}

/// How the composer fails.
#[derive(Debug, PartialEq, Eq)]
pub enum SolveError {
    /// The composer was given no candidate words.
    EmptyInput,
}

/// What every returned play guarantees: each tile of the hand is accounted
/// for exactly once between the component words and the leftover; all scores
/// follow the value table, and the play's score is the sum of its words';
/// the words' scores plus the leftover score make up the hand's fixed total;
/// every component word is one of the candidates; and no candidate can still
/// be laid from the leftover.
pub open spec fn play_ok(table: Seq<u8>, hand: Seq<char>, cand: Seq<CardWord>, p: Play) -> bool {
    &&& msum(p.words@).add(p.remaining.cards@.to_multiset()) == hand.to_multiset()
    &&& p.score == ssum(p.words@)
    &&& ssum(p.words@) + p.remaining.score == weight(table, hand)
    &&& cw_ok(table, p.remaining)
    &&& forall|k: int| 0 <= k < p.words@.len() ==> cw_ok(table, #[trigger] p.words@[k])
    &&& forall|k: int| 0 <= k < p.words@.len() ==> exists|i: int|
        0 <= i < cand.len() && cw_matches(#[trigger] p.words@[k], cand[i])
    &&& forall|i: int| 0 <= i < cand.len() ==> !(#[trigger] cand[i]).cards@.to_multiset().subset_of(
        p.remaining.cards@.to_multiset(),
    )
}

/// Two plays with the same words (by content), leftover and score.
pub open spec fn play_same(a: Play, b: Play) -> bool {
    &&& a.words@.len() == b.words@.len()
    &&& forall|k: int| 0 <= k < a.words@.len() ==> cw_matches(#[trigger] a.words@[k], b.words@[k])
    &&& cw_matches(a.remaining, b.remaining)
    &&& a.score == b.score
}

impl Play {
    /// A play from chosen words and a leftover pseudo-word; the play's score
    /// is the sum of the component words' scores.
    pub fn new(kind: PlayKind, card_words: &Vec<CardWord>, remaining: &CardWord) -> (p: Play)
        requires
            ssum(card_words@) <= u64::MAX,
        ensures
            p.kind == kind,
            p.words@.len() == card_words@.len(),
            forall|k: int| 0 <= k < card_words@.len() ==> cw_matches(
                #[trigger] p.words@[k],
                card_words@[k],
            ),
            cw_matches(p.remaining, *remaining),
            p.score == ssum(card_words@),
    {
        let words = clone_words(card_words);
        let ghost ws = card_words@;
        let mut score: u64 = 0;
        let mut k: usize = 0;
        proof {
            assert(ws.skip(0) =~= ws);
        }
        while k < card_words.len()
            invariant
                k <= ws.len(),
                ws == card_words@,
                score + ssum(ws.skip(k as int)) == ssum(ws),
                ssum(ws) <= u64::MAX,
                score >= 0,
            decreases ws.len() - k,
        {
            proof {
                lemma_sums_skip(ws, k as int);
                lemma_ssum_nonneg(ws.skip(k as int + 1));
            }
            score = score + card_words[k].score;
            k += 1;
        }
        proof {
            assert(ws.skip(ws.len() as int) =~= Seq::<CardWord>::empty());
        }
        Play { kind, words, remaining: remaining.duplicate(), score }
    }
}

/// The length of the longest word in the list, 0 if the list is empty.
fn max_word_len(ws: &Vec<CardWord>) -> (m: usize)
    ensures
        m == max_len(ws@),
{
    let mut m: usize = 0;
    let mut k: usize = 0;
    proof {
        assert(ws@.take(0) =~= Seq::<CardWord>::empty());
    }
    while k < ws.len()
        invariant
            k <= ws@.len(),
            m == max_len(ws@.take(k as int)),
        decreases ws@.len() - k,
    {
        proof {
            lemma_sums_push(ws@.take(k as int), ws@[k as int]);
            assert(ws@.take(k as int).push(ws@[k as int]) =~= ws@.take(k as int + 1));
        }
        if ws[k].cards.len() > m {
            m = ws[k].cards.len();
        }
        k += 1;
    }
    proof {
        assert(ws@.take(ws@.len() as int) =~= ws@);
    }
    m
}

/// The first entry with the smallest leftover score.
fn pick_top_score(collector: &Vec<Combo>) -> (b: usize)
    requires
        collector@.len() >= 1,
    ensures
        b < collector@.len(),
        forall|j: int| 0 <= j < collector@.len() ==> collector@[b as int].leftover.score
            <= (#[trigger] collector@[j]).leftover.score,
{
    let mut b: usize = 0;
    let mut k: usize = 1;
    while k < collector.len()
        invariant
            b < k <= collector@.len(),
            forall|j: int| 0 <= j < k ==> collector@[b as int].leftover.score
                <= (#[trigger] collector@[j]).leftover.score,
        decreases collector@.len() - k,
    {
        if collector[k].leftover.score < collector[b].leftover.score {
            b = k;
        }
        k += 1;
    }
    b
}

/// The first entry with the most component words.
fn pick_most_words(collector: &Vec<Combo>) -> (b: usize)
    requires
        collector@.len() >= 1,
    ensures
        b < collector@.len(),
        forall|j: int| 0 <= j < collector@.len() ==> collector@[b as int].words@.len()
            >= (#[trigger] collector@[j]).words@.len(),
{
    let mut b: usize = 0;
    let mut k: usize = 1;
    while k < collector.len()
        invariant
            b < k <= collector@.len(),
            forall|j: int| 0 <= j < k ==> collector@[b as int].words@.len() >= (#[trigger]
            collector@[j]).words@.len(),
        decreases collector@.len() - k,
    {
        if collector[k].words.len() > collector[b].words.len() {
            b = k;
        }
        k += 1;
    }
    b
}

/// The first entry containing the single longest word.
fn pick_longest(collector: &Vec<Combo>) -> (b: usize)
    requires
        collector@.len() >= 1,
    ensures
        b < collector@.len(),
        forall|j: int| 0 <= j < collector@.len() ==> max_len(collector@[b as int].words@)
            >= max_len((#[trigger] collector@[j]).words@),
{
    let mut b: usize = 0;
    let mut bm: usize = max_word_len(&collector[0].words);
    let mut k: usize = 1;
    while k < collector.len()
        invariant
            b < k <= collector@.len(),
            bm == max_len(collector@[b as int].words@),
            forall|j: int| 0 <= j < k ==> bm >= max_len((#[trigger] collector@[j]).words@),
        decreases collector@.len() - k,
    {
        let m = max_word_len(&collector[k].words);
        if m > bm {
            b = k;
            bm = m;
        }
        k += 1;
    }
    b
}

/// The entry with the longest word, ties broken by the smaller leftover
/// score, then by the earlier position: an explicit deterministic rule in
/// place of a scan-order-dependent one.
fn pick_longest_top(collector: &Vec<Combo>) -> (b: usize)
    requires
        collector@.len() >= 1,
    ensures
        b < collector@.len(),
        forall|j: int| 0 <= j < collector@.len() ==> max_len(collector@[b as int].words@)
            >= max_len((#[trigger] collector@[j]).words@),
        forall|j: int|
            0 <= j < collector@.len() && max_len((#[trigger] collector@[j]).words@) == max_len(
                collector@[b as int].words@,
            ) ==> collector@[b as int].leftover.score <= collector@[j].leftover.score,
{
    let mut b: usize = 0;
    let mut bm: usize = max_word_len(&collector[0].words);
    let mut k: usize = 1;
    while k < collector.len()
        invariant
            b < k <= collector@.len(),
            bm == max_len(collector@[b as int].words@),
            forall|j: int| 0 <= j < k ==> bm >= max_len((#[trigger] collector@[j]).words@),
            forall|j: int|
                0 <= j < k && max_len((#[trigger] collector@[j]).words@) == bm ==> collector@[b as int].leftover.score <= collector@[j].leftover.score,
        decreases collector@.len() - k,
    {
        let m = max_word_len(&collector[k].words);
        if m > bm || (m == bm && collector[k].leftover.score < collector[b].leftover.score) {
            b = k;
            bm = m;
        }
        k += 1;
    }
    b
}

impl Solver {
    /// Packs the candidate words into every maximal non-overlapping
    /// assembly and returns the four ranked plays; fails with `EmptyInput`
    /// exactly when no candidate is given.
    #[verifier::rlimit(100)]
    #[verifier::spinoff_prover]
    pub fn combos(&self, card_words: Vec<CardWord>, cards: &[char]) -> (r: Result<
        Vec<Play>,
        SolveError,
    >)
        requires
            self.dictionary.wf(),
            all_valid(cards@),
            255 * cards@.len() <= u64::MAX,
            forall|j: int| 0 <= j < card_words@.len() ==> cw_ok(
                self.dictionary.table(),
                #[trigger] card_words@[j],
            ) && card_words@[j].cards@.len() >= 1
                && card_words@[j].cards@.to_multiset().subset_of(cards@.to_multiset()),
        ensures
            (r is Err) <==> card_words@.len() == 0,
            r matches Err(e) ==> e == SolveError::EmptyInput,
            r matches Ok(plays) ==> {
                &&& plays@.len() == 4
                &&& plays@[0].kind == PlayKind::TopScore
                &&& plays@[1].kind == PlayKind::MostWords
                &&& plays@[2].kind == PlayKind::LongestWord
                &&& plays@[3].kind == PlayKind::LongestWordTopScore
                &&& forall|p: int| 0 <= p < 4 ==> play_ok(
                    self.dictionary.table(),
                    cards@,
                    card_words@,
                    #[trigger] plays@[p],
                )
                &&& forall|p: int| 0 <= p < 4 ==> plays@[0].remaining.score <= (#[trigger] plays@[p]).remaining.score
                &&& forall|p: int| 0 <= p < 4 ==> plays@[1].words@.len() >= (#[trigger] plays@[p]).words@.len()
                &&& forall|p: int| 0 <= p < 4 ==> max_len(plays@[2].words@) >= max_len(
                    (#[trigger] plays@[p]).words@,
                )
                &&& forall|p: int| 0 <= p < 4 ==> max_len(plays@[3].words@) >= max_len(
                    (#[trigger] plays@[p]).words@,
                ) && (max_len((#[trigger] plays@[p]).words@) == max_len(plays@[3].words@)
                    ==> plays@[3].remaining.score <= plays@[p].remaining.score)
                &&& card_words@.len() == 1 ==> forall|p: int| 0 <= p < 4 ==> play_same(
                    #[trigger] plays@[p],
                    plays@[0],
                )
            },
    {
        let ghost t = self.dictionary;
        let ghost hand = cards@;
        let ghost orig = card_words@;
        if card_words.len() == 0 {
            return Err(SolveError::EmptyInput);
        }
        let values = self.dictionary.values_ref();
        let sorted = sort_by_len(card_words);
        proof {
            t.lemma_wf_table();
            // every sorted entry is one of the originals, by the multiset
            // equality
            assert forall|i: int| 0 <= i < sorted@.len() implies cw_ok(
                t.table(),
                #[trigger] sorted@[i],
            ) && sorted@[i].cards@.len() >= 1 && sorted@[i].cards@.to_multiset().subset_of(
                hand.to_multiset(),
            ) by {
                assert(sorted@.contains(sorted@[i]));
                assert(sorted@.to_multiset().count(sorted@[i]) > 0);
                assert(orig.to_multiset().count(sorted@[i]) > 0);
                assert(orig.contains(sorted@[i]));
                let j = choose|j: int| 0 <= j < orig.len() && orig[j] == sorted@[i];
            }
        }
        let mut collector: Vec<Combo> = Vec::new();
        let mut i: usize = 0;
        while i < sorted.len()
            invariant
                i <= sorted@.len(),
                t == self.dictionary,
                hand == cards@,
                t.wf(),
                values@ == t.table(),
                values@.len() == 31,
                all_valid(hand),
                255 * hand.len() <= u64::MAX,
                sorted@.len() == orig.len(),
                orig.len() >= 1,
                forall|i2: int, j2: int| 0 <= i2 <= j2 < sorted@.len() ==> (#[trigger] sorted@[i2]).cards@.len() <= (#[trigger] sorted@[j2]).cards@.len(),
                forall|i2: int| 0 <= i2 < sorted@.len() ==> cw_ok(values@, #[trigger] sorted@[i2])
                    && sorted@[i2].cards@.len() >= 1
                    && sorted@[i2].cards@.to_multiset().subset_of(hand.to_multiset()),
                sorted@.to_multiset() == orig.to_multiset(),
                i == 0 ==> collector@.len() == 0,
                i >= 1 ==> collector@.len() >= 1,
                orig.len() == 1 && i == 1 ==> collector@.len() == 1,
                forall|j: int| 0 <= j < collector@.len() ==> combo_ok(
                    values@,
                    hand,
                    orig,
                    #[trigger] collector@[j],
                ),
            decreases sorted@.len() - i,
        {
            let ghost coll_before = collector@;
            let w = &sorted[i];
            let rem0 = match w.remove_from(cards) {
                Some(h) => h,
                None => {
                    proof {
                        assert(false);
                    }
                    Vec::new()
                },
            };
            let mut choices: Vec<CardWord> = Vec::new();
            choices.push(w.duplicate());
            proof {
                assert(choices@.len() == 1);
                assert(cw_matches(choices@[0], sorted@[i as int]));
                assert forall|k: int| 0 <= k < rem0@.len() implies valid_sym(
                    #[trigger] rem0@[k],
                ) by {
                    assert(rem0@.contains(rem0@[k]));
                    assert(hand.contains(rem0@[k]));
                    let k2 = choose|k2: int| 0 <= k2 < hand.len() && hand[k2] == rem0@[k];
                }
            }
            find_combos(&sorted, values, rem0, choices, &mut collector);
            proof {
                assert forall|j: int| 0 <= j < collector@.len() implies combo_ok(
                    values@,
                    hand,
                    orig,
                    #[trigger] collector@[j],
                ) by {
                    if j < coll_before.len() {
                        assert(coll_before == collector@.subrange(0, coll_before.len() as int));
                        assert(collector@[j] == coll_before[j]);
                    } else {
                        lemma_lift_combo(
                            values@,
                            hand,
                            orig,
                            sorted@,
                            i as int,
                            rem0@,
                            collector@[j],
                        );
                    }
                }
            }
            i += 1;
        }
        proof {
            assert(collector@.len() >= 1);
        }
        let plays = rank_plays(&collector, values, Ghost(hand), Ghost(orig));
        Ok(plays)
    }
}

/// Lifts what the recursive composer guarantees of an emitted combo, whose
/// first chosen word was subtracted from the hand before the recursion,
/// up to a guarantee about the whole hand and the original candidate list.
proof fn lemma_lift_combo(
    values: Seq<u8>,
    hand: Seq<char>,
    orig: Seq<CardWord>,
    sorted: Seq<CardWord>,
    i: int,
    rem0: Seq<char>,
    co: Combo,
)
    requires
        sorted.to_multiset() == orig.to_multiset(),
        0 <= i < sorted.len(),
        co.words@.len() >= 1,
        cw_matches(co.words@[0], sorted[i]),
        forall|k: int| 1 <= k < co.words@.len() ==> exists|i2: int|
            0 <= i2 < sorted.len() && cw_matches(#[trigger] co.words@[k], sorted[i2]),
        forall|k: int| 0 <= k < co.words@.len() ==> cw_ok(values, #[trigger] co.words@[k]),
        msum(co.words@.skip(1)).add(co.leftover.cards@.to_multiset()) == rem0.to_multiset(),
        cw_ok(values, co.leftover),
        forall|i2: int| 0 <= i2 < sorted.len() ==> !(#[trigger] sorted[
            i2]).cards@.to_multiset().subset_of(co.leftover.cards@.to_multiset()),
        rem0.to_multiset().add(sorted[i].cards@.to_multiset()) == hand.to_multiset(),
    ensures
        combo_ok(values, hand, orig, co),
{
    lemma_sums_skip(co.words@, 0);
    assert(co.words@.skip(0) =~= co.words@);
    assert(co.words@[0].cards@ == sorted[i].cards@);
    assert(msum(co.words@).add(co.leftover.cards@.to_multiset()) =~= hand.to_multiset());
    assert forall|k: int| 0 <= k < co.words@.len() implies exists|i2: int|
        0 <= i2 < orig.len() && cw_matches(#[trigger] co.words@[k], orig[i2]) by {
        let i3 = if k == 0 {
            i
        } else {
            choose|i3: int| 0 <= i3 < sorted.len() && cw_matches(co.words@[k], sorted[i3])
        };
        assert(cw_matches(co.words@[k], sorted[i3]));
        assert(sorted.contains(sorted[i3]));
        assert(sorted.to_multiset().count(sorted[i3]) > 0);
        assert(orig.to_multiset().count(sorted[i3]) > 0);
        assert(orig.contains(sorted[i3]));
        let j2 = choose|j2: int| 0 <= j2 < orig.len() && orig[j2] == sorted[i3];
        assert(cw_matches(co.words@[k], orig[j2]));
    }
    assert forall|i2: int| 0 <= i2 < orig.len() implies !(#[trigger] orig[
        i2]).cards@.to_multiset().subset_of(co.leftover.cards@.to_multiset()) by {
        assert(orig.contains(orig[i2]));
        assert(orig.to_multiset().count(orig[i2]) > 0);
        assert(sorted.to_multiset().count(orig[i2]) > 0);
        assert(sorted.contains(orig[i2]));
        let i3 = choose|i3: int| 0 <= i3 < sorted.len() && sorted[i3] == orig[i2];
    }
}

/// A play built from an emitted combo (same words by content, the combo's
/// leftover, and the words' summed score) satisfies the play guarantee.
proof fn lemma_play_from_combo(
    values: Seq<u8>,
    hand: Seq<char>,
    orig: Seq<CardWord>,
    co: Combo,
    p: Play,
)
    requires
        combo_ok(values, hand, orig, co),
        p.words@.len() == co.words@.len(),
        forall|k: int| 0 <= k < co.words@.len() ==> cw_matches(#[trigger] p.words@[k], co.words@[k]),
        cw_matches(p.remaining, co.leftover),
        p.score == ssum(co.words@),
    ensures
        play_ok(values, hand, orig, p),
        max_len(p.words@) == max_len(co.words@),
        p.remaining.score == co.leftover.score,
        p.words@.len() == co.words@.len(),
{
    lemma_words_congruent(p.words@, co.words@);
    lemma_ssum_is_mw(values, co.words@);
    lemma_weight_is_mw(values, co.leftover.cards@);
    lemma_weight_is_mw(values, hand);
    lemma_mw_add(values, msum(co.words@), co.leftover.cards@.to_multiset());
    assert(p.remaining.cards@ == co.leftover.cards@);
    assert forall|k: int| 0 <= k < p.words@.len() implies cw_ok(
        values,
        #[trigger] p.words@[k],
    ) by {
        assert(cw_ok(values, co.words@[k]));
        assert(cw_matches(p.words@[k], co.words@[k]));
    }
    assert forall|k: int| 0 <= k < p.words@.len() implies exists|i: int|
        0 <= i < orig.len() && cw_matches(#[trigger] p.words@[k], orig[i]) by {
        let i = choose|i: int| 0 <= i < orig.len() && cw_matches(co.words@[k], orig[i]);
        assert(cw_matches(p.words@[k], orig[i]));
    }
}

/// Ranks the emitted combos into the four named plays.
#[verifier::rlimit(100)]
#[verifier::spinoff_prover]
fn rank_plays(
    collector: &Vec<Combo>,
    values: &Vec<u8>,
    Ghost(hand): Ghost<Seq<char>>,
    Ghost(orig): Ghost<Seq<CardWord>>,
) -> (plays: Vec<Play>)
    requires
        values@.len() == 31,
        all_valid(hand),
        255 * hand.len() <= u64::MAX,
        collector@.len() >= 1,
        forall|j: int| 0 <= j < collector@.len() ==> combo_ok(
            values@,
            hand,
            orig,
            #[trigger] collector@[j],
        ),
    ensures
        plays@.len() == 4,
        plays@[0].kind == PlayKind::TopScore,
        plays@[1].kind == PlayKind::MostWords,
        plays@[2].kind == PlayKind::LongestWord,
        plays@[3].kind == PlayKind::LongestWordTopScore,
        forall|p: int| 0 <= p < 4 ==> play_ok(values@, hand, orig, #[trigger] plays@[p]),
        forall|p: int| 0 <= p < 4 ==> plays@[0].remaining.score <= (#[trigger] plays@[
            p]).remaining.score,
        forall|p: int| 0 <= p < 4 ==> plays@[1].words@.len() >= (#[trigger] plays@[p]).words@.len(),
        forall|p: int| 0 <= p < 4 ==> max_len(plays@[2].words@) >= max_len(
            (#[trigger] plays@[p]).words@,
        ),
        forall|p: int| 0 <= p < 4 ==> max_len(plays@[3].words@) >= max_len(
            (#[trigger] plays@[p]).words@,
        ) && (max_len((#[trigger] plays@[p]).words@) == max_len(plays@[3].words@) ==> plays@[
            3].remaining.score <= plays@[p].remaining.score),
        collector@.len() == 1 ==> forall|p: int| 0 <= p < 4 ==> play_same(
            #[trigger] plays@[p],
            plays@[0],
        ),
{
        let b0 = pick_top_score(collector);
        let b1 = pick_most_words(collector);
        let b2 = pick_longest(collector);
        let b3 = pick_longest_top(collector);
        proof {
            // each entry's word scores sum to at most the hand total, so the
            // plays can be built without overflow
            assert forall|j: int| 0 <= j < collector@.len() implies 0 <= ssum(
                (#[trigger] collector@[j]).words@,
            ) && ssum(collector@[j].words@) + collector@[j].leftover.score == weight(
                values@,
                hand,
            ) by {
                let co = collector@[j];
                lemma_ssum_nonneg(co.words@);
                lemma_ssum_is_mw(values@, co.words@);
                lemma_weight_is_mw(values@, co.leftover.cards@);
                lemma_weight_is_mw(values@, hand);
                lemma_mw_add(values@, msum(co.words@), co.leftover.cards@.to_multiset());
            }
            lemma_weight_bounds(values@, hand);
        }
        let mut plays: Vec<Play> = Vec::new();
        plays.push(Play::new(PlayKind::TopScore, &collector[b0].words, &collector[b0].leftover));
        plays.push(Play::new(PlayKind::MostWords, &collector[b1].words, &collector[b1].leftover));
        plays.push(Play::new(PlayKind::LongestWord, &collector[b2].words, &collector[b2].leftover));
        plays.push(
            Play::new(PlayKind::LongestWordTopScore, &collector[b3].words, &collector[b3].leftover),
        );
        proof {
            assert(plays@.len() == 4);
            let co0 = collector@[b0 as int];
            let co1 = collector@[b1 as int];
            let co2 = collector@[b2 as int];
            let co3 = collector@[b3 as int];
            lemma_play_from_combo(values@, hand, orig, co0, plays@[0]);
            lemma_play_from_combo(values@, hand, orig, co1, plays@[1]);
            lemma_play_from_combo(values@, hand, orig, co2, plays@[2]);
            lemma_play_from_combo(values@, hand, orig, co3, plays@[3]);
            assert forall|p: int| 0 <= p < 4 implies {
                &&& plays@[0].remaining.score <= (#[trigger] plays@[p]).remaining.score
                &&& plays@[1].words@.len() >= plays@[p].words@.len()
                &&& max_len(plays@[2].words@) >= max_len(plays@[p].words@)
                &&& max_len(plays@[3].words@) >= max_len(plays@[p].words@)
                &&& (max_len(plays@[p].words@) == max_len(plays@[3].words@) ==> plays@[
                    3].remaining.score <= plays@[p].remaining.score)
            } by {
                if p == 0 {
                    assert(co0.leftover.score <= collector@[b0 as int].leftover.score);
                } else if p == 1 {
                    assert(co0.leftover.score <= collector@[b1 as int].leftover.score);
                } else if p == 2 {
                    assert(co0.leftover.score <= collector@[b2 as int].leftover.score);
                } else {
                    assert(co0.leftover.score <= collector@[b3 as int].leftover.score);
                }
            }
            if collector@.len() == 1 {
                assert(b0 == 0 && b1 == 0 && b2 == 0 && b3 == 0);
                assert forall|p: int| 0 <= p < 4 implies play_same(
                    #[trigger] plays@[p],
                    plays@[0],
                ) by {
                    let co = collector@[0];
                    assert forall|k: int|
                        0 <= k < plays@[p].words@.len() implies cw_matches(
                        #[trigger] plays@[p].words@[k],
                        plays@[0].words@[k],
                    ) by {
                        assert(cw_matches(plays@[p].words@[k], co.words@[k]));
                        assert(cw_matches(plays@[0].words@[k], co.words@[k]));
                    }
                    assert(cw_matches(plays@[p].remaining, plays@[0].remaining));
                    assert(plays@[p].score == plays@[0].score);
                }
            }
        }
        plays
}

/// Prefix growth is transitive across nested composer calls.
proof fn lemma_prefix_trans_combo(b: Seq<Combo>, c: Seq<Combo>, a: Seq<Combo>)
    requires
        a.is_prefix_of(b),
        b.is_prefix_of(c),
    ensures
        a.is_prefix_of(c),
{
    assert(a == b.subrange(0, a.len() as int));
    assert(b == c.subrange(0, b.len() as int));
    assert forall|j: int| 0 <= j < a.len() implies a[j] == c.subrange(0, a.len() as int)[j] by {
        assert(a[j] == b[j]);
        assert(b[j] == c[j]);
    }
    assert(a =~= c.subrange(0, a.len() as int));
}

} // verus!
