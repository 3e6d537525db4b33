//! The dictionary trie.  Each node has up to 31 children, one per tile
//! symbol; a terminal node stores the score of the path that first marked it.
//! Inserting a word registers every digraph encoding of it as a path.

use vstd::prelude::*;
use crate::tiles::{
    valid_sym, is_letter, sym_idx, spec_digraph, all_valid, all_letters, weight, is_encoding_of,
    enc_count, sym_index, digraph_of, lemma_weight_bounds, lemma_encoding_props,
};

verus! {

/// One trie node: 31 child slots and an optional terminal score.
pub(crate) struct Node {
    pub(crate) children: Vec<Option<Box<Node>>>,
    pub(crate) terminal: Option<u64>,
}

/// The node reached from `n` by walking the symbols of `key`, if every edge
/// on the way exists.
pub(crate) open spec fn node_at(n: Node, key: Seq<char>) -> Option<Node>
    decreases key.len(),
{
    if key.len() == 0 {
        Some(n)
    } else {
        let i = sym_idx(key[0]);
        if 0 <= i < n.children@.len() && n.children@[i] is Some {
            node_at(*n.children@[i]->0, key.skip(1))
        } else {
            None
        }
    }
}

/// The terminal score stored at the end of `key`, if `key` is a stored path
/// ending in a terminal node.
pub(crate) open spec fn node_word(n: Node, key: Seq<char>) -> Option<u64> {
    match node_at(n, key) {
        Some(m) => m.terminal,
        None => None,
    }
}

/// Every node reachable from `n` has exactly 31 child slots.
pub(crate) open spec fn node_ok(n: Node) -> bool {
    forall|k: Seq<char>| (#[trigger] node_at(n, k)) is Some ==> node_at(n, k)->0.children@.len()
        == 31
}

/// The answer `contains` gives for a key.
#[allow(non_camel_case_types)]
#[derive(Debug, PartialEq, Eq)]
pub enum KeyState {
    /// The key is a proper prefix of a stored path, not itself stored.
    PREFIX,
    /// The key is a stored word; the payload is its score.
    STRING(u64),
    /// The key is neither a stored word nor a prefix of one.
    NEITHER,
}

/// A dictionary of tile-symbol paths with per-path scores.
pub struct TrieSet {
    root: Node,
    values: Vec<u8>,
    n: usize,
    word_set: Ghost<Set<Seq<char>>>,
}

impl TrieSet {
    /// The 31-entry value table the trie was built with.
    pub closed spec fn table(self) -> Seq<u8> {
        self.values@
    }

    /// The set of stored paths (one per digraph encoding of each inserted
    /// word).
    pub closed spec fn words(self) -> Set<Seq<char>> {
        self.word_set@
    }

    /// `k` walks edges that all exist (it is a stored word or a prefix of
    /// one).
    pub closed spec fn is_path(self, k: Seq<char>) -> bool {
        node_at(self.root, k) is Some
    }

    pub closed spec fn wf(self) -> bool {
        &&& self.values@.len() == 31
        &&& node_ok(self.root)
        &&& forall|k: Seq<char>|
            #![trigger self.word_set@.contains(k)]
            #![trigger node_word(self.root, k)]
            self.word_set@.contains(k) <==> node_word(self.root, k) is Some
        &&& forall|k: Seq<char>|
            #![trigger self.word_set@.contains(k)]
            #![trigger node_word(self.root, k)]
            self.word_set@.contains(k) ==> node_word(self.root, k) == Some(
                weight(self.values@, k) as u64,
            ) && 0 <= weight(self.values@, k) <= u64::MAX && all_valid(k)
        &&& self.word_set@.finite()
        &&& self.n == self.word_set@.len()
    }
}

/// A node with 31 empty child slots and no terminal mark.
fn empty_node() -> (n: Node)
    ensures
        n.children@.len() == 31,
        forall|i: int| 0 <= i < 31 ==> n.children@[i] is None,
        n.terminal is None,
{
    let mut children: Vec<Option<Box<Node>>> = Vec::new();
    let mut i: usize = 0;
    while i < 31
        invariant
            i <= 31,
            children@.len() == i,
            forall|j: int| 0 <= j < i ==> children@[j] is None,
        decreases 31 - i,
    {
        children.push(None);
        i += 1;
    }
    Node { children, terminal: None }
}

/// From a node with no children and no terminal mark, the only path is the
/// empty one and no word is stored.
proof fn lemma_fresh_node(n: Node)
    requires
        n.children@.len() == 31,
        forall|i: int| 0 <= i < 31 ==> n.children@[i] is None,
        n.terminal is None,
    ensures
        node_ok(n),
        forall|k: Seq<char>| #[trigger] node_at(n, k) == (if k.len() == 0 {
            Some(n)
        } else {
            None::<Node>
        }),
        forall|k: Seq<char>| #[trigger] node_word(n, k) is None,
{
    assert forall|k: Seq<char>| #[trigger] node_at(n, k) == (if k.len() == 0 {
        Some(n)
    } else {
        None::<Node>
    }) by {
        if k.len() > 0 {
            let i = sym_idx(k[0]);
            if 0 <= i < 31 {
                assert(n.children@[i] is None);
            }
        }
    }
}

/// Walking one symbol, then the rest of a key, is walking the whole key.
proof fn lemma_node_at_step(n: Node, k: Seq<char>)
    requires
        k.len() > 0,
    ensures
        node_at(n, k) == ({
            let i = sym_idx(k[0]);
            if 0 <= i < n.children@.len() && n.children@[i] is Some {
                node_at(*n.children@[i]->0, k.skip(1))
            } else {
                None::<Node>
            }
        }),
{
}

/// Walking `k1` and then `k2` is walking `k1 + k2`.
proof fn lemma_node_at_concat(n: Node, k1: Seq<char>, k2: Seq<char>)
    ensures
        node_at(n, k1 + k2) == (match node_at(n, k1) {
            Some(m) => node_at(m, k2),
            None => None::<Node>,
        }),
    decreases k1.len(),
{
    if k1.len() == 0 {
        assert(k1 + k2 =~= k2);
    } else {
        let k = k1 + k2;
        assert(k[0] == k1[0]);
        assert(k.skip(1) =~= k1.skip(1) + k2);
        let i = sym_idx(k1[0]);
        if 0 <= i < n.children@.len() && n.children@[i] is Some {
            lemma_node_at_concat(*n.children@[i]->0, k1.skip(1), k2);
        }
    }
}

/// Every node reachable from a well-formed node is itself well-formed.
proof fn lemma_sub_ok(n: Node, k: Seq<char>)
    requires
        node_ok(n),
        node_at(n, k) is Some,
    ensures
        node_ok(node_at(n, k)->0),
{
    let m = node_at(n, k)->0;
    assert forall|k2: Seq<char>| (#[trigger] node_at(m, k2)) is Some implies node_at(
        m,
        k2,
    )->0.children@.len() == 31 by {
        lemma_node_at_concat(n, k, k2);
        assert(node_at(n, k + k2) == node_at(m, k2));
    }
}

/// A prefix of a stored path is itself a path.
pub(crate) proof fn lemma_path_prefix(n: Node, k: Seq<char>, p: Seq<char>)
    requires
        node_at(n, k) is Some,
        p.is_prefix_of(k),
    ensures
        node_at(n, p) is Some,
{
    assert(k =~= p + k.skip(p.len() as int));
    lemma_node_at_concat(n, p, k.skip(p.len() as int));
}

impl TrieSet {
    /// An empty dictionary over the given 31-entry value table.
    pub fn new(values: Vec<u8>) -> (t: TrieSet)
        requires
            values@.len() == 31,
        ensures
            t.wf(),
            t.table() == values@,
            t.words() == Set::<Seq<char>>::empty(),
    {
        let root = empty_node();
        proof {
            lemma_fresh_node(root);
        }
        TrieSet { root, values, n: 0, word_set: Ghost(Set::empty()) }
    }

    /// How many stored paths the dictionary holds.
    pub fn size(&self) -> (n: usize)
        requires
            self.wf(),
        ensures
            n == self.words().len(),
    {
        self.n
    }

    /// The value table the trie was built with.
    pub fn values_ref(&self) -> (v: &Vec<u8>)
        ensures
            v@ == self.table(),
    {
        &self.values
    }

    /// A well-formed trie carries one value per symbol of the alphabet.
    pub proof fn lemma_wf_table(self)
        requires
            self.wf(),
        ensures
            self.table().len() == 31,
    {
    }

    /// Every stored word is made of valid symbols and is scored within the
    /// table's reach.
    pub proof fn lemma_word_valid(self, e: Seq<char>)
        requires
            self.wf(),
            self.words().contains(e),
        ensures
            all_valid(e),
            0 <= weight(self.table(), e) <= u64::MAX,
    {
    }

    /// A prefix of a stored word is a path: the trie is prefix-closed.
    pub proof fn lemma_word_prefix_is_path(self, e: Seq<char>, p: Seq<char>)
        requires
            self.wf(),
            self.words().contains(e),
            p.is_prefix_of(e),
        ensures
            self.is_path(p),
    {
        assert(node_word(self.root, e) is Some);
        lemma_path_prefix(self.root, e, p);
    }

    /// Adds a plain-letter word: registers every one of its digraph
    /// encodings as a stored path, each scored as the sum of the values of
    /// the symbols along that path; paths already stored are left as they
    /// are.
    pub fn add_perms(&mut self, key: String)
        requires
            old(self).wf(),
            all_letters(key@),
            old(self).words().len() + enc_count(key@) <= usize::MAX,
            255 * key@.len() <= u64::MAX,
        ensures
            final(self).wf(),
            final(self).table() == old(self).table(),
            forall|e: Seq<char>| final(self).words().contains(e) <==> old(self).words().contains(e)
                || is_encoding_of(e, key@),
            forall|k: Seq<char>| final(self).is_path(k) <==> old(self).is_path(k) || exists|
                e: Seq<char>,
            |
                #[trigger] is_encoding_of(e, key@) && k.is_prefix_of(e),
    {
        let ghost w = key@;
        let s = key.as_str();
        let n_chars = s.unicode_len();
        let mut chars: Vec<char> = Vec::new();
        let mut i: usize = 0;
        while i < n_chars
            invariant
                s@ == w,
                n_chars == w.len(),
                i <= w.len(),
                chars@ =~= w.take(i as int),
            decreases n_chars - i,
        {
            chars.push(s.get_char(i));
            proof {
                assert(w.take(i as int).push(w[i as int]) =~= w.take(i as int + 1));
            }
            i += 1;
        }
        proof {
            assert(w.take(w.len() as int) =~= w);
            assert(chars@ == w);
        }
        let encl: Vec<Vec<char>> = encodings_list(&chars, 0);
        proof {
            assert(chars@.skip(0) =~= chars@);
        }
        let mut j: usize = 0;
        while j < encl.len()
            invariant
                j <= encl@.len(),
                self.wf(),
                self.values@ == old(self).values@,
                old(self).wf(),
                w == key@,
                all_letters(w),
                255 * w.len() <= u64::MAX,
                old(self).words().len() + enc_count(w) <= usize::MAX,
                encl@.len() == enc_count(w),
                forall|jj: int| 0 <= jj < encl@.len() ==> is_encoding_of(#[trigger] encl@[jj]@, w),
                forall|e: Seq<char>| #[trigger] is_encoding_of(e, w) ==> exists|jj: int|
                    0 <= jj < encl@.len() && #[trigger] encl@[jj]@ == e,
                forall|e: Seq<char>| self.words().contains(e) <==> old(self).words().contains(e)
                    || exists|jj: int| 0 <= jj < j && #[trigger] encl@[jj]@ == e,
                forall|k: Seq<char>| self.is_path(k) <==> old(self).is_path(k) || exists|jj: int|
                    0 <= jj < j && k.is_prefix_of(#[trigger] encl@[jj]@),
                self.words().len() <= old(self).words().len() + j,
            decreases encl@.len() - j,
        {
            let ghost target = encl@[j as int]@;
            let ghost mid = *self;
            proof {
                assert(is_encoding_of(target, w));
                lemma_encoding_props(target, w);
                lemma_weight_bounds(self.values@, target);
                assert(weight(self.values@, target) <= 255 * target.len());
                assert(255 * target.len() <= 255 * w.len());
                assert(encl@[j as int]@.skip(0) =~= target);
            }
            let added = insert_at(&mut self.root, &self.values, &encl[j], 0, 0);
            proof {
                self.word_set@ = mid.word_set@.insert(target);
            }
            self.n = self.n + added;
            proof {
                // the stored-word set is exactly the old one plus the target
                assert forall|k: Seq<char>| #[trigger] self.word_set@.contains(k) <==> node_word(
                    self.root,
                    k,
                ) is Some by {
                    if k != target {
                        assert(node_word(self.root, k) == node_word(mid.root, k));
                    }
                }
                assert forall|k: Seq<char>| #[trigger] self.word_set@.contains(k) implies node_word(
                    self.root,
                    k,
                ) == Some(weight(self.values@, k) as u64) && 0 <= weight(self.values@, k)
                    <= u64::MAX && all_valid(k) by {
                    if k == target {
                        assert(node_word(self.root, k) == Some(
                            (0 + weight(self.values@, target)) as u64,
                        ));
                    } else {
                        assert(node_word(self.root, k) == node_word(mid.root, k));
                        assert(mid.word_set@.contains(k));
                    }
                }
                if added == 1 {
                    assert(node_word(mid.root, target) is None);
                    assert(!mid.word_set@.contains(target));
                    assert(self.word_set@.len() == mid.word_set@.len() + 1);
                } else {
                    assert(node_word(mid.root, target) is Some);
                    assert(mid.word_set@.contains(target));
                    assert(self.word_set@ =~= mid.word_set@);
                }
                // evolution of words and paths
                assert forall|e: Seq<char>| self.words().contains(e) <==> old(
                    self,
                ).words().contains(e) || exists|jj: int| 0 <= jj < j + 1 && #[trigger] encl@[jj]@
                    == e by {
                    if self.words().contains(e) {
                        if e == target {
                            assert(encl@[j as int]@ == e);
                        }
                    }
                    if exists|jj: int| 0 <= jj < j + 1 && #[trigger] encl@[jj]@ == e {
                        let jj = choose|jj: int| 0 <= jj < j + 1 && #[trigger] encl@[jj]@ == e;
                        if jj == j {
                            assert(e == target);
                            assert(self.word_set@.contains(e));
                        }
                    }
                }
                assert forall|k: Seq<char>| self.is_path(k) <==> old(self).is_path(k) || exists|
                    jj: int,
                |
                    0 <= jj < j + 1 && k.is_prefix_of(#[trigger] encl@[jj]@) by {
                    assert(node_at(self.root, k) is Some <==> node_at(mid.root, k) is Some
                        || k.is_prefix_of(target));
                    if k.is_prefix_of(target) {
                        assert(k.is_prefix_of(encl@[j as int]@));
                    }
                    if exists|jj: int| 0 <= jj < j + 1 && k.is_prefix_of(#[trigger] encl@[jj]@) {
                        let jj = choose|jj: int| 0 <= jj < j + 1 && k.is_prefix_of(
                            #[trigger] encl@[jj]@,
                        );
                        if jj == j {
                            assert(k.is_prefix_of(target));
                        }
                    }
                }
            }
            j += 1;
        }
        proof {
            // list membership is exactly being an encoding
            assert forall|e: Seq<char>| final(self).words().contains(e) <==> old(
                self,
            ).words().contains(e) || is_encoding_of(e, key@) by {
                if exists|jj: int| 0 <= jj < encl@.len() && #[trigger] encl@[jj]@ == e {
                    let jj = choose|jj: int| 0 <= jj < encl@.len() && #[trigger] encl@[jj]@ == e;
                    assert(is_encoding_of(encl@[jj]@, w));
                }
            }
            assert forall|k: Seq<char>| final(self).is_path(k) <==> old(self).is_path(k) || exists|
                e: Seq<char>,
            |
                #[trigger] is_encoding_of(e, key@) && k.is_prefix_of(e) by {
                if exists|jj: int| 0 <= jj < encl@.len() && k.is_prefix_of(#[trigger] encl@[jj]@) {
                    let jj = choose|jj: int| 0 <= jj < encl@.len() && k.is_prefix_of(
                        #[trigger] encl@[jj]@,
                    );
                    assert(is_encoding_of(encl@[jj]@, key@) && k.is_prefix_of(encl@[jj]@));
                }
                if exists|e: Seq<char>| #[trigger] is_encoding_of(e, key@) && k.is_prefix_of(e) {
                    let e = choose|e: Seq<char>|
                        #[trigger] is_encoding_of(e, key@) && k.is_prefix_of(e);
                    let jj = choose|jj: int| 0 <= jj < encl@.len() && #[trigger] encl@[jj]@ == e;
                    assert(k.is_prefix_of(encl@[jj]@));
                }
            }
        }
    }

    /// Does the dictionary hold the given key, as a stored word, as a proper
    /// prefix of one, or not at all?
    pub fn contains(&self, key: &Vec<char>) -> (r: KeyState)
        requires
            self.wf(),
            key@.len() >= 1,
            all_valid(key@),
        ensures
            (r is NEITHER) <==> !self.is_path(key@),
            (r is PREFIX) <==> (self.is_path(key@) && !self.words().contains(key@)),
            (r is STRING) <==> self.words().contains(key@),
            r matches KeyState::STRING(s) ==> s == weight(self.table(), key@),
    {
        proof {
            assert(self.word_set@.contains(key@) <==> node_word(self.root, key@) is Some);
            assert(key@.skip(0) =~= key@);
        }
        match lookup(&self.root, key, 0) {
            None => KeyState::NEITHER,
            Some(m) => {
                match m.terminal {
                    Some(s) => KeyState::STRING(s),
                    None => KeyState::PREFIX,
                }
            },
        }
    }
}

/// A nonempty sequence is a prefix exactly when the heads agree and the tail
/// is a prefix of the tail.
proof fn lemma_prefix_cons(k: Seq<char>, t: Seq<char>)
    requires
        k.len() > 0,
        t.len() > 0,
    ensures
        k.is_prefix_of(t) <==> (k[0] == t[0] && k.skip(1).is_prefix_of(t.skip(1))),
{
    let n = k.len() as int;
    if k.is_prefix_of(t) {
        assert(k == t.subrange(0, n));
        assert forall|j: int| 0 <= j < n - 1 implies k.skip(1)[j] == t.skip(1).subrange(
            0,
            n - 1,
        )[j] by {
            assert(k.skip(1)[j] == k[j + 1]);
            assert(t.skip(1).subrange(0, n - 1)[j] == t[j + 1]);
        }
        assert(k.skip(1) =~= t.skip(1).subrange(0, n - 1));
    }
    if k[0] == t[0] && k.skip(1).is_prefix_of(t.skip(1)) {
        assert(k.skip(1) == t.skip(1).subrange(0, n - 1));
        assert forall|j: int| 0 <= j < n implies k[j] == t.subrange(0, n)[j] by {
            if j > 0 {
                assert(k[j] == k.skip(1)[j - 1]);
                assert(t.skip(1).subrange(0, n - 1)[j - 1] == t[j]);
            }
        }
        assert(k =~= t.subrange(0, n));
    }
}

/// Registers the tail of `path` from `pos` on as a stored path below `node`,
/// marking its end terminal with the accumulated score; returns how many
/// nodes were marked terminal for the first time (0 or 1).
fn insert_at(node: &mut Node, values: &Vec<u8>, path: &Vec<char>, pos: usize, acc: u64) -> (added:
    usize)
    requires
        node_ok(*old(node)),
        values@.len() == 31,
        pos <= path@.len(),
        all_valid(path@),
        acc + weight(values@, path@.skip(pos as int)) <= u64::MAX,
        forall|k: Seq<char>| (#[trigger] node_word(*old(node), k)) is Some ==> node_word(
            *old(node),
            k,
        )->0 == acc + weight(values@, k),
    ensures
        node_ok(*final(node)),
        node_word(*final(node), path@.skip(pos as int)) == Some(
            (acc + weight(values@, path@.skip(pos as int))) as u64,
        ),
        forall|k: Seq<char>| k != path@.skip(pos as int) ==> #[trigger] node_word(
            *final(node),
            k,
        ) == node_word(*old(node), k),
        forall|k: Seq<char>| (#[trigger] node_at(*final(node), k)) is Some <==> node_at(
            *old(node),
            k,
        ) is Some || k.is_prefix_of(path@.skip(pos as int)),
        added == (if node_word(*old(node), path@.skip(pos as int)) is None {
            1usize
        } else {
            0usize
        }),
    decreases path@.len() - pos,
{
    let ghost target = path@.skip(pos as int);
    if pos == path.len() {
        proof {
            assert(target =~= Seq::<char>::empty());
        }
        let already = node.terminal.is_some();
        if !already {
            node.terminal = Some(acc);
        }
        proof {
            assert forall|k: Seq<char>| k.len() > 0 implies #[trigger] node_at(*node, k)
                == node_at(*old(node), k) by {
                lemma_node_at_step(*node, k);
                lemma_node_at_step(*old(node), k);
            }
            assert forall|k: Seq<char>| k != target implies #[trigger] node_word(*node, k)
                == node_word(*old(node), k) by {
                if k.len() == 0 {
                    assert(k =~= target);
                }
            }
            assert forall|k: Seq<char>| (#[trigger] node_at(*node, k)) is Some <==> node_at(
                *old(node),
                k,
            ) is Some || k.is_prefix_of(target) by {
                if k.len() == 0 {
                    assert(node_at(*node, k) == Some(*node));
                }
            }
            assert(node_word(*node, target) == node.terminal);
        }
        if already {
            0
        } else {
            1
        }
    } else {
        let ghost c = path@[pos as int];
        proof {
            assert(target.len() > 0);
            assert(target[0] == c);
            assert(target.skip(1) =~= path@.skip(pos as int + 1));
            assert(node_at(*old(node), Seq::<char>::empty()) == Some(*old(node)));
            assert(valid_sym(c));
        }
        let i = sym_index(path[pos]);
        let slot: Option<Box<Node>> = node.children.remove(i);
        let ghost existed = slot is Some;
        let mut child: Box<Node> = match slot {
            Some(cb) => cb,
            None => Box::new(empty_node()),
        };
        let ghost child_pre = *child;
        proof {
            assert(seq![c].skip(1) =~= Seq::<char>::empty());
            if existed {
                lemma_node_at_step(*old(node), seq![c]);
                assert(node_at(*old(node), seq![c]) == Some(child_pre));
                lemma_sub_ok(*old(node), seq![c]);
            } else {
                lemma_fresh_node(child_pre);
            }
            // the subtree below the child keeps scores consistent with the
            // deeper accumulated value
            assert forall|k: Seq<char>| (#[trigger] node_word(child_pre, k)) is Some implies
                node_word(child_pre, k)->0 == (acc + values@[i as int]) + weight(values@, k) by {
                if existed {
                    lemma_node_at_concat(*old(node), seq![c], k);
                    assert(node_at(*old(node), seq![c] + k) == node_at(child_pre, k));
                    assert(node_word(*old(node), seq![c] + k) == node_word(child_pre, k));
                    assert((seq![c] + k)[0] == c);
                    assert((seq![c] + k).skip(1) =~= k);
                    assert(weight(values@, seq![c] + k) == values@[i as int] + weight(values@, k));
                }
            }
            // the next accumulated score still fits
            assert(weight(values@, target) == values@[i as int] + weight(values@, target.skip(1)));
            assert(all_valid(target.skip(1)));
            lemma_weight_bounds(values@, target.skip(1));
        }
        let acc2 = acc + (values[i] as u64);
        let added = insert_at(&mut *child, values, path, pos + 1, acc2);
        node.children.insert(i, Some(child));
        proof {
            let nf = *node;
            let child_post = *node.children@[i as int]->0;
            assert(nf.children@ =~= old(node).children@.update(i as int, Some(child)));
            assert(child_post == *child);
            let tgt2 = path@.skip(pos as int + 1);
            // relate walks from the updated node to walks from the new child
            // and to walks from the old node
            assert forall|k: Seq<char>| k.len() > 0 implies (#[trigger] node_at(nf, k)) == (
            if sym_idx(k[0]) == i {
                node_at(child_post, k.skip(1))
            } else {
                node_at(*old(node), k)
            }) by {
                lemma_node_at_step(nf, k);
                lemma_node_at_step(*old(node), k);
                let i0 = sym_idx(k[0]);
                if i0 != i && 0 <= i0 < 31 {
                    assert(nf.children@[i0] == old(node).children@[i0]);
                }
            }
            assert forall|k: Seq<char>| k.len() > 0 && sym_idx(k[0]) == i implies (#[trigger]
            node_at(*old(node), k)) == (if existed {
                node_at(child_pre, k.skip(1))
            } else {
                None::<Node>
            }) by {
                lemma_node_at_step(*old(node), k);
            }
            // heads with the same table index are the same symbol
            assert forall|k: Seq<char>| k.len() > 0 && sym_idx(k[0]) == i implies k[0] == c by {
                assert(k[0] as int == c as int);
            }
            // the target word is now stored with the full accumulated score
            assert(node_at(nf, target) == node_at(child_post, tgt2));
            assert(node_word(nf, target) == node_word(child_post, tgt2));
            assert(acc2 + weight(values@, tgt2) == acc + weight(values@, target));
            // every other key keeps its old state
            assert forall|k: Seq<char>| k != target implies #[trigger] node_word(nf, k)
                == node_word(*old(node), k) by {
                if k.len() == 0 {
                    assert(node_at(nf, k) == Some(nf));
                    assert(node_at(*old(node), k) == Some(*old(node)));
                } else if sym_idx(k[0]) != i {
                    assert(node_at(nf, k) == node_at(*old(node), k));
                }
                if k.len() > 0 && sym_idx(k[0]) == i {
                    assert(k == seq![c] + k.skip(1)) by {
                        assert(k =~= seq![c] + k.skip(1));
                    }
                    assert(k.skip(1) != tgt2) by {
                        if k.skip(1) == tgt2 {
                            assert(k =~= target);
                        }
                    }
                    assert(node_word(nf, k) == node_word(child_post, k.skip(1)));
                    assert(node_word(child_post, k.skip(1)) == node_word(child_pre, k.skip(1)));
                    if existed {
                        assert(node_word(*old(node), k) == node_word(child_pre, k.skip(1)));
                    } else {
                        assert(node_word(child_pre, k.skip(1)) is None);
                        assert(node_at(*old(node), k) is None);
                    }
                }
            }
            // a key is a path now exactly when it was one or lies on the way
            // to the target
            assert forall|k: Seq<char>| (#[trigger] node_at(nf, k)) is Some <==> node_at(
                *old(node),
                k,
            ) is Some || k.is_prefix_of(target) by {
                if k.len() == 0 {
                    assert(node_at(nf, k) == Some(nf));
                    assert(k.is_prefix_of(target));
                } else {
                    lemma_prefix_cons(k, target);
                    if sym_idx(k[0]) == i {
                        assert(node_at(nf, k) == node_at(child_post, k.skip(1)));
                        assert(node_at(child_post, k.skip(1)) is Some <==> node_at(
                            child_pre,
                            k.skip(1),
                        ) is Some || k.skip(1).is_prefix_of(tgt2));
                        if !existed {
                            assert(node_at(*old(node), k) is None);
                            if node_at(child_pre, k.skip(1)) is Some {
                                assert(k.skip(1).len() == 0);
                                assert(k.skip(1).is_prefix_of(tgt2));
                            }
                        }
                    } else {
                        if k.is_prefix_of(target) {
                            assert(k[0] == target[0]);
                        }
                    }
                }
            }
            // the count of first-time terminals carried up
            assert(node_word(*old(node), target) == (if existed {
                node_word(child_pre, tgt2)
            } else {
                None::<u64>
            }));
            // the updated node is still well-formed
            assert forall|k: Seq<char>| (#[trigger] node_at(nf, k)) is Some implies node_at(
                nf,
                k,
            )->0.children@.len() == 31 by {
                if k.len() == 0 {
                    assert(node_at(nf, k) == Some(nf));
                } else if sym_idx(k[0]) == i {
                    assert(node_at(nf, k) == node_at(child_post, k.skip(1)));
                } else {
                    assert(node_at(nf, k) == node_at(*old(node), k));
                }
            }
        }
        added
    }
}

/// A copy of `t` with `c` put in front.
fn prepend(c: char, t: &Vec<char>) -> (r: Vec<char>)
    ensures
        r@ == seq![c] + t@,
{
    let mut r: Vec<char> = Vec::new();
    r.push(c);
    let mut j: usize = 0;
    while j < t.len()
        invariant
            j <= t@.len(),
            r@ =~= seq![c] + t@.take(j as int),
        decreases t@.len() - j,
    {
        r.push(t[j]);
        proof {
            assert(t@.take(j as int).push(t@[j as int]) =~= t@.take(j as int + 1));
            assert(r@ =~= seq![c] + t@.take(j as int + 1));
        }
        j += 1;
    }
    proof {
        assert(t@.take(t@.len() as int) =~= t@);
    }
    r
}

/// Every way to lay out `word` from position `pos` on with single-letter and
/// digraph tiles, one list entry per encoding.
fn encodings_list(word: &Vec<char>, pos: usize) -> (r: Vec<Vec<char>>)
    requires
        pos <= word@.len(),
        all_letters(word@),
    ensures
        r@.len() == enc_count(word@.skip(pos as int)),
        forall|j: int| 0 <= j < r@.len() ==> is_encoding_of(
            #[trigger] r@[j]@,
            word@.skip(pos as int),
        ),
        forall|e: Seq<char>| #[trigger] is_encoding_of(e, word@.skip(pos as int)) ==> exists|j: int|
            0 <= j < r@.len() && #[trigger] r@[j]@ == e,
    decreases word@.len() - pos,
{
    let ghost w = word@.skip(pos as int);
    if pos == word.len() {
        proof {
            assert(w =~= Seq::<char>::empty());
        }
        let mut r: Vec<Vec<char>> = Vec::new();
        let empty: Vec<char> = Vec::new();
        r.push(empty);
        proof {
            assert(r@.len() == 1);
            assert(is_encoding_of(r@[0]@, w));
            assert forall|e: Seq<char>| #[trigger] is_encoding_of(e, w) implies exists|j: int| 0
                <= j < r@.len() && #[trigger] r@[j]@ == e by {
                assert(e.len() == 0 ==> e =~= r@[0]@);
            }
        }
        r
    } else {
        proof {
            assert(w.len() > 0);
            assert(w[0] == word@[pos as int]);
            assert(w.skip(1) =~= word@.skip(pos as int + 1));
            if pos + 1 < word@.len() {
                assert(w[1] == word@[pos as int + 1]);
                assert(w.skip(2) =~= word@.skip(pos as int + 2));
            }
            assert(is_letter(w[0]));
        }
        let c = word[pos];
        let tails = encodings_list(word, pos + 1);
        let mut r: Vec<Vec<char>> = Vec::new();
        let mut j: usize = 0;
        while j < tails.len()
            invariant
                j <= tails@.len(),
                r@.len() == j,
                forall|k: int| 0 <= k < j ==> #[trigger] r@[k]@ == seq![c] + tails@[k]@,
                c == word@[pos as int],
                pos < word@.len(),
                all_letters(word@),
                forall|k: int| 0 <= k < tails@.len() ==> is_encoding_of(
                    #[trigger] tails@[k]@,
                    word@.skip(pos as int + 1),
                ),
            decreases tails@.len() - j,
        {
            r.push(prepend(c, &tails[j]));
            j += 1;
        }
        let dig = if pos + 1 < word.len() {
            digraph_of(word[pos], word[pos + 1])
        } else {
            None
        };
        let ghost letters_len = r@.len();
        let ghost wd = if w.len() >= 2 {
            spec_digraph(w[0], w[1])
        } else {
            None
        };
        let ghost mut tails2_view: Seq<Vec<char>> = Seq::empty();
        match dig {
            None => {},
            Some(d) => {
                let tails2 = encodings_list(word, pos + 2);
                proof {
                    tails2_view = tails2@;
                }
                let mut j2: usize = 0;
                while j2 < tails2.len()
                    invariant
                        j2 <= tails2@.len(),
                        r@.len() == letters_len + j2,
                        forall|k: int| 0 <= k < j2 ==> #[trigger] r@[letters_len + k]@ == seq![d]
                            + tails2@[k]@,
                        forall|k: int| 0 <= k < letters_len ==> #[trigger] r@[k]@ == seq![c]
                            + tails@[k]@,
                    decreases tails2@.len() - j2,
                {
                    r.push(prepend(d, &tails2[j2]));
                    j2 += 1;
                }
                proof {
                    assert(wd == Some(d));
                    assert(r@.len() == letters_len + tails2_view.len());
                    assert forall|k: int| 0 <= k < tails2_view.len() implies #[trigger] r@[letters_len
                        + k]@ == seq![wd->0] + tails2_view[k]@ by {}
                    assert(tails2_view.len() == enc_count(word@.skip(pos as int + 2)));
                    assert(forall|k: int| 0 <= k < tails2_view.len() ==> is_encoding_of(
                        #[trigger] tails2_view[k]@,
                        word@.skip(pos as int + 2),
                    ));
                    assert(forall|e: Seq<char>| #[trigger] is_encoding_of(
                        e,
                        word@.skip(pos as int + 2),
                    ) ==> exists|j3: int| 0 <= j3 < tails2_view.len() && #[trigger] tails2_view[j3]@
                        == e);
                }
            },
        }
        proof {
            assert(wd is Some ==> dig is Some);
            assert(dig is Some ==> wd is Some);
            // every entry is an encoding
            assert forall|j3: int| 0 <= j3 < r@.len() implies is_encoding_of(
                #[trigger] r@[j3]@,
                w,
            ) by {
                if j3 < letters_len {
                    let e = r@[j3]@;
                    assert(e == seq![c] + tails@[j3]@);
                    assert(e[0] == c);
                    assert(e.skip(1) =~= tails@[j3]@);
                    assert(is_encoding_of(tails@[j3]@, w.skip(1)));
                } else {
                    let k = j3 - letters_len;
                    assert(0 <= k < tails2_view.len());
                    assert(r@[letters_len + k]@ == seq![wd->0] + tails2_view[k]@);
                    let e = r@[j3]@;
                    let d = wd->0;
                    assert(e == seq![d] + tails2_view[k]@);
                    assert(e[0] == d);
                    assert(!is_letter(d));
                    assert(e.skip(1) =~= tails2_view[k]@);
                    assert(is_encoding_of(tails2_view[k]@, w.skip(2)));
                }
            }
            // every encoding is an entry
            assert forall|e: Seq<char>| #[trigger] is_encoding_of(e, w) implies exists|j3: int| 0
                <= j3 < r@.len() && #[trigger] r@[j3]@ == e by {
                assert(e.len() > 0);
                if is_letter(e[0]) {
                    assert(e[0] == c);
                    assert(is_encoding_of(e.skip(1), w.skip(1)));
                    let j3 = choose|j3: int| 0 <= j3 < tails@.len() && #[trigger] tails@[j3]@
                        == e.skip(1);
                    assert(r@[j3]@ == seq![c] + e.skip(1));
                    assert(seq![c] + e.skip(1) =~= e);
                } else {
                    assert(wd == Some(e[0]));
                    assert(is_encoding_of(e.skip(1), w.skip(2)));
                    let j3 = choose|j3: int| 0 <= j3 < tails2_view.len() && #[trigger]
                        tails2_view[j3]@ == e.skip(1);
                    assert(r@[letters_len + j3]@ == seq![e[0]] + e.skip(1));
                    assert(seq![e[0]] + e.skip(1) =~= e);
                }
            }
            // the count matches
            assert(r@.len() == enc_count(w));
        }
        r
    }
}

/// The size of a union of two finite sets with no common element is the sum
/// of the sizes.
proof fn lemma_len_disjoint_union(a: Set<Seq<char>>, b: Set<Seq<char>>)
    requires
        a.finite(),
        b.finite(),
        forall|x: Seq<char>| !(a.contains(x) && #[trigger] b.contains(x)),
    ensures
        a.union(b).finite(),
        a.union(b).len() == a.len() + b.len(),
    decreases b.len(),
{
    if b.len() == 0 {
        if !b.is_empty() {
            assert(b.contains(b.choose()));
        }
        assert(a.union(b) =~= a);
    } else {
        if b.is_empty() {
            assert(b =~= Set::empty());
        }
        let x = b.choose();
        assert(b.contains(x));
        let b2 = b.remove(x);
        lemma_len_disjoint_union(a, b2);
        assert(a.union(b) =~= a.union(b2).insert(x));
        assert(!a.union(b2).contains(x));
    }
}

/// The law that an insertion registers every encoding: after `add_perms` of
/// the word `w`, each digraph encoding `e` of `w` is a stored word, so
/// `contains` answers `STRING` on it, with the score `weight(table, e)` by
/// the contract of `contains`.
pub proof fn lemma_insertion_registers_encodings(
    pre: TrieSet,
    post: TrieSet,
    w: Seq<char>,
    e: Seq<char>,
)
    requires
        post.wf(),
        forall|x: Seq<char>|
            #![trigger post.words().contains(x)]
            #![trigger pre.words().contains(x)]
            #![trigger is_encoding_of(x, w)]
            post.words().contains(x) <==> pre.words().contains(x) || is_encoding_of(x, w),
        is_encoding_of(e, w),
    ensures
        post.words().contains(e),
        post.is_path(e),
{
    assert(e =~= e.subrange(0, e.len() as int));
    post.lemma_word_prefix_is_path(e, e);
}

/// The law that an insertion grows the size by exactly the number of
/// first-time stored paths: re-inserting a word whose encodings are all
/// already stored leaves the size unchanged.
pub proof fn lemma_insertion_size(pre: TrieSet, post: TrieSet, w: Seq<char>)
    requires
        pre.wf(),
        post.wf(),
        forall|x: Seq<char>|
            #![trigger post.words().contains(x)]
            #![trigger pre.words().contains(x)]
            #![trigger is_encoding_of(x, w)]
            post.words().contains(x) <==> pre.words().contains(x) || is_encoding_of(x, w),
    ensures
        post.words().len() == pre.words().len() + post.words().difference(pre.words()).len(),
        (forall|x: Seq<char>| #[trigger] is_encoding_of(x, w) ==> pre.words().contains(x))
            ==> post.words().len() == pre.words().len(),
{
    let d = post.words().difference(pre.words());
    assert(d.finite()) by {
        assert(d =~= post.words().difference(pre.words()));
    }
    assert forall|x: Seq<char>| post.words().contains(x) <==> pre.words().contains(x)
        || d.contains(x) by {
        assert(post.words().contains(x) <==> pre.words().contains(x) || is_encoding_of(x, w));
    }
    assert(post.words() =~= pre.words().union(d));
    lemma_len_disjoint_union(pre.words(), d);
    if forall|x: Seq<char>| #[trigger] is_encoding_of(x, w) ==> pre.words().contains(x) {
        assert forall|x: Seq<char>| post.words().contains(x) <==> pre.words().contains(x) by {
            if post.words().contains(x) && !pre.words().contains(x) {
                assert(is_encoding_of(x, w));
            }
        }
        assert(post.words() =~= pre.words());
    }
}

/// The node reached from `node` by the symbols of `key` from position `pos`
/// on, if the walk does not fall off the trie.
fn lookup<'a>(node: &'a Node, key: &Vec<char>, pos: usize) -> (r: Option<&'a Node>)
    requires
        node_ok(*node),
        pos <= key@.len(),
        all_valid(key@),
    ensures
        match r {
            Some(m) => node_at(*node, key@.skip(pos as int)) == Some(*m),
            None => node_at(*node, key@.skip(pos as int)) is None,
        },
    decreases key@.len() - pos,
{
    if pos == key.len() {
        proof {
            assert(key@.skip(pos as int) =~= Seq::<char>::empty());
        }
        Some(node)
    } else {
        proof {
            assert(node_at(*node, Seq::<char>::empty()) == Some(*node));
            assert(node.children@.len() == 31);
            assert(key@.skip(pos as int)[0] == key@[pos as int]);
            assert(key@.skip(pos as int).skip(1) =~= key@.skip(pos as int + 1));
        }
        let i = sym_index(key[pos]);
        match &node.children[i] {
            None => None,
            Some(b) => {
                proof {
                    lemma_sub_ok(*node, seq![key@[pos as int]]);
                    assert(node_at(*node, seq![key@[pos as int]]) == ({
                        let ii = sym_idx(key@[pos as int]);
                        if node.children@[ii] is Some {
                            node_at(*node.children@[ii]->0, seq![key@[pos as int]].skip(1))
                        } else {
                            None::<Node>
                        }
                    }));
                    assert(seq![key@[pos as int]].skip(1) =~= Seq::<char>::empty());
                }
                lookup(&**b, key, pos + 1)
            },
        }
    }
}

} // verus!
