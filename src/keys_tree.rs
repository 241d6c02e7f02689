//! The lookup oracle: a binary trie over the keys of all peers, most
//! significant bit first, that finds the keys closest to a target.
use vstd::prelude::*;

use crate::key::{key_xor, Key};
use crate::PeerId;

verus! {

/// Word `i` of a key, the most significant first.
pub open spec fn word(k: Key, i: int) -> u64 {
    if i == 0 {
        k.w0
    } else if i == 1 {
        k.w1
    } else if i == 2 {
        k.w2
    } else {
        k.w3
    }
}

/// Bit `pos` of a key, counting from the least significant (0) to the most
/// significant (255).
pub open spec fn key_bit(k: Key, pos: int) -> bool {
    (word(k, (255 - pos) / 64) >> ((pos % 64) as u64)) & 1 == 1
}

/// `a` and `b` have the same bits above bit `pos` (all bits for `pos == -1`).
pub open spec fn agree_above(a: Key, b: Key, pos: int) -> bool {
    let w = (255 - pos) / 64;
    &&& forall|i: int| 0 <= i < w && i < 4 ==> #[trigger] word(a, i) == word(b, i)
    &&& (w < 4 ==> (word(a, w) >> ((pos % 64) as u64)) >> 1u64 == (word(b, w) >> ((pos % 64) as u64)) >> 1u64)
}

proof fn lemma_word_step(x: u64, y: u64, s: u64)
    requires
        1 <= s < 64,
        (x >> s) >> 1u64 == (y >> s) >> 1u64,
        ((x >> s) & 1u64 == 1u64) == ((y >> s) & 1u64 == 1u64),
    ensures
        (x >> ((s - 1) as u64)) >> 1u64 == (y >> ((s - 1) as u64)) >> 1u64,
{
    assert((x >> s) >> 1u64 == (y >> s) >> 1u64 && ((x >> s) & 1u64 == 1u64) == ((y >> s) & 1u64 == 1u64) ==> x >> s == y >> s) by (bit_vector);
    assert(1 <= s < 64 ==> (x >> ((s - 1) as u64)) >> 1u64 == x >> s) by (bit_vector);
    assert(1 <= s < 64 ==> (y >> ((s - 1) as u64)) >> 1u64 == y >> s) by (bit_vector);
}

proof fn lemma_word_last(x: u64, y: u64)
    requires
        (x >> 0u64) >> 1u64 == (y >> 0u64) >> 1u64,
        ((x >> 0u64) & 1u64 == 1u64) == ((y >> 0u64) & 1u64 == 1u64),
    ensures
        x == y,
{
    assert((x >> 0u64) >> 1u64 == (y >> 0u64) >> 1u64 && ((x >> 0u64) & 1u64 == 1u64) == ((y >> 0u64) & 1u64 == 1u64) ==> x == y) by (bit_vector);
}

proof fn lemma_word_top(x: u64, y: u64)
    ensures
        (x >> 63u64) >> 1u64 == (y >> 63u64) >> 1u64,
{
    assert((x >> 63u64) >> 1u64 == (y >> 63u64) >> 1u64) by (bit_vector);
}

/// Agreeing above `pos` and at `pos` is agreeing above `pos - 1`.
proof fn lemma_agree_step(a: Key, b: Key, pos: int)
    requires
        0 <= pos < 256,
        agree_above(a, b, pos),
        key_bit(a, pos) == key_bit(b, pos),
    ensures
        agree_above(a, b, pos - 1),
{
    let w = (255 - pos) / 64;
    let s = (pos % 64) as u64;
    assert(0 <= w < 4);
    assert(0 <= pos % 64 < 64);
    if s >= 1 {
        assert((255 - (pos - 1)) / 64 == w);
        assert(((pos - 1) % 64) as u64 == (s - 1) as u64);
        lemma_word_step(word(a, w), word(b, w), s);
    } else {
        lemma_word_last(word(a, w), word(b, w));
        assert((255 - (pos - 1)) / 64 == w + 1);
        if w + 1 < 4 {
            assert(((pos - 1) % 64) as u64 == 63u64);
            lemma_word_top(word(a, w + 1), word(b, w + 1));
        }
        assert forall|i: int| 0 <= i < w + 1 && i < 4 implies #[trigger] word(a, i) == word(b, i) by {
            if i < w {
            }
        }
    }
}

/// Every key agrees with every other above the top bit.
proof fn lemma_agree_top(a: Key, b: Key)
    ensures
        agree_above(a, b, 255),
{
    lemma_word_top(a.w0, b.w0);
}

proof fn lemma_agree_all(a: Key, b: Key)
    requires
        agree_above(a, b, -1),
    ensures
        a == b,
{
    assert(word(a, 0) == word(b, 0));
    assert(word(a, 1) == word(b, 1));
    assert(word(a, 2) == word(b, 2));
    assert(word(a, 3) == word(b, 3));
}

/// Of two keys that agree with `t` above `pos`, the one that also agrees
/// with `t` at `pos` is the closer to `t`.
proof fn lemma_closer_at(y: Key, x: Key, t: Key, pos: int)
    requires
        0 <= pos < 256,
        agree_above(y, t, pos),
        agree_above(x, t, pos),
        key_bit(y, pos) == key_bit(t, pos),
        key_bit(x, pos) != key_bit(t, pos),
    ensures
        key_xor(y, t).spec_lt(key_xor(x, t)),
{
    let w = (255 - pos) / 64;
    let s = (pos % 64) as u64;
    let (yw, xw, tw) = (word(y, w), word(x, w), word(t, w));
    assert(s < 64);
    assert((yw >> s) >> 1u64 == (tw >> s) >> 1u64 && (xw >> s) >> 1u64 == (tw >> s) >> 1u64
        && ((yw >> s) & 1u64 == 1u64) == ((tw >> s) & 1u64 == 1u64)
        && ((xw >> s) & 1u64 == 1u64) != ((tw >> s) & 1u64 == 1u64) && s < 64
        ==> (yw ^ tw) < (xw ^ tw)) by (bit_vector);
    assert forall|i: int| 0 <= i < w implies word(y, i) ^ word(t, i) == word(x, i) ^ word(t, i) by {
        assert(word(y, i) == word(t, i));
        assert(word(x, i) == word(t, i));
    }
    assert(w == 0 || w == 1 || w == 2 || w == 3);
    if w == 0 {
    } else if w == 1 {
        assert(word(y, 0) ^ word(t, 0) == word(x, 0) ^ word(t, 0));
    } else if w == 2 {
        assert(word(y, 0) ^ word(t, 0) == word(x, 0) ^ word(t, 0));
        assert(word(y, 1) ^ word(t, 1) == word(x, 1) ^ word(t, 1));
    } else {
        assert(word(y, 0) ^ word(t, 0) == word(x, 0) ^ word(t, 0));
        assert(word(y, 1) ^ word(t, 1) == word(x, 1) ^ word(t, 1));
        assert(word(y, 2) ^ word(t, 2) == word(x, 2) ^ word(t, 2));
    }
}

/// Returns bit `pos` of `k`.
pub fn bit(k: &Key, pos: u32) -> (r: bool)
    requires
        pos < 256,
    ensures
        r == key_bit(*k, pos as int),
{
    if pos >= 192 {
        (k.w0 >> ((pos - 192) as u64)) & 1 == 1
    } else if pos >= 128 {
        (k.w1 >> ((pos - 128) as u64)) & 1 == 1
    } else if pos >= 64 {
        (k.w2 >> ((pos - 64) as u64)) & 1 == 1
    } else {
        (k.w3 >> (pos as u64)) & 1 == 1
    }
}

/// A key with the peer it belongs to.
pub type KeyEntry = (Key, PeerId);

/// The peers of a sequence of entries.
pub open spec fn entry_peers(s: Seq<KeyEntry>) -> Seq<PeerId> {
    s.map_values(|e: KeyEntry| e.1)
}

/// `s` is ordered by non-decreasing distance of its keys to `target`.
pub open spec fn entries_sorted(s: Seq<KeyEntry>, target: Key) -> bool {
    forall|a: int, b: int|
        0 <= a < b < s.len() ==> #[trigger] key_xor(s[a].0, target).spec_le(
            #[trigger] key_xor(s[b].0, target),
        )
}

/// The entries of `v` ordered by non-decreasing distance to `target`.
fn sort_entries(v: Vec<KeyEntry>, target: &Key) -> (r: Vec<KeyEntry>)
    ensures
        r@.len() == v@.len(),
        entries_sorted(r@, *target),
        forall|a: int| 0 <= a < r@.len() ==> v@.contains(#[trigger] r@[a]),
        forall|a: int| 0 <= a < v@.len() ==> r@.contains(#[trigger] v@[a]),
        v@.no_duplicates() ==> r@.no_duplicates(),
{
    let mut r: Vec<KeyEntry> = Vec::new();
    let mut i: usize = 0;
    while i < v.len()
        invariant
            i <= v@.len(),
            r@.len() == i,
            entries_sorted(r@, *target),
            forall|a: int| 0 <= a < r@.len() ==> v@.contains(#[trigger] r@[a]),
            forall|a: int| 0 <= a < r@.len() ==> v@.subrange(0, i as int).contains(#[trigger] r@[a]),
            v@.no_duplicates() ==> r@.no_duplicates(),
            forall|a: int| 0 <= a < i ==> r@.contains(#[trigger] v@[a]),
        decreases v@.len() - i,
    {
        let x = v[i];
        let d = x.0.distance(target);
        let mut pos: usize = r.len();
        let mut stop = false;
        while pos > 0 && !stop
            invariant
                stop ==> pos > 0 && key_xor(r@[pos - 1].0, *target).spec_le(d),
                pos <= r@.len(),
                entries_sorted(r@, *target),
                d == key_xor(x.0, *target),
                forall|a: int| pos <= a < r@.len() ==> d.spec_lt(#[trigger] key_xor(r@[a].0, *target)),
            decreases pos + if stop { 0int } else { 1int },
        {
            let dp = r[pos - 1].0.distance(target);
            if dp.is_less(&d) || dp == d {
                stop = true;
            } else {
                pos = pos - 1;
            }
        }
        proof {
            assert forall|a: int| 0 <= a < pos implies (#[trigger] key_xor(r@[a].0, *target)).spec_le(d) by {
                if pos > 0 && a < pos - 1 {
                    assert(key_xor(r@[a].0, *target).spec_le(key_xor(r@[pos - 1].0, *target)));
                }
            }
        }
        let ghost old_r = r@;
        r.insert(pos, x);
        proof {
            assert forall|a: int, b: int| 0 <= a < b < r@.len() implies #[trigger] key_xor(r@[a].0, *target).spec_le(
                #[trigger] key_xor(r@[b].0, *target)) by {
                if a < pos && b == pos {
                } else if a < pos && b > pos {
                    assert(r@[b] == old_r[b - 1]);
                } else if a == pos {
                    assert(r@[b] == old_r[b - 1]);
                } else if b < pos {
                } else {
                    assert(r@[a] == old_r[a - 1]);
                    assert(r@[b] == old_r[b - 1]);
                }
            }
            assert forall|a: int| 0 <= a < r@.len() implies v@.contains(#[trigger] r@[a]) by {
                if a < pos {
                    assert(r@[a] == old_r[a]);
                } else if a > pos {
                    assert(r@[a] == old_r[a - 1]);
                } else {
                    assert(v@[i as int] == x);
                }
            }
            assert forall|a: int| 0 <= a < r@.len() implies v@.subrange(0, i + 1).contains(#[trigger] r@[a]) by {
                if a == pos {
                    assert(v@.subrange(0, i + 1)[i as int] == x);
                } else {
                    let a1 = if a < pos { a } else { a - 1 };
                    assert(r@[a] == old_r[a1]);
                    let m = choose|m: int| 0 <= m < i && v@.subrange(0, i as int)[m] == old_r[a1];
                    assert(v@.subrange(0, i + 1)[m] == r@[a]);
                }
            }
            if v@.no_duplicates() {
                assert(!old_r.contains(x)) by {
                    if old_r.contains(x) {
                        let j = choose|j: int| 0 <= j < old_r.len() && old_r[j] == x;
                        let m = choose|m: int| 0 <= m < i && v@.subrange(0, i as int)[m] == old_r[j];
                        assert(v@[m] == v@[i as int]);
                    }
                }
                assert forall|a: int, b: int| 0 <= a < r@.len() && 0 <= b < r@.len() && a != b implies r@[a] != r@[b] by {
                    let a1 = if a < pos { a } else { a - 1 };
                    let b1 = if b < pos { b } else { b - 1 };
                    if a == pos {
                        assert(r@[b] == old_r[b1]);
                    } else if b == pos {
                        assert(r@[a] == old_r[a1]);
                    } else {
                        assert(r@[a] == old_r[a1] && r@[b] == old_r[b1]);
                    }
                }
            }
            assert forall|a: int| 0 <= a < i + 1 implies r@.contains(#[trigger] v@[a]) by {
                if a == i {
                    assert(r@[pos as int] == x);
                } else {
                    let j = choose|j: int| 0 <= j < old_r.len() && old_r[j] == v@[a];
                    if j < pos {
                        assert(r@[j] == v@[a]);
                    } else {
                        assert(r@[j + 1] == v@[a]);
                    }
                }
            }
        }
        i = i + 1;
    }
    r
}

/// A node of the trie: a leaf with at most one key, or an inner node with
/// the number of keys below it.
#[derive(Debug)]
pub enum KeysTreeNode {
    Leaf(Option<KeyEntry>),
    Inner { left: Box<KeysTreeNode>, right: Box<KeysTreeNode>, size: usize },
}

/// Some entry of `s` has key `k`.
pub open spec fn has_key(s: Seq<KeyEntry>, k: Key) -> bool {
    exists|i: int| 0 <= i < s.len() && (#[trigger] s[i]).0 == k
}

impl KeysTreeNode {
    /// The entries below this node, left to right.
    pub open spec fn entries(&self) -> Seq<KeyEntry>
        decreases self,
    {
        match self {
            KeysTreeNode::Leaf(None) => Seq::empty(),
            KeysTreeNode::Leaf(Some(e)) => seq![*e],
            KeysTreeNode::Inner { left, right, .. } => left.entries() + right.entries(),
        }
    }

    /// A node that splits on bit `pos`: an inner node holds the keys with
    /// that bit clear on its left and set on its right, its children split
    /// on bit `pos - 1`, and it records the number of entries below it.
    pub open spec fn wf_at(&self, pos: int) -> bool
        decreases self,
    {
        match self {
            KeysTreeNode::Leaf(_) => true,
            KeysTreeNode::Inner { left, right, size } => {
                &&& 0 <= pos < 256
                &&& left.wf_at(pos - 1)
                &&& right.wf_at(pos - 1)
                &&& *size == left.entries().len() + right.entries().len()
                &&& *size >= 2
                &&& forall|i: int| 0 <= i < left.entries().len() ==> !key_bit(#[trigger] left.entries()[i].0, pos)
                &&& forall|i: int| 0 <= i < right.entries().len() ==> key_bit(#[trigger] right.entries()[i].0, pos)
            },
        }
    }

    /// The number of entries below a node.
    fn size(&self, pos: Ghost<int>) -> (r: usize)
        requires
            self.wf_at(pos@),
            self.entries().len() <= usize::MAX,
        ensures
            r == self.entries().len(),
    {
        match self {
            KeysTreeNode::Leaf(None) => 0,
            KeysTreeNode::Leaf(Some(_)) => 1,
            KeysTreeNode::Inner { size, .. } => *size,
        }
    }

    fn is_leaf(&self) -> (r: bool)
        ensures
            r == (self matches KeysTreeNode::Leaf(_)),
    {
        match self {
            KeysTreeNode::Leaf(_) => true,
            KeysTreeNode::Inner { .. } => false,
        }
    }

    /// The node with `e` added below it, where every key already agrees
    /// with `e.0` above bit `pos`; a key already present is left as it is.
    fn insert(self, e: KeyEntry, pos: i32) -> (r: KeysTreeNode)
        requires
            -1 <= pos < 256,
            self.wf_at(pos as int),
            self.entries().len() < usize::MAX,
            forall|i: int| 0 <= i < self.entries().len() ==> agree_above(#[trigger] self.entries()[i].0, e.0, pos as int),
        ensures
            r.wf_at(pos as int),
            forall|i: int| 0 <= i < r.entries().len() ==> agree_above(#[trigger] r.entries()[i].0, e.0, pos as int),
            has_key(self.entries(), e.0) ==> r.entries().to_set() == self.entries().to_set()
                && r.entries().len() == self.entries().len(),
            !has_key(self.entries(), e.0) ==> r.entries().to_set() == self.entries().to_set().insert(e)
                && r.entries().len() == self.entries().len() + 1,
        decreases pos + 1,
    {
        proof {
            reveal_with_fuel(KeysTreeNode::entries, 3);
            reveal_with_fuel(KeysTreeNode::wf_at, 3);
        }
        match self {
            KeysTreeNode::Leaf(None) => {
                let r = KeysTreeNode::Leaf(Some(e));
                proof {
                    assert(r.entries()[0] == e);
                    assert(r.entries().to_set() =~= self.entries().to_set().insert(e));
                    lemma_agree_refl(e.0, pos as int);
                }
                r
            },
            KeysTreeNode::Leaf(Some(_)) => self.insert_at_leaf(e, pos),
            KeysTreeNode::Inner { .. } => self.insert_below(e, pos),
        }
    }

    #[verifier::rlimit(60)]
    fn insert_at_leaf(self, e: KeyEntry, pos: i32) -> (r: KeysTreeNode)
        requires
            self matches KeysTreeNode::Leaf(Some(_)),
            -1 <= pos < 256,
            self.wf_at(pos as int),
            self.entries().len() < usize::MAX,
            forall|i: int| 0 <= i < self.entries().len() ==> agree_above(#[trigger] self.entries()[i].0, e.0, pos as int),
        ensures
            r.wf_at(pos as int),
            forall|i: int| 0 <= i < r.entries().len() ==> agree_above(#[trigger] r.entries()[i].0, e.0, pos as int),
            has_key(self.entries(), e.0) ==> r.entries().to_set() == self.entries().to_set()
                && r.entries().len() == self.entries().len(),
            !has_key(self.entries(), e.0) ==> r.entries().to_set() == self.entries().to_set().insert(e)
                && r.entries().len() == self.entries().len() + 1,
        decreases pos + 1, 0int,
    {
        proof {
            reveal_with_fuel(KeysTreeNode::entries, 3);
            reveal_with_fuel(KeysTreeNode::wf_at, 3);
        }
        let leaf = match self {
            KeysTreeNode::Leaf(Some(leaf)) => leaf,
            _ => {
                return self;
            },
        };
        proof {
            assert(self.entries()[0] == leaf);
            assert(agree_above(leaf.0, e.0, pos as int));
        }
        if leaf.0 == e.0 {
            proof {
                assert(has_key(self.entries(), e.0));
            }
            return KeysTreeNode::Leaf(Some(leaf));
        }
        proof {
            assert(!has_key(self.entries(), e.0)) by {
                if has_key(self.entries(), e.0) {
                    let i = choose|i: int| 0 <= i < self.entries().len() && (#[trigger] self.entries()[i]).0 == e.0;
                    assert(self.entries()[i] == leaf);
                }
            }
            if pos == -1 {
                lemma_agree_all(leaf.0, e.0);
            }
            lemma_agree_refl(e.0, pos as int);
            assert(self.entries().to_set().insert(e) =~= set![leaf, e]) by {
                assert(self.entries().to_set().contains(leaf));
                assert forall|x: KeyEntry| self.entries().to_set().contains(x) implies x == leaf by {
                    let j = choose|j: int| 0 <= j < self.entries().len() && self.entries()[j] == x;
                }
            }
        }
        let p = pos as u32;
        let bl = bit(&leaf.0, p);
        let be = bit(&e.0, p);
        if bl != be {
            let r = if be {
                KeysTreeNode::Inner {
                    left: Box::new(KeysTreeNode::Leaf(Some(leaf))),
                    right: Box::new(KeysTreeNode::Leaf(Some(e))),
                    size: 2,
                }
            } else {
                KeysTreeNode::Inner {
                    left: Box::new(KeysTreeNode::Leaf(Some(e))),
                    right: Box::new(KeysTreeNode::Leaf(Some(leaf))),
                    size: 2,
                }
            };
            proof {
                if be {
                    assert(r.entries() =~= seq![leaf, e]);
                } else {
                    assert(r.entries() =~= seq![e, leaf]);
                }
                assert(r.entries().to_set() =~= set![leaf, e]) by {
                    assert(r.entries().to_set().contains(leaf) && r.entries().to_set().contains(e)) by {
                        if be {
                            assert(r.entries()[0] == leaf && r.entries()[1] == e);
                        } else {
                            assert(r.entries()[1] == leaf && r.entries()[0] == e);
                        }
                    }
                    assert forall|x: KeyEntry| r.entries().to_set().contains(x) implies x == leaf || x == e by {
                        let j = choose|j: int| 0 <= j < r.entries().len() && r.entries()[j] == x;
                    }
                }
            }
            r
        } else {
            proof {
                lemma_agree_step(leaf.0, e.0, pos as int);
            }
            let below = KeysTreeNode::Leaf(Some(leaf)).insert(e, pos - 1);
            let r = if be {
                KeysTreeNode::Inner {
                    left: Box::new(KeysTreeNode::Leaf(None)),
                    right: Box::new(below),
                    size: 2,
                }
            } else {
                KeysTreeNode::Inner {
                    left: Box::new(below),
                    right: Box::new(KeysTreeNode::Leaf(None)),
                    size: 2,
                }
            };
            proof {
                let be_ = below.entries();
                assert(KeysTreeNode::Leaf(Some(leaf)).entries() =~= seq![leaf]);
                assert(!has_key(seq![leaf], e.0)) by {
                    if has_key(seq![leaf], e.0) {
                        let i = choose|i: int| 0 <= i < 1 && (#[trigger] seq![leaf][i]).0 == e.0;
                    }
                }
                assert(seq![leaf].to_set().insert(e) =~= set![leaf, e]) by {
                    assert(seq![leaf][0] == leaf);
                    assert forall|x: KeyEntry| seq![leaf].to_set().contains(x) implies x == leaf by {
                        let j = choose|j: int| 0 <= j < 1 && seq![leaf][j] == x;
                    }
                }
                assert(r.entries() =~= be_);
                assert forall|i: int| 0 <= i < be_.len() implies key_bit(#[trigger] be_[i].0, pos as int) == be by {
                    assert(be_.to_set().contains(be_[i]));
                    assert(set![leaf, e].contains(be_[i]));
                }
                assert forall|i: int| 0 <= i < r.entries().len() implies agree_above(#[trigger] r.entries()[i].0, e.0, pos as int) by {
                    assert(be_.to_set().contains(be_[i]));
                    assert(set![leaf, e].contains(be_[i]));
                }
            }
            r
        }
    }

    #[verifier::rlimit(80)]
    fn insert_below(self, e: KeyEntry, pos: i32) -> (r: KeysTreeNode)
        requires
            self matches KeysTreeNode::Inner { .. },
            -1 <= pos < 256,
            self.wf_at(pos as int),
            self.entries().len() < usize::MAX,
            forall|i: int| 0 <= i < self.entries().len() ==> agree_above(#[trigger] self.entries()[i].0, e.0, pos as int),
        ensures
            r.wf_at(pos as int),
            forall|i: int| 0 <= i < r.entries().len() ==> agree_above(#[trigger] r.entries()[i].0, e.0, pos as int),
            has_key(self.entries(), e.0) ==> r.entries().to_set() == self.entries().to_set()
                && r.entries().len() == self.entries().len(),
            !has_key(self.entries(), e.0) ==> r.entries().to_set() == self.entries().to_set().insert(e)
                && r.entries().len() == self.entries().len() + 1,
        decreases pos + 1, 0int,
    {
        proof {
            reveal_with_fuel(KeysTreeNode::entries, 2);
            reveal_with_fuel(KeysTreeNode::wf_at, 2);
        }
        let (left, right, _size) = match self {
            KeysTreeNode::Inner { left, right, size } => (left, right, size),
            _ => {
                return self;
            },
        };
        let ghost le = left.entries();
        let ghost re = right.entries();
        let p = pos as u32;
        let be = bit(&e.0, p);
        proof {
            lemma_concat_to_set(le, re);
            assert forall|i: int| 0 <= i < le.len() implies agree_above(#[trigger] le[i].0, e.0, pos - 1) == (!be) by {
                assert(self.entries()[i] == le[i]);
                if !be {
                    lemma_agree_step(le[i].0, e.0, pos as int);
                } else {
                    lemma_agree_not_step(le[i].0, e.0, pos as int);
                }
            }
            assert forall|i: int| 0 <= i < re.len() implies agree_above(#[trigger] re[i].0, e.0, pos - 1) == be by {
                assert(self.entries()[le.len() + i] == re[i]);
                if be {
                    lemma_agree_step(re[i].0, e.0, pos as int);
                } else {
                    lemma_agree_not_step(re[i].0, e.0, pos as int);
                }
            }
        }
        if be {
            let new_right = (*right).insert(e, pos - 1);
            let new_size = left.size(Ghost(pos - 1)) + new_right.size(Ghost(pos - 1));
            let r = KeysTreeNode::Inner { left, right: Box::new(new_right), size: new_size };
            proof {
                let ne = new_right.entries();
                lemma_concat_to_set(le, ne);
                assert(!has_key(le, e.0)) by {
                    if has_key(le, e.0) {
                        let i = choose|i: int| 0 <= i < le.len() && (#[trigger] le[i]).0 == e.0;
                        lemma_agree_refl(e.0, pos - 1);
                    }
                }
                assert(has_key(self.entries(), e.0) == has_key(re, e.0)) by {
                    lemma_has_key_concat(le, re, e.0);
                }
                lemma_entries_bits(ne, re, e, pos as int, true);
                assert forall|i: int| 0 <= i < r.entries().len() implies agree_above(#[trigger] r.entries()[i].0, e.0, pos as int) by {
                    if i < le.len() {
                        assert(r.entries()[i] == le[i]);
                        assert(self.entries()[i] == le[i]);
                    } else {
                        assert(r.entries()[i] == ne[i - le.len()]);
                        lemma_agree_up(ne[i - le.len()].0, e.0, pos as int);
                    }
                }
                assert(r.entries().to_set() =~= le.to_set().union(ne.to_set()));
                if has_key(self.entries(), e.0) {
                    assert(r.entries().to_set() =~= self.entries().to_set());
                } else {
                    assert(r.entries().to_set() =~= self.entries().to_set().insert(e));
                }
            }
            r
        } else {
            let new_left = (*left).insert(e, pos - 1);
            let new_size = new_left.size(Ghost(pos - 1)) + right.size(Ghost(pos - 1));
            let r = KeysTreeNode::Inner { left: Box::new(new_left), right, size: new_size };
            proof {
                let ne = new_left.entries();
                lemma_concat_to_set(ne, re);
                assert(!has_key(re, e.0)) by {
                    if has_key(re, e.0) {
                        let i = choose|i: int| 0 <= i < re.len() && (#[trigger] re[i]).0 == e.0;
                        lemma_agree_refl(e.0, pos - 1);
                    }
                }
                assert(has_key(self.entries(), e.0) == has_key(le, e.0)) by {
                    lemma_has_key_concat(le, re, e.0);
                }
                lemma_entries_bits(ne, le, e, pos as int, false);
                assert forall|i: int| 0 <= i < r.entries().len() implies agree_above(#[trigger] r.entries()[i].0, e.0, pos as int) by {
                    if i < ne.len() {
                        assert(r.entries()[i] == ne[i]);
                        lemma_agree_up(ne[i].0, e.0, pos as int);
                    } else {
                        assert(r.entries()[i] == re[i - ne.len()]);
                        assert(self.entries()[le.len() + (i - ne.len())] == re[i - ne.len()]);
                    }
                }
                assert(r.entries().to_set() =~= ne.to_set().union(re.to_set()));
                if has_key(self.entries(), e.0) {
                    assert(r.entries().to_set() =~= self.entries().to_set());
                } else {
                    assert(r.entries().to_set() =~= self.entries().to_set().insert(e));
                }
            }
            r
        }
    }

    /// Appends the entries below this node to `ans`.
    fn collect(&self, ans: &mut Vec<KeyEntry>)
        ensures
            final(ans)@ == old(ans)@ + self.entries(),
        decreases self,
    {
        match self {
            KeysTreeNode::Leaf(leaf) => {
                if let Some(e) = leaf {
                    ans.push(*e);
                }
                assert(final(ans)@ =~= old(ans)@ + self.entries());
            },
            KeysTreeNode::Inner { left, right, .. } => {
                left.collect(ans);
                right.collect(ans);
                assert(final(ans)@ =~= old(ans)@ + self.entries());
            },
        }
    }
}

/// No two entries of `s` share a key.
pub open spec fn keys_unique(s: Seq<KeyEntry>) -> bool {
    forall|i: int, j: int| 0 <= i < s.len() && 0 <= j < s.len() && i != j ==> (#[trigger] s[i]).0 != (#[trigger] s[j]).0
}

/// A trie node holds each key at most once: keys below the left child have
/// bit `pos` clear and those below the right child have it set.
pub proof fn lemma_keys_unique(n: &KeysTreeNode, pos: int)
    requires
        n.wf_at(pos),
    ensures
        keys_unique(n.entries()),
        n.entries().no_duplicates(),
    decreases n,
{
    match n {
        KeysTreeNode::Leaf(_) => {},
        KeysTreeNode::Inner { left, right, .. } => {
            lemma_keys_unique(left, pos - 1);
            lemma_keys_unique(right, pos - 1);
            let le = left.entries();
            let re = right.entries();
            let e = n.entries();
            assert(e == le + re);
            assert forall|i: int, j: int| 0 <= i < e.len() && 0 <= j < e.len() && i != j implies (#[trigger] e[i]).0 != (#[trigger] e[j]).0 by {
                if i < le.len() && j < le.len() {
                    assert(e[i] == le[i] && e[j] == le[j]);
                } else if i >= le.len() && j >= le.len() {
                    assert(e[i] == re[i - le.len()] && e[j] == re[j - le.len()]);
                } else if i < le.len() {
                    assert(e[i] == le[i] && e[j] == re[j - le.len()]);
                    assert(!key_bit(le[i].0, pos) && key_bit(re[j - le.len()].0, pos));
                } else {
                    assert(e[j] == le[j] && e[i] == re[i - le.len()]);
                    assert(!key_bit(le[j].0, pos) && key_bit(re[i - le.len()].0, pos));
                }
            }
        },
    }
}

proof fn lemma_xor_same_dist(a: Key, b: Key, t: Key)
    requires
        key_xor(a, t) == key_xor(b, t),
    ensures
        a == b,
{
    lemma_xor_word_cancel(a.w0, b.w0, t.w0);
    lemma_xor_word_cancel(a.w1, b.w1, t.w1);
    lemma_xor_word_cancel(a.w2, b.w2, t.w2);
    lemma_xor_word_cancel(a.w3, b.w3, t.w3);
}

proof fn lemma_xor_word_cancel(x: u64, y: u64, t: u64)
    ensures
        x ^ t == y ^ t ==> x == y,
{
    assert(x ^ t == y ^ t ==> x == y) by (bit_vector);
}

proof fn lemma_agree_refl(a: Key, pos: int)
    ensures
        agree_above(a, a, pos),
{
}

/// Keys that differ at `pos` do not agree above `pos - 1`.
proof fn lemma_agree_not_step(a: Key, b: Key, pos: int)
    requires
        0 <= pos < 256,
        key_bit(a, pos) != key_bit(b, pos),
    ensures
        !agree_above(a, b, pos - 1),
{
    let w = (255 - pos) / 64;
    let s = (pos % 64) as u64;
    assert(0 <= w < 4);
    assert(0 <= pos % 64 < 64);
    let (x, y) = (word(a, w), word(b, w));
    if s >= 1 {
        assert((255 - (pos - 1)) / 64 == w);
        assert(((pos - 1) % 64) as u64 == (s - 1) as u64);
        assert(1 <= s < 64 && ((x >> s) & 1u64 == 1u64) != ((y >> s) & 1u64 == 1u64) ==> (x >> ((s - 1) as u64)) >> 1u64 != (y >> ((s - 1) as u64)) >> 1u64) by (bit_vector);
    } else {
        assert((255 - (pos - 1)) / 64 == w + 1);
        assert(((x >> 0u64) & 1u64 == 1u64) != ((y >> 0u64) & 1u64 == 1u64) ==> x != y) by (bit_vector);
    }
}

/// Agreeing above `pos - 1` is agreeing above `pos`.
proof fn lemma_agree_up(a: Key, b: Key, pos: int)
    requires
        0 <= pos < 256,
        agree_above(a, b, pos - 1),
    ensures
        agree_above(a, b, pos),
{
    let w = (255 - pos) / 64;
    let s = (pos % 64) as u64;
    assert(0 <= w < 4);
    assert(0 <= pos % 64 < 64);
    let (x, y) = (word(a, w), word(b, w));
    if s >= 1 {
        assert((255 - (pos - 1)) / 64 == w);
        assert(((pos - 1) % 64) as u64 == (s - 1) as u64);
        assert(1 <= s < 64 && (x >> ((s - 1) as u64)) >> 1u64 == (y >> ((s - 1) as u64)) >> 1u64 ==> (x >> s) >> 1u64 == (y >> s) >> 1u64) by (bit_vector);
    } else {
        assert((255 - (pos - 1)) / 64 == w + 1);
        assert(word(a, w) == word(b, w));
    }
}

proof fn lemma_has_key_concat(a: Seq<KeyEntry>, b: Seq<KeyEntry>, k: Key)
    ensures
        has_key(a + b, k) == (has_key(a, k) || has_key(b, k)),
{
    if has_key(a + b, k) {
        let i = choose|i: int| 0 <= i < (a + b).len() && (#[trigger] (a + b)[i]).0 == k;
        if i < a.len() {
            assert(a[i] == (a + b)[i]);
        } else {
            assert(b[i - a.len()] == (a + b)[i]);
        }
    }
    if has_key(a, k) {
        let i = choose|i: int| 0 <= i < a.len() && (#[trigger] a[i]).0 == k;
        assert((a + b)[i] == a[i]);
    }
    if has_key(b, k) {
        let i = choose|i: int| 0 <= i < b.len() && (#[trigger] b[i]).0 == k;
        assert((a + b)[a.len() + i] == b[i]);
    }
}

/// After inserting `e` into a child whose keys all have bit `pos` equal to
/// `bit`, the child's keys still all have it.
proof fn lemma_entries_bits(ne: Seq<KeyEntry>, old_e: Seq<KeyEntry>, e: KeyEntry, pos: int, b: bool)
    requires
        0 <= pos < 256,
        key_bit(e.0, pos) == b,
        forall|i: int| 0 <= i < old_e.len() ==> key_bit(#[trigger] old_e[i].0, pos) == b,
        ne.to_set() == old_e.to_set() || ne.to_set() == old_e.to_set().insert(e),
    ensures
        forall|i: int| 0 <= i < ne.len() ==> key_bit(#[trigger] ne[i].0, pos) == b,
{
    assert forall|i: int| 0 <= i < ne.len() implies key_bit(#[trigger] ne[i].0, pos) == b by {
        assert(ne.to_set().contains(ne[i]));
        if ne[i] != e {
            assert(old_e.to_set().contains(ne[i]));
            let j = choose|j: int| 0 <= j < old_e.len() && old_e[j] == ne[i];
            assert(key_bit(old_e[j].0, pos) == b);
        }
    }
}

proof fn lemma_concat_to_set(a: Seq<KeyEntry>, b: Seq<KeyEntry>)
    ensures
        (a + b).to_set() == a.to_set().union(b.to_set()),
{
    assert forall|x: KeyEntry| (a + b).to_set().contains(x) <==> a.to_set().union(b.to_set()).contains(x) by {
        if (a + b).contains(x) {
            let j = choose|j: int| 0 <= j < (a + b).len() && (a + b)[j] == x;
            if j < a.len() {
                assert(a[j] == x);
            } else {
                assert(b[j - a.len()] == x);
            }
        }
        if a.contains(x) {
            let j = choose|j: int| 0 <= j < a.len() && a[j] == x;
            assert((a + b)[j] == x);
        }
        if b.contains(x) {
            let j = choose|j: int| 0 <= j < b.len() && b[j] == x;
            assert((a + b)[a.len() + j] == x);
        }
    }
    assert((a + b).to_set() =~= a.to_set().union(b.to_set()));
}

/// `r` is the `count` keys of `entries` closest to `target`, closest first:
/// as many as `count` (or all), each from `entries`, and no key of
/// `entries` left out is closer than one taken.
pub open spec fn is_closest(r: Seq<KeyEntry>, entries: Seq<KeyEntry>, target: Key, count: nat) -> bool {
    &&& r.len() == if count < entries.len() { count as int } else { entries.len() as int }
    &&& entries_sorted(r, target)
    &&& forall|a: int| 0 <= a < r.len() ==> entries.contains(#[trigger] r[a])
    &&& forall|x: KeyEntry, a: int|
        entries.contains(x) && !r.contains(x) && 0 <= a < r.len() ==> key_xor(#[trigger] r[a].0, target).spec_le(
            key_xor(x.0, target),
        ) && #[trigger] entries.contains(x)
}

/// A tree structure for efficiently finding the closest keys to a given key.
#[derive(Debug)]
pub struct KeysTree {
    root: Option<KeysTreeNode>,
}

impl KeysTree {
    /// The keys in the tree, each with its peer.
    /// The root of the trie, if any key is in it.
    pub closed spec fn spec_root(&self) -> Option<KeysTreeNode> {
        self.root
    }

    pub open spec fn entries(&self) -> Seq<KeyEntry> {
        match self.spec_root() {
            None => Seq::empty(),
            Some(n) => n.entries(),
        }
    }

    /// The trie splits on the bits of the keys, most significant first.
    pub open spec fn wf(&self) -> bool {
        match self.spec_root() {
            None => true,
            Some(n) => n.wf_at(255),
        }
    }

    /// Creates a tree of `keys`, where the key at index `i` is the key of
    /// peer `i`; of equal keys the first is kept.
    pub fn new(keys: &[Key]) -> (r: KeysTree)
        requires
            keys@.len() <= u32::MAX,
        ensures
            r.wf(),
            r.entries().len() <= keys@.len(),
            keys_unique(r.entries()),
            forall|i: int| 0 <= i < keys@.len() ==> has_key(r.entries(), #[trigger] keys@[i]),
            forall|a: int| 0 <= a < r.entries().len() ==> ({
                let e = #[trigger] r.entries()[a];
                0 <= e.1 < keys@.len() && keys@[e.1 as int] == e.0
            }),
    {
        let mut tree = KeysTree { root: None };
        let mut i: usize = 0;
        while i < keys.len()
            invariant
                i <= keys@.len() <= u32::MAX,
                tree.wf(),
                tree.entries().len() <= i,
                forall|j: int| 0 <= j < i ==> has_key(tree.entries(), #[trigger] keys@[j]),
                forall|a: int| 0 <= a < tree.entries().len() ==> ({
                    let e = #[trigger] tree.entries()[a];
                    0 <= e.1 < i && keys@[e.1 as int] == e.0
                }),
            decreases keys@.len() - i,
        {
            let ghost before = tree.entries();
            let e = (keys[i], i as PeerId);
            tree.insert(keys[i], i as PeerId);
            proof {
                let now = tree.entries();
                assert forall|x: KeyEntry| now.contains(x) implies before.contains(x) || x == e by {
                    assert(now.to_set().contains(x));
                }
                assert forall|j: int| 0 <= j < i + 1 implies has_key(now, #[trigger] keys@[j]) by {
                    if j < i {
                        let m = choose|m: int| 0 <= m < before.len() && (#[trigger] before[m]).0 == keys@[j];
                        assert(before.to_set().contains(before[m]));
                        assert(now.to_set().contains(before[m]));
                        let n = choose|n: int| 0 <= n < now.len() && now[n] == before[m];
                        assert(now[n].0 == keys@[j]);
                    } else if has_key(before, e.0) {
                        let m = choose|m: int| 0 <= m < before.len() && (#[trigger] before[m]).0 == e.0;
                        assert(now.to_set().contains(before[m]));
                        let n = choose|n: int| 0 <= n < now.len() && now[n] == before[m];
                        assert(now[n].0 == keys@[j]);
                    } else {
                        assert(now.to_set().contains(e));
                        let n = choose|n: int| 0 <= n < now.len() && now[n] == e;
                        assert(now[n].0 == keys@[j]);
                    }
                }
                assert forall|a: int| 0 <= a < now.len() implies ({
                    let x = #[trigger] now[a];
                    0 <= x.1 < i + 1 && keys@[x.1 as int] == x.0
                }) by {
                    let x = now[a];
                    assert(now.to_set().contains(x));
                    if x != e {
                        assert(before.to_set().contains(x));
                        let b = choose|b: int| 0 <= b < before.len() && before[b] == x;
                        assert(before[b] == x);
                    }
                }
            }
            i = i + 1;
        }
        proof {
            if let Some(n) = tree.spec_root() {
                lemma_keys_unique(&n, 255);
            }
        }
        tree
    }

    /// Inserts `key`, the key of `peer_id`, into the tree, unless the key is
    /// already there.
    pub fn insert(&mut self, key: Key, peer_id: PeerId)
        requires
            old(self).wf(),
            old(self).entries().len() < usize::MAX,
        ensures
            final(self).wf(),
            has_key(old(self).entries(), key) ==> final(self).entries().to_set() == old(self).entries().to_set()
                && final(self).entries().len() == old(self).entries().len(),
            !has_key(old(self).entries(), key) ==> final(self).entries().to_set() == old(self).entries().to_set().insert((key, peer_id))
                && final(self).entries().len() == old(self).entries().len() + 1,
            keys_unique(final(self).entries()),
    {
        let root = self.root.take();
        match root {
            None => {
                self.root = Some(KeysTreeNode::Leaf(Some((key, peer_id))));
                proof {
                    reveal_with_fuel(KeysTreeNode::entries, 2);
                    assert(self.entries()[0] == (key, peer_id));
                    assert(self.entries().to_set() =~= old(self).entries().to_set().insert((key, peer_id)));
                    assert(!has_key(old(self).entries(), key));
                }
            },
            Some(node) => {
                proof {
                    assert forall|i: int| 0 <= i < node.entries().len() implies agree_above(#[trigger] node.entries()[i].0, key, 255) by {
                        lemma_agree_top(node.entries()[i].0, key);
                    }
                }
                self.root = Some(node.insert((key, peer_id), 255));
            },
        }
        proof {
            if let Some(n) = self.spec_root() {
                lemma_keys_unique(&n, 255);
            }
        }
    }

    /// Finds the `count` keys of the tree closest to `key`, closest first:
    /// descending the bits of `key` while the subtree ahead still holds
    /// `count` keys, it sorts the keys of the node reached.
    pub fn find_closest_keys(&self, key: &Key, count: usize) -> (r: Vec<KeyEntry>)
        requires
            self.wf(),
            self.entries().len() <= usize::MAX,
        ensures
            is_closest(r@, self.entries(), *key, count as nat),
            r@.no_duplicates(),
            forall|a: int, b: int|
                0 <= a < b < r@.len() ==> #[trigger] key_xor(r@[a].0, *key).spec_lt(#[trigger] key_xor(r@[b].0, *key)),
    {
        let root = match &self.root {
            None => {
                return Vec::new();
            },
            Some(root) => root,
        };
        let ghost all = root.entries();
        let mut node = root;
        let mut pos: i32 = 255;
        proof {
            assert forall|i: int| 0 <= i < node.entries().len() implies agree_above(#[trigger] node.entries()[i].0, *key, 255) by {
                lemma_agree_top(node.entries()[i].0, *key);
            }
        }
        let mut done = false;
        while !done
            invariant
                -1 <= pos < 256,
                node.wf_at(pos as int),
                all == root.entries(),
                all.len() <= usize::MAX,
                forall|x: KeyEntry| node.entries().contains(x) ==> all.contains(x),
                forall|i: int| 0 <= i < node.entries().len() ==> agree_above(#[trigger] node.entries()[i].0, *key, pos as int),
                forall|x: KeyEntry, y: KeyEntry|
                    all.contains(x) && !node.entries().contains(x) && node.entries().contains(y)
                        ==> #[trigger] key_xor(y.0, *key).spec_lt(#[trigger] key_xor(x.0, *key)),
                node.entries().len() >= count || node.entries() == all,
                node.entries().len() <= all.len(),
            decreases pos + 1, if done { 0int } else { 1int },
        {
            match node {
                KeysTreeNode::Leaf(_) => {
                    done = true;
                },
                KeysTreeNode::Inner { left, right, .. } => {
                    let goes_right = bit(key, pos as u32);
                    let next: &KeysTreeNode = if goes_right {
                        right
                    } else {
                        left
                    };
                    let other: &KeysTreeNode = if goes_right {
                        left
                    } else {
                        right
                    };
                    let ghost le = left.entries();
                    let ghost re = right.entries();
                    let ghost ne = next.entries();
                    let ghost oe = other.entries();
                    proof {
                        assert(node.entries() == le + re);
                        assert forall|x: KeyEntry| node.entries().contains(x) <==> (ne.contains(x) || oe.contains(x)) by {
                            if node.entries().contains(x) {
                                let j = choose|j: int| 0 <= j < node.entries().len() && node.entries()[j] == x;
                                if j < le.len() {
                                    assert(le[j] == x);
                                } else {
                                    assert(re[j - le.len()] == x);
                                }
                            }
                            if le.contains(x) {
                                let j = choose|j: int| 0 <= j < le.len() && le[j] == x;
                                assert(node.entries()[j] == x);
                            }
                            if re.contains(x) {
                                let j = choose|j: int| 0 <= j < re.len() && re[j] == x;
                                assert(node.entries()[le.len() + j] == x);
                            }
                        }
                        assert forall|y: KeyEntry| ne.contains(y) implies agree_above(y.0, *key, pos as int)
                            && key_bit(y.0, pos as int) == key_bit(*key, pos as int) by {
                            let j = choose|j: int| 0 <= j < ne.len() && ne[j] == y;
                            assert(node.entries().contains(y));
                            let m = choose|m: int| 0 <= m < node.entries().len() && node.entries()[m] == y;
                            assert(agree_above(node.entries()[m].0, *key, pos as int));
                        }
                        assert forall|x: KeyEntry| oe.contains(x) implies agree_above(x.0, *key, pos as int)
                            && key_bit(x.0, pos as int) != key_bit(*key, pos as int) by {
                            let j = choose|j: int| 0 <= j < oe.len() && oe[j] == x;
                            assert(node.entries().contains(x));
                            let m = choose|m: int| 0 <= m < node.entries().len() && node.entries()[m] == x;
                            assert(agree_above(node.entries()[m].0, *key, pos as int));
                        }
                    }
                    if next.is_leaf() || next.size(Ghost(pos as int - 1)) < count {
                        done = true;
                    } else {
                        proof {
                            assert forall|i: int| 0 <= i < ne.len() implies agree_above(#[trigger] ne[i].0, *key, pos - 1) by {
                                assert(ne.contains(ne[i]));
                                lemma_agree_step(ne[i].0, *key, pos as int);
                            }
                            assert forall|x: KeyEntry, y: KeyEntry|
                                all.contains(x) && !ne.contains(x) && ne.contains(y)
                                    implies #[trigger] key_xor(y.0, *key).spec_lt(#[trigger] key_xor(x.0, *key)) by {
                                assert(node.entries().contains(y));
                                if node.entries().contains(x) {
                                    assert(oe.contains(x));
                                    lemma_closer_at(y.0, x.0, *key, pos as int);
                                }
                            }
                        }
                        node = next;
                        pos = pos - 1;
                    }
                },
            }
        }
        let mut ans: Vec<KeyEntry> = Vec::new();
        node.collect(&mut ans);
        assert(ans@ =~= node.entries());
        let mut sorted = sort_entries(ans, key);
        let ghost s = sorted@;
        sorted.truncate(count);
        proof {
            let ne = node.entries();
            let r = sorted@;
            assert forall|a: int| 0 <= a < r.len() implies all.contains(#[trigger] r[a]) by {
                assert(r[a] == s[a]);
                assert(ne.contains(s[a]));
            }
            assert forall|x: KeyEntry, a: int|
                all.contains(x) && !r.contains(x) && 0 <= a < r.len() implies key_xor(#[trigger] r[a].0, *key).spec_le(
                    key_xor(x.0, *key)) && #[trigger] all.contains(x) by {
                assert(r[a] == s[a]);
                assert(ne.contains(s[a]));
                if ne.contains(x) {
                    let j = choose|j: int| 0 <= j < s.len() && s[j] == x;
                    if j < r.len() {
                        assert(r[j] == x);
                    } else {
                        assert(key_xor(s[a].0, *key).spec_le(key_xor(s[j].0, *key)));
                    }
                }
            }
            if count >= ne.len() {
                assert(r.len() == ne.len());
                if ne != all {
                    assert(ne.len() >= count);
                }
            }
        }
        proof {
            lemma_keys_unique(root, 255);
            lemma_keys_unique(node, pos as int);
            let r = sorted@;
            assert(r.no_duplicates()) by {
                assert forall|x: int, y: int| 0 <= x < r.len() && 0 <= y < r.len() && x != y implies r[x] != r[y] by {
                    assert(r[x] == s[x] && r[y] == s[y]);
                }
            }
            assert forall|a: int, b: int| 0 <= a < b < r.len() implies #[trigger] key_xor(r[a].0, *key).spec_lt(#[trigger] key_xor(r[b].0, *key)) by {
                assert(key_xor(r[a].0, *key).spec_le(key_xor(r[b].0, *key)));
                if key_xor(r[a].0, *key) == key_xor(r[b].0, *key) {
                    lemma_xor_same_dist(r[a].0, r[b].0, *key);
                    assert(all.contains(r[a]) && all.contains(r[b]));
                    let ia = choose|ia: int| 0 <= ia < all.len() && all[ia] == r[a];
                    let ib = choose|ib: int| 0 <= ib < all.len() && all[ib] == r[b];
                    assert(ia != ib);
                }
            }
        }
        sorted
    }

    /// The peers of the `count` keys closest to `key`, closest first.
    pub fn find_closest_peers(&self, key: &Key, count: usize) -> (r: Vec<PeerId>)
        requires
            self.wf(),
            self.entries().len() <= usize::MAX,
        ensures
            exists|chosen: Seq<KeyEntry>| is_closest(chosen, self.entries(), *key, count as nat)
                && r@ == #[trigger] entry_peers(chosen),
    {
        let keys = self.find_closest_keys(key, count);
        let mut r: Vec<PeerId> = Vec::new();
        let mut i: usize = 0;
        while i < keys.len()
            invariant
                i <= keys@.len(),
                r@ == entry_peers(keys@.subrange(0, i as int)),
            decreases keys@.len() - i,
        {
            r.push(keys[i].1);
            assert(entry_peers(keys@.subrange(0, i + 1)) =~= entry_peers(keys@.subrange(0, i as int)).push(keys@[i as int].1));
            i = i + 1;
        }
        assert(keys@.subrange(0, keys@.len() as int) =~= keys@);
        r
    }
}

} // verus!
