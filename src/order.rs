//! Orders peers by their XOR distance to a target key.
use vstd::prelude::*;

use crate::key::{key_xor, peer_key, Distance, Key};
use crate::PeerId;

verus! {

/// The distance from a peer's key to `target`.
pub open spec fn peer_dist(p: PeerId, target: Key) -> Distance {
    key_xor(peer_key(p), target)
}

/// `s` is ordered by non-decreasing distance to `target`.
pub open spec fn sorted_asc(s: Seq<PeerId>, target: Key) -> bool {
    forall|a: int, b: int|
        0 <= a < b < s.len() ==> #[trigger] peer_dist(s[a], target).spec_le(
            #[trigger] peer_dist(s[b], target),
        )
}

/// `s` is ordered by non-increasing distance to `target`.
pub open spec fn sorted_desc(s: Seq<PeerId>, target: Key) -> bool {
    forall|a: int, b: int|
        0 <= a < b < s.len() ==> #[trigger] peer_dist(s[b], target).spec_le(
            #[trigger] peer_dist(s[a], target),
        )
}

/// The distance from a peer's key to `target`.
pub fn peer_distance(p: PeerId, target: &Key) -> (r: Distance)
    ensures
        r == peer_dist(p, *target),
{
    Key::from_peer_id(p).distance(target)
}

/// The position at which `d` enters a sequence ordered by non-decreasing
/// distance, after every entry that is not farther than `d`.
pub fn insert_pos_asc(v: &Vec<PeerId>, target: &Key, d: &Distance) -> (r: usize)
    requires
        sorted_asc(v@, *target),
    ensures
        r <= v@.len(),
        forall|a: int| 0 <= a < r ==> (#[trigger] peer_dist(v@[a], *target)).spec_le(*d),
        forall|a: int| r <= a < v@.len() ==> d.spec_lt(#[trigger] peer_dist(v@[a], *target)),
{
    let mut i: usize = v.len();
    while i > 0
        invariant
            i <= v@.len(),
            sorted_asc(v@, *target),
            forall|a: int| i <= a < v@.len() ==> d.spec_lt(#[trigger] peer_dist(v@[a], *target)),
        decreases i,
    {
        let di = peer_distance(v[i - 1], target);
        if di.is_less(d) || di == *d {
            proof {
                assert forall|a: int| 0 <= a < i implies (#[trigger] peer_dist(
                    v@[a],
                    *target,
                )).spec_le(*d) by {
                    if a < i - 1 {
                        assert(peer_dist(v@[a], *target).spec_le(peer_dist(v@[i - 1], *target)));
                    }
                }
            }
            return i;
        }
        i = i - 1;
    }
    0
}

/// The position at which `d` enters a sequence ordered by non-increasing
/// distance, after every entry that is farther than `d`.
pub fn insert_pos_desc(v: &Vec<PeerId>, target: &Key, d: &Distance) -> (r: usize)
    requires
        sorted_desc(v@, *target),
    ensures
        r <= v@.len(),
        forall|a: int| 0 <= a < r ==> d.spec_lt(#[trigger] peer_dist(v@[a], *target)),
        forall|a: int| r <= a < v@.len() ==> (#[trigger] peer_dist(v@[a], *target)).spec_le(*d),
{
    let mut i: usize = v.len();
    while i > 0
        invariant
            i <= v@.len(),
            sorted_desc(v@, *target),
            forall|a: int| i <= a < v@.len() ==> (#[trigger] peer_dist(v@[a], *target)).spec_le(*d),
        decreases i,
    {
        let di = peer_distance(v[i - 1], target);
        if d.is_less(&di) {
            proof {
                assert forall|a: int| 0 <= a < i implies d.spec_lt(
                    #[trigger] peer_dist(v@[a], *target),
                ) by {
                    if a < i - 1 {
                        assert(peer_dist(v@[i - 1], *target).spec_le(peer_dist(v@[a], *target)));
                    }
                }
            }
            return i;
        }
        i = i - 1;
    }
    0
}

/// Inserting `x` at a position that respects the order keeps `v` ordered.
pub proof fn lemma_insert_asc(v: Seq<PeerId>, target: Key, pos: int, x: PeerId)
    requires
        sorted_asc(v, target),
        0 <= pos <= v.len(),
        forall|a: int| 0 <= a < pos ==> (#[trigger] peer_dist(v[a], target)).spec_le(
            peer_dist(x, target),
        ),
        forall|a: int| pos <= a < v.len() ==> peer_dist(x, target).spec_lt(
            #[trigger] peer_dist(v[a], target),
        ),
    ensures
        sorted_asc(v.insert(pos, x), target),
{
    let w = v.insert(pos, x);
    assert forall|a: int, b: int| 0 <= a < b < w.len() implies #[trigger] peer_dist(
        w[a],
        target,
    ).spec_le(#[trigger] peer_dist(w[b], target)) by {
        if a < pos && b == pos {
        } else if a < pos && b > pos {
            assert(w[b] == v[b - 1]);
        } else if a == pos {
            assert(w[b] == v[b - 1]);
        } else if b < pos {
        } else {
            assert(w[a] == v[a - 1]);
            assert(w[b] == v[b - 1]);
        }
    }
}

/// Inserting `x` at a position that respects the order keeps `v` ordered.
pub proof fn lemma_insert_desc(v: Seq<PeerId>, target: Key, pos: int, x: PeerId)
    requires
        sorted_desc(v, target),
        0 <= pos <= v.len(),
        forall|a: int| 0 <= a < pos ==> peer_dist(x, target).spec_lt(
            #[trigger] peer_dist(v[a], target),
        ),
        forall|a: int| pos <= a < v.len() ==> (#[trigger] peer_dist(v[a], target)).spec_le(
            peer_dist(x, target),
        ),
    ensures
        sorted_desc(v.insert(pos, x), target),
{
    let w = v.insert(pos, x);
    assert forall|a: int, b: int| 0 <= a < b < w.len() implies #[trigger] peer_dist(
        w[b],
        target,
    ).spec_le(#[trigger] peer_dist(w[a], target)) by {
        if a < pos && b == pos {
        } else if a < pos && b > pos {
            assert(w[b] == v[b - 1]);
        } else if a == pos {
            assert(w[b] == v[b - 1]);
        } else if b < pos {
        } else {
            assert(w[a] == v[a - 1]);
            assert(w[b] == v[b - 1]);
        }
    }
}

/// The peers of `ids`, ordered by non-decreasing distance to `target`;
/// peers at equal distance keep their order.
pub fn sort_by_distance(ids: &Vec<PeerId>, target: &Key) -> (r: Vec<PeerId>)
    ensures
        r@.len() == ids@.len(),
        sorted_asc(r@, *target),
        forall|a: int| 0 <= a < r@.len() ==> ids@.contains(#[trigger] r@[a]),
        forall|a: int| 0 <= a < ids@.len() ==> r@.contains(#[trigger] ids@[a]),
        ids@.no_duplicates() ==> r@.no_duplicates(),
{
    let mut r: Vec<PeerId> = Vec::new();
    let mut i: usize = 0;
    while i < ids.len()
        invariant
            i <= ids@.len(),
            r@.len() == i,
            sorted_asc(r@, *target),
            forall|a: int| 0 <= a < r@.len() ==> ids@.subrange(0, i as int).contains(#[trigger] r@[a]),
            forall|a: int| 0 <= a < i ==> r@.contains(#[trigger] ids@[a]),
            ids@.no_duplicates() ==> r@.no_duplicates(),
        decreases ids@.len() - i,
    {
        let x = ids[i];
        let d = peer_distance(x, target);
        let pos = insert_pos_asc(&r, target, &d);
        proof {
            lemma_insert_asc(r@, *target, pos as int, x);
        }
        let ghost old_r = r@;
        r.insert(pos, x);
        proof {
            assert forall|a: int| 0 <= a < r@.len() implies ids@.subrange(0, i + 1).contains(
                #[trigger] r@[a],
            ) by {
                if a < pos {
                    assert(r@[a] == old_r[a]);
                    let j = choose|j: int| 0 <= j < i && ids@.subrange(0, i as int)[j] == old_r[a];
                    assert(ids@.subrange(0, i + 1)[j] == r@[a]);
                } else if a == pos {
                    assert(ids@.subrange(0, i + 1)[i as int] == x);
                } else {
                    assert(r@[a] == old_r[a - 1]);
                    let j = choose|j: int|
                        0 <= j < i && ids@.subrange(0, i as int)[j] == old_r[a - 1];
                    assert(ids@.subrange(0, i + 1)[j] == r@[a]);
                }
            }
            assert forall|a: int| 0 <= a < i + 1 implies r@.contains(#[trigger] ids@[a]) by {
                if a == i {
                    assert(r@[pos as int] == x);
                } else {
                    let j = choose|j: int| 0 <= j < old_r.len() && old_r[j] == ids@[a];
                    if j < pos {
                        assert(r@[j] == ids@[a]);
                    } else {
                        assert(r@[j + 1] == ids@[a]);
                    }
                }
            }
            if ids@.no_duplicates() {
                assert(!old_r.contains(x)) by {
                    if old_r.contains(x) {
                        let j = choose|j: int| 0 <= j < old_r.len() && old_r[j] == x;
                        let m = choose|m: int|
                            0 <= m < i && ids@.subrange(0, i as int)[m] == old_r[j];
                        assert(ids@[m] == ids@[i as int]);
                    }
                }
                assert forall|a: int, b: int|
                    0 <= a < r@.len() && 0 <= b < r@.len() && a != b implies r@[a] != r@[b] by {
                    if a == pos {
                        if b < pos {
                            assert(old_r[b] == r@[b]);
                        } else {
                            assert(old_r[b - 1] == r@[b]);
                        }
                    } else if b == pos {
                        if a < pos {
                            assert(old_r[a] == r@[a]);
                        } else {
                            assert(old_r[a - 1] == r@[a]);
                        }
                    } else {
                        let a1 = if a < pos { a } else { a - 1 };
                        let b1 = if b < pos { b } else { b - 1 };
                        assert(old_r[a1] == r@[a]);
                        assert(old_r[b1] == r@[b]);
                    }
                }
            }
        }
        i = i + 1;
    }
    proof {
        assert(ids@.subrange(0, ids@.len() as int) =~= ids@);
    }
    r
}

} // verus!
