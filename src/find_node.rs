//! The alpha-parallel iterative FIND_NODE lookup.
use std::collections::HashSet;
use vstd::prelude::*;

use crate::key::{peer_key, Key};
use crate::keys_tree::{entry_peers, is_closest, KeyEntry, KeysTree};
use crate::message::FindNodeRequest;
use crate::bucket::prefix;
use crate::order::{
    insert_pos_asc, insert_pos_desc, lemma_insert_asc, lemma_insert_desc, peer_dist,
    peer_distance, sorted_asc, sorted_desc,
};
use crate::query::{QueryId, QueryState, QueryTrigger};
use crate::PeerId;

verus! {

broadcast use vstd::std_specs::hash::group_hash_axioms;

/// The outcome of a response: the requests to send next, or the target key
/// and the closest peers found.
pub type FindNodeQueryState = QueryState<Vec<(PeerId, FindNodeRequest)>, (Key, Vec<PeerId>)>;

/// Represents a query to find the closest peers to a target key.
#[derive(Debug)]
pub struct FindNodeQuery {
    trigger: QueryTrigger,
    target_key: Key,
    /// waiting + responded + next
    peers_all: HashSet<PeerId>,
    /// sorted by distance to the target, closest first
    peers_responded: Vec<PeerId>,
    peers_waiting: Vec<PeerId>,
    /// sorted by distance to the target, closest last
    peers_next: Vec<PeerId>,
    k: usize,
    alpha: usize,
}

/// The three peer collections partition `all`, each without repeats.
pub open spec fn partitioned(
    all: Set<PeerId>,
    responded: Seq<PeerId>,
    waiting: Seq<PeerId>,
    next: Seq<PeerId>,
) -> bool {
    &&& forall|p: PeerId|
        #[trigger] all.contains(p) <==> (responded.contains(p) || waiting.contains(p)
            || next.contains(p))
    &&& responded.no_duplicates()
    &&& waiting.no_duplicates()
    &&& next.no_duplicates()
    &&& responded.disjoint(waiting)
    &&& responded.disjoint(next)
    &&& waiting.disjoint(next)
}

/// The lookup may stop: either at least `k` peers have responded and the
/// closest candidate not yet asked is farther than the `k`-th closest of
/// them, or fewer than `k` have responded and nobody is left to ask or to
/// wait for.
pub open spec fn lookup_done(
    responded: Seq<PeerId>,
    waiting: Set<PeerId>,
    pool: Set<PeerId>,
    k: nat,
    target: Key,
) -> bool {
    if responded.len() >= k {
        (exists|c: PeerId| pool.contains(c)) && forall|c: PeerId|
            #[trigger] pool.contains(c) ==> peer_dist(responded[k - 1], target).spec_lt(
                peer_dist(c, target),
            )
    } else {
        waiting.is_empty() && pool.is_empty()
    }
}

/// `s` without its item `p` (which it holds once), the last item taking
/// its place.
pub open spec fn swap_out(s: Seq<PeerId>, p: PeerId) -> Seq<PeerId> {
    let i = choose|i: int| 0 <= i < s.len() && s[i] == p;
    s.update(i, s.last()).drop_last()
}

/// The peers that a list of requests goes to.
pub open spec fn sent_peers(reqs: Seq<(PeerId, FindNodeRequest)>) -> Seq<PeerId> {
    reqs.map_values(|x: (PeerId, FindNodeRequest)| x.0)
}

proof fn lemma_to_set_empty(s: Seq<PeerId>)
    ensures
        s.to_set().is_empty() <==> s.len() == 0,
{
    if s.len() > 0 {
        assert(s.to_set().contains(s[0]));
    } else {
        assert(s.to_set() =~= Set::<PeerId>::empty());
    }
}

impl FindNodeQuery {
    pub closed spec fn spec_trigger(&self) -> QueryTrigger {
        self.trigger
    }

    pub closed spec fn target(&self) -> Key {
        self.target_key
    }

    pub closed spec fn all(&self) -> Set<PeerId> {
        self.peers_all@
    }

    pub closed spec fn responded(&self) -> Seq<PeerId> {
        self.peers_responded@
    }

    pub closed spec fn waiting(&self) -> Seq<PeerId> {
        self.peers_waiting@
    }

    pub closed spec fn next(&self) -> Seq<PeerId> {
        self.peers_next@
    }

    pub closed spec fn spec_k(&self) -> nat {
        self.k as nat
    }

    pub closed spec fn spec_alpha(&self) -> nat {
        self.alpha as nat
    }

    /// `all` is the disjoint union of `responded`, `waiting` and `next`;
    /// at most `alpha` requests are outstanding; `responded` is ordered by
    /// ascending and `next` by descending distance to the target.
    pub open spec fn wf(&self) -> bool {
        &&& self.spec_k() >= 1
        &&& self.spec_alpha() >= 1
        &&& partitioned(self.all(), self.responded(), self.waiting(), self.next())
        &&& self.waiting().len() <= self.spec_alpha()
        &&& sorted_asc(self.responded(), self.target())
        &&& sorted_desc(self.next(), self.target())
    }

    /// Creates a query for the peers closest to `target_key`, started by
    /// `self_id` for the reason `trigger`, that stops at `k` peers and keeps
    /// at most `alpha` requests outstanding. Also returns the request that
    /// the peer sends itself to start the lookup.
    pub fn new(
        query_id: QueryId,
        trigger: QueryTrigger,
        target_key: Key,
        self_id: PeerId,
        k: usize,
        alpha: usize,
    ) -> (r: (FindNodeQuery, FindNodeRequest))
        requires
            k >= 1,
            alpha >= 1,
        ensures
            r.0.wf(),
            r.0.spec_trigger() == trigger,
            r.0.target() == target_key,
            r.0.spec_k() == k,
            r.0.spec_alpha() == alpha,
            r.0.all() == set![self_id],
            r.0.waiting() == seq![self_id],
            r.0.responded() == Seq::<PeerId>::empty(),
            r.0.next() == Seq::<PeerId>::empty(),
            r.1.query_id == query_id,
            r.1.key == target_key,
    {
        let mut all = HashSet::new();
        all.insert(self_id);
        let mut waiting = Vec::new();
        waiting.push(self_id);
        let query = FindNodeQuery {
            trigger,
            target_key,
            peers_all: all,
            peers_responded: Vec::new(),
            peers_waiting: waiting,
            peers_next: Vec::new(),
            k,
            alpha,
        };
        proof {
            assert(query.all() =~= set![self_id]);
            assert(query.waiting() =~= seq![self_id]);
            assert forall|p: PeerId| #[trigger] query.all().contains(p) <==> (
            query.responded().contains(p) || query.waiting().contains(p)
                || query.next().contains(p)) by {
                if p == self_id {
                    assert(query.waiting()[0] == p);
                }
            }
        }
        let request = FindNodeRequest { query_id, key: target_key };
        (query, request)
    }

    /// Returns the trigger that initiated the query.
    pub fn trigger(&self) -> (r: QueryTrigger)
        ensures
            r == self.spec_trigger(),
    {
        self.trigger
    }

    /// Returns the key that the query looks for.
    pub fn target_key(&self) -> (r: Key)
        ensures
            r == self.target(),
    {
        self.target_key
    }

    /// Adds each peer of `closest` not seen before to `all` and to `next`.
    fn absorb_candidates(&mut self, closest: &Vec<PeerId>)
        requires
            partitioned(old(self).all(), old(self).responded(), old(self).waiting(), old(self).next()),
            sorted_desc(old(self).next(), old(self).target()),
        ensures
            partitioned(final(self).all(), final(self).responded(), final(self).waiting(), final(self).next()),
            sorted_desc(final(self).next(), final(self).target()),
            final(self).all() == old(self).all().union(closest@.to_set()),
            final(self).next().to_set() == old(self).next().to_set().union(
                closest@.to_set().difference(old(self).all()),
            ),
            final(self).responded() == old(self).responded(),
            final(self).waiting() == old(self).waiting(),
            final(self).target() == old(self).target(),
            final(self).spec_trigger() == old(self).spec_trigger(),
            final(self).spec_k() == old(self).spec_k(),
            final(self).spec_alpha() == old(self).spec_alpha(),
    {
        let ghost o_all = self.all();
        let ghost o_next = self.next();
        let mut i: usize = 0;
        while i < closest.len()
            invariant
                i <= closest@.len(),
                partitioned(self.all(), self.responded(), self.waiting(), self.next()),
                sorted_desc(self.next(), self.target()),
                self.all() == o_all.union(closest@.subrange(0, i as int).to_set()),
                self.next().to_set() == o_next.to_set().union(
                    closest@.subrange(0, i as int).to_set().difference(o_all),
                ),
                self.responded() == old(self).responded(),
                self.waiting() == old(self).waiting(),
                self.target() == old(self).target(),
                self.spec_trigger() == old(self).spec_trigger(),
                self.spec_k() == old(self).spec_k(),
                self.spec_alpha() == old(self).spec_alpha(),
            decreases closest@.len() - i,
        {
            let c = closest[i];
            let ghost pre_sub = closest@.subrange(0, i as int);
            let ghost sub = closest@.subrange(0, i + 1);
            assert(sub =~= pre_sub.push(c));
            assert forall|x: PeerId| sub.contains(x) <==> (pre_sub.contains(x) || x == c) by {
                if sub.contains(x) {
                    let j = choose|j: int| 0 <= j < sub.len() && sub[j] == x;
                    if j < i {
                        assert(pre_sub[j] == x);
                    }
                }
                if pre_sub.contains(x) {
                    let j = choose|j: int| 0 <= j < pre_sub.len() && pre_sub[j] == x;
                    assert(sub[j] == x);
                }
                if x == c {
                    assert(sub[i as int] == x);
                }
            }
            assert(sub.to_set() =~= pre_sub.to_set().insert(c));
            let ghost pre_next = self.next();
            let ghost pre_all = self.all();
            if self.peers_all.insert(c) {
                let d = peer_distance(c, &self.target_key);
                let pos = insert_pos_desc(&self.peers_next, &self.target_key, &d);
                proof {
                    lemma_insert_desc(self.next(), self.target(), pos as int, c);
                }
                self.peers_next.insert(pos, c);
                proof {
                    let nx = self.next();
                    assert(nx =~= pre_next.insert(pos as int, c));
                    assert forall|q: PeerId| nx.contains(q) <==> (pre_next.contains(q) || q == c) by {
                        if nx.contains(q) {
                            let j = choose|j: int| 0 <= j < nx.len() && nx[j] == q;
                            if j < pos {
                                assert(pre_next[j] == q);
                            } else if j > pos {
                                assert(pre_next[j - 1] == q);
                            }
                        }
                        if pre_next.contains(q) {
                            let j = choose|j: int| 0 <= j < pre_next.len() && pre_next[j] == q;
                            if j < pos {
                                assert(nx[j] == q);
                            } else {
                                assert(nx[j + 1] == q);
                            }
                        }
                        if q == c {
                            assert(nx[pos as int] == c);
                        }
                    }
                    assert(!pre_next.contains(c));
                    assert(!self.responded().contains(c));
                    assert(!self.waiting().contains(c));
                    assert(nx.no_duplicates()) by {
                        assert forall|x: int, y: int| 0 <= x < nx.len() && 0 <= y < nx.len() && x != y implies nx[x] != nx[y] by {
                            if x == pos {
                                if y < pos { assert(nx[y] == pre_next[y]); } else { assert(nx[y] == pre_next[y - 1]); }
                            } else if y == pos {
                                if x < pos { assert(nx[x] == pre_next[x]); } else { assert(nx[x] == pre_next[x - 1]); }
                            } else {
                                let x1 = if x < pos { x } else { x - 1 };
                                let y1 = if y < pos { y } else { y - 1 };
                                assert(nx[x] == pre_next[x1] && nx[y] == pre_next[y1]);
                            }
                        }
                    }
                    assert(self.responded().disjoint(nx)) by {
                        assert forall|x: int, y: int| 0 <= x < self.responded().len() && 0 <= y < nx.len() implies self.responded()[x] != nx[y] by {
                            if y != pos {
                                let y1 = if y < pos { y } else { y - 1 };
                                assert(nx[y] == pre_next[y1]);
                            } else {
                                assert(self.responded().contains(self.responded()[x]));
                            }
                        }
                    }
                    assert(self.waiting().disjoint(nx)) by {
                        assert forall|x: int, y: int| 0 <= x < self.waiting().len() && 0 <= y < nx.len() implies self.waiting()[x] != nx[y] by {
                            if y != pos {
                                let y1 = if y < pos { y } else { y - 1 };
                                assert(nx[y] == pre_next[y1]);
                            } else {
                                assert(self.waiting().contains(self.waiting()[x]));
                            }
                        }
                    }
                    assert(self.all() =~= o_all.union(sub.to_set()));
                    assert(!o_all.contains(c));
                    assert forall|q: PeerId| nx.to_set().contains(q) <==> o_next.to_set().union(sub.to_set().difference(o_all)).contains(q) by {
                        assert(pre_next.to_set().contains(q) <==> pre_next.contains(q));
                        assert(nx.to_set().contains(q) <==> nx.contains(q));
                    }
                    assert(nx.to_set() =~= o_next.to_set().union(sub.to_set().difference(o_all)));
                }
            } else {
                proof {
                    assert(self.all() =~= o_all.union(sub.to_set()));
                    assert(self.next().to_set() =~= o_next.to_set().union(sub.to_set().difference(o_all)));
                }
            }
            i = i + 1;
        }
        proof {
            assert(closest@.subrange(0, closest@.len() as int) =~= closest@);
        }
    }

    /// The closest peers found, if the lookup may stop now.
    fn check_if_completed(&self) -> (r: Option<Vec<PeerId>>)
        requires
            self.spec_k() >= 1,
            sorted_desc(self.next(), self.target()),
        ensures
            r.is_some() == lookup_done(
                self.responded(),
                self.waiting().to_set(),
                self.next().to_set(),
                self.spec_k(),
                self.target(),
            ),
            r.is_some() ==> r.unwrap()@ == prefix(self.responded(), self.spec_k() as int),
    {
        proof {
            lemma_to_set_empty(self.waiting());
            lemma_to_set_empty(self.next());
        }
        if self.peers_responded.len() >= self.k {
            if self.peers_next.len() > 0 {
                let last = self.peers_next[self.peers_next.len() - 1];
                let kth = self.peers_responded[self.k - 1];
                let d_last = peer_distance(last, &self.target_key);
                let d_kth = peer_distance(kth, &self.target_key);
                if d_kth.is_less(&d_last) {
                    proof {
                        let nx = self.next();
                        assert(nx.to_set().contains(last));
                        assert forall|c: PeerId| #[trigger] nx.to_set().contains(c) implies peer_dist(
                            self.responded()[self.spec_k() - 1],
                            self.target(),
                        ).spec_lt(peer_dist(c, self.target())) by {
                            let j = choose|j: int| 0 <= j < nx.len() && nx[j] == c;
                            if j < nx.len() - 1 {
                                assert(peer_dist(nx[nx.len() - 1], self.target()).spec_le(
                                    peer_dist(nx[j], self.target()),
                                ));
                            }
                        }
                    }
                    let mut ans: Vec<PeerId> = Vec::new();
                    let mut i: usize = 0;
                    while i < self.k
                        invariant
                            i <= self.spec_k() <= self.responded().len(),
                            ans@ == self.responded().subrange(0, i as int),
                        decreases self.spec_k() - i,
                    {
                        ans.push(self.peers_responded[i]);
                        assert(ans@ =~= self.responded().subrange(0, i + 1));
                        i = i + 1;
                    }
                    return Some(ans);
                } else {
                    proof {
                        assert(self.next().to_set().contains(last));
                    }
                }
            }
            None
        } else if self.peers_waiting.len() == 0 && self.peers_next.len() == 0 {
            let mut ans: Vec<PeerId> = Vec::new();
            let mut i: usize = 0;
            while i < self.peers_responded.len()
                invariant
                    i <= self.responded().len(),
                    ans@ == self.responded().subrange(0, i as int),
                decreases self.responded().len() - i,
            {
                ans.push(self.peers_responded[i]);
                assert(ans@ =~= self.responded().subrange(0, i + 1));
                i = i + 1;
            }
            assert(ans@ =~= self.responded());
            Some(ans)
        } else {
            None
        }
    }

    /// How a response of `src_id` to query `query_id`, carrying
    /// `closest`, takes the query from `o` to `f` with outcome `r`.
    pub open spec fn response_post(
        o: FindNodeQuery,
        f: FindNodeQuery,
        src_id: PeerId,
        query_id: QueryId,
        closest: Seq<PeerId>,
        r: FindNodeQueryState,
    ) -> bool {
        &&& f.wf()
        &&& f.target() == o.target()
        &&& f.spec_trigger() == o.spec_trigger()
        &&& f.spec_k() == o.spec_k()
        &&& f.spec_alpha() == o.spec_alpha()
        &&& !o.waiting().contains(src_id) ==> {
            &&& f.all() == o.all()
            &&& f.responded() == o.responded()
            &&& f.waiting() == o.waiting()
            &&& f.next() == o.next()
            &&& r matches QueryState::InProgress(v) && v@.len() == 0
        }
        &&& o.waiting().contains(src_id) ==> {
            let k = o.spec_k();
            let target = o.target();
            let pool = o.next().to_set().union(closest.to_set().difference(o.all()));
            let w = o.waiting().to_set().remove(src_id);
            &&& f.responded().to_set() == o.responded().to_set().insert(src_id)
            &&& f.all() == o.all().union(closest.to_set())
            &&& match r {
                QueryState::Completed((key, peers)) => {
                    &&& lookup_done(f.responded(), w, pool, k, target)
                    &&& key == target
                    &&& peers@ == prefix(f.responded(), k as int)
                    &&& peers@.len() <= k
                    &&& forall|a: int| 0 <= a < peers@.len() ==> f.responded().contains(#[trigger] peers@[a])
                    &&& f.waiting() == swap_out(o.waiting(), src_id)
                    &&& f.waiting().to_set() == w
                    &&& f.next().to_set() == pool
                },
                QueryState::InProgress(reqs) => {
                    let sent = sent_peers(reqs@);
                    &&& !lookup_done(f.responded(), w, pool, k, target)
                    &&& f.waiting() == swap_out(o.waiting(), src_id) + sent
                    &&& sorted_asc(sent, target)
                    &&& f.waiting().to_set() == w.union(sent.to_set())
                    &&& f.next().to_set().union(sent.to_set()) == pool
                    &&& sent.disjoint(f.next())
                    &&& sent.len() + o.waiting().len() - 1 <= o.spec_alpha()
                    &&& (sent.len() + o.waiting().len() - 1 == o.spec_alpha() || f.next().len() == 0)
                    &&& forall|a: int, b: int|
                        0 <= a < sent.len() && 0 <= b < f.next().len() ==> peer_dist(
                            #[trigger] sent[a],
                            target,
                        ).spec_le(peer_dist(#[trigger] f.next()[b], target))
                    &&& forall|a: int|
                        0 <= a < reqs@.len() ==> (#[trigger] reqs@[a]).1.query_id == query_id
                            && reqs@[a].1.key == target
                },
            }
        }
    }

    /// Handles the response of `src_id` to the request of query `query_id`,
    /// which carries the peers that `src_id` knows closest to the target.
    /// A response from a peer that is not awaited changes nothing. Else the
    /// peer counts as responded, the peers not seen before become
    /// candidates, and then either the lookup stops with the `k` closest
    /// responded peers, or requests go to the closest candidates until
    /// `alpha` are outstanding.
    pub fn on_response(
        &mut self,
        src_id: PeerId,
        query_id: QueryId,
        closest_peers: Vec<PeerId>,
    ) -> (r: FindNodeQueryState)
        requires
            old(self).wf(),
        ensures
            FindNodeQuery::response_post(*old(self), *final(self), src_id, query_id, closest_peers@, r),
    {
        let mut idx: Option<usize> = None;
        let mut i: usize = 0;
        while i < self.peers_waiting.len()
            invariant
                i <= self.waiting().len(),
                idx.is_none() ==> forall|j: int| 0 <= j < i ==> self.waiting()[j] != src_id,
                idx.is_some() ==> idx.unwrap() < self.waiting().len() && self.waiting()[idx.unwrap() as int] == src_id,
            decreases self.waiting().len() - i,
        {
            if idx.is_none() && self.peers_waiting[i] == src_id {
                idx = Some(i);
            }
            i = i + 1;
        }
        let i = match idx {
            None => {
                return QueryState::InProgress(Vec::new());
            },
            Some(i) => i,
        };
        let ghost o_wait = self.waiting();
        let ghost o_resp = self.responded();
        let ghost o_all = self.all();
        let ghost o_next = self.next();
        self.peers_waiting.swap_remove(i);
        proof {
            let wt = self.waiting();
            assert(wt =~= o_wait.update(i as int, o_wait.last()).drop_last());
            assert forall|q: PeerId| wt.contains(q) <==> (o_wait.contains(q) && q != src_id) by {
                if wt.contains(q) {
                    let j = choose|j: int| 0 <= j < wt.len() && wt[j] == q;
                    if j == i {
                        assert(o_wait[o_wait.len() - 1] == q);
                    } else {
                        assert(o_wait[j] == q);
                    }
                }
                if o_wait.contains(q) && q != src_id {
                    let j = choose|j: int| 0 <= j < o_wait.len() && o_wait[j] == q;
                    if j == o_wait.len() - 1 {
                        assert(wt[i as int] == q);
                    } else {
                        assert(wt[j] == q);
                    }
                }
            }
            assert(wt.no_duplicates()) by {
                assert forall|x: int, y: int| 0 <= x < wt.len() && 0 <= y < wt.len() && x != y implies wt[x] != wt[y] by {
                    let x1 = if x == i { o_wait.len() - 1 } else { x };
                    let y1 = if y == i { o_wait.len() - 1 } else { y };
                    assert(wt[x] == o_wait[x1] && wt[y] == o_wait[y1]);
                }
            }
            assert(wt.to_set() =~= o_wait.to_set().remove(src_id));
            let c = choose|c: int| 0 <= c < o_wait.len() && o_wait[c] == src_id;
            assert(c == i);
            assert(wt =~= swap_out(o_wait, src_id));
        }
        let ghost w_seq = self.waiting();
        let d = peer_distance(src_id, &self.target_key);
        let pos = insert_pos_asc(&self.peers_responded, &self.target_key, &d);
        proof {
            lemma_insert_asc(self.responded(), self.target(), pos as int, src_id);
            assert(!o_resp.contains(src_id)) by {
                if o_resp.contains(src_id) {
                    let j = choose|j: int| 0 <= j < o_resp.len() && o_resp[j] == src_id;
                    assert(o_resp[j] != o_wait[i as int]);
                }
            }
        }
        self.peers_responded.insert(pos, src_id);
        proof {
            let rs = self.responded();
            assert(rs =~= o_resp.insert(pos as int, src_id));
            assert forall|q: PeerId| rs.contains(q) <==> (o_resp.contains(q) || q == src_id) by {
                if rs.contains(q) {
                    let j = choose|j: int| 0 <= j < rs.len() && rs[j] == q;
                    if j < pos {
                        assert(o_resp[j] == q);
                    } else if j > pos {
                        assert(o_resp[j - 1] == q);
                    }
                }
                if o_resp.contains(q) {
                    let j = choose|j: int| 0 <= j < o_resp.len() && o_resp[j] == q;
                    if j < pos {
                        assert(rs[j] == q);
                    } else {
                        assert(rs[j + 1] == q);
                    }
                }
                if q == src_id {
                    assert(rs[pos as int] == q);
                }
            }
            assert(rs.to_set() =~= o_resp.to_set().insert(src_id));
            assert(rs.no_duplicates()) by {
                assert forall|x: int, y: int| 0 <= x < rs.len() && 0 <= y < rs.len() && x != y implies rs[x] != rs[y] by {
                    if x == pos {
                        if y < pos { assert(rs[y] == o_resp[y]); } else { assert(rs[y] == o_resp[y - 1]); }
                    } else if y == pos {
                        if x < pos { assert(rs[x] == o_resp[x]); } else { assert(rs[x] == o_resp[x - 1]); }
                    } else {
                        let x1 = if x < pos { x } else { x - 1 };
                        let y1 = if y < pos { y } else { y - 1 };
                        assert(rs[x] == o_resp[x1] && rs[y] == o_resp[y1]);
                    }
                }
            }
            let wt = self.waiting();
            assert(rs.disjoint(wt)) by {
                assert forall|x: int, y: int| 0 <= x < rs.len() && 0 <= y < wt.len() implies rs[x] != wt[y] by {
                    assert(wt.contains(wt[y]));
                    assert(rs.contains(rs[x]));
                    if rs[x] != src_id {
                        assert(o_resp.contains(rs[x]));
                        let a = choose|a: int| 0 <= a < o_resp.len() && o_resp[a] == rs[x];
                        let b = choose|b: int| 0 <= b < o_wait.len() && o_wait[b] == wt[y];
                        assert(o_resp[a] != o_wait[b]);
                    }
                }
            }
            assert(rs.disjoint(o_next)) by {
                assert forall|x: int, y: int| 0 <= x < rs.len() && 0 <= y < o_next.len() implies rs[x] != o_next[y] by {
                    assert(rs.contains(rs[x]));
                    if rs[x] != src_id {
                        let a = choose|a: int| 0 <= a < o_resp.len() && o_resp[a] == rs[x];
                        assert(o_resp[a] != o_next[y]);
                    } else {
                        assert(o_wait[i as int] != o_next[y]);
                    }
                }
            }
            assert(wt.disjoint(o_next)) by {
                assert forall|x: int, y: int| 0 <= x < wt.len() && 0 <= y < o_next.len() implies wt[x] != o_next[y] by {
                    assert(wt.contains(wt[x]));
                    let b = choose|b: int| 0 <= b < o_wait.len() && o_wait[b] == wt[x];
                    assert(o_wait[b] != o_next[y]);
                }
            }
            assert forall|p: PeerId| #[trigger] o_all.contains(p) <==> (rs.contains(p) || wt.contains(p) || o_next.contains(p)) by {
                if p == src_id {
                    assert(o_wait.contains(p));
                }
            }
        }
        self.absorb_candidates(&closest_peers);
        let ghost pool = self.next().to_set();
        let ghost w = self.waiting().to_set();
        if let Some(peers) = self.check_if_completed() {
            proof {
                assert forall|a: int| 0 <= a < peers@.len() implies self.responded().contains(#[trigger] peers@[a]) by {
                    assert(self.responded()[a] == peers@[a]);
                }
            }
            return QueryState::Completed((self.target_key, peers));
        }
        let result = self.dispatch(query_id);
        proof {
            let sent = sent_peers(result@);
            assert(self.wf());
        }
        QueryState::InProgress(result)
    }

    /// Sends requests to the closest candidates, moving them from `next` to
    /// `waiting`, until `alpha` requests are outstanding or no candidate is
    /// left.
    fn dispatch(&mut self, query_id: QueryId) -> (result: Vec<(PeerId, FindNodeRequest)>)
        requires
            old(self).wf(),
        ensures
            final(self).wf(),
            final(self).target() == old(self).target(),
            final(self).spec_trigger() == old(self).spec_trigger(),
            final(self).spec_k() == old(self).spec_k(),
            final(self).spec_alpha() == old(self).spec_alpha(),
            final(self).all() == old(self).all(),
            final(self).responded() == old(self).responded(),
            ({
                let sent = sent_peers(result@);
                &&& final(self).waiting() == old(self).waiting() + sent
                &&& sorted_asc(sent, old(self).target())
                &&& final(self).waiting().to_set() == old(self).waiting().to_set().union(sent.to_set())
                &&& final(self).next().to_set().union(sent.to_set()) == old(self).next().to_set()
                &&& sent.disjoint(final(self).next())
                &&& sent.len() + old(self).waiting().len() <= old(self).spec_alpha()
                &&& (sent.len() + old(self).waiting().len() == old(self).spec_alpha()
                    || final(self).next().len() == 0)
                &&& forall|a: int, b: int| 0 <= a < sent.len() && 0 <= b < final(self).next().len()
                    ==> peer_dist(#[trigger] sent[a], old(self).target()).spec_le(peer_dist(#[trigger] final(self).next()[b], old(self).target()))
                &&& forall|a: int| 0 <= a < result@.len() ==> (#[trigger] result@[a]).1.query_id == query_id
                    && result@[a].1.key == old(self).target()
            }),
    {
        let ghost w = old(self).waiting().to_set();
        let ghost pool = old(self).next().to_set();
        let mut result: Vec<(PeerId, FindNodeRequest)> = Vec::new();
        let mut exhausted = false;
        while self.peers_waiting.len() < self.alpha && !exhausted
            invariant
                exhausted ==> self.next().len() == 0,
                self.waiting() == old(self).waiting() + sent_peers(result@),
                sorted_asc(sent_peers(result@), self.target()),
                w == old(self).waiting().to_set(),
                pool == old(self).next().to_set(),
                self.spec_k() >= 1,
                self.spec_alpha() >= 1,
                self.target() == old(self).target(),
                self.spec_trigger() == old(self).spec_trigger(),
                self.spec_k() == old(self).spec_k(),
                self.spec_alpha() == old(self).spec_alpha(),
                partitioned(self.all(), self.responded(), self.waiting(), self.next()),
                sorted_asc(self.responded(), self.target()),
                sorted_desc(self.next(), self.target()),
                self.all() == old(self).all(),
                self.responded() == old(self).responded(),
                self.waiting().len() <= self.spec_alpha(),
                self.waiting().len() == old(self).waiting().len() + result@.len(),
                self.waiting().to_set() == old(self).waiting().to_set().union(sent_peers(result@).to_set()),
                self.next().to_set().union(sent_peers(result@).to_set()) == old(self).next().to_set(),
                sent_peers(result@).disjoint(self.next()),
                forall|a: int, b: int| 0 <= a < result@.len() && 0 <= b < self.next().len()
                    ==> peer_dist(#[trigger] sent_peers(result@)[a], self.target()).spec_le(peer_dist(#[trigger] self.next()[b], self.target())),
                forall|a: int| 0 <= a < result@.len() ==> (#[trigger] result@[a]).1.query_id == query_id
                    && result@[a].1.key == self.target(),
            decreases self.next().len() + if exhausted { 0int } else { 1int },
        {
            let ghost pre_next = self.next();
            let ghost pre_wait = self.waiting();
            let ghost pre_sent = sent_peers(result@);
            let ghost pre_result = result@;
            match self.peers_next.pop() {
                Some(p) => {
                    self.peers_waiting.push(p);
                    let request = FindNodeRequest { query_id, key: self.target_key };
                    result.push((p, request));
                    proof {
                        let nx = self.next();
                        let wt = self.waiting();
                        let sent = sent_peers(result@);
                        assert(sent =~= pre_sent.push(p));
                        assert(wt =~= old(self).waiting() + sent);
                        assert(sorted_asc(sent, self.target())) by {
                            assert forall|a: int, b: int| 0 <= a < b < sent.len() implies #[trigger] peer_dist(sent[a], self.target()).spec_le(
                                #[trigger] peer_dist(sent[b], self.target())) by {
                                if b == sent.len() - 1 {
                                    assert(sent[a] == pre_sent[a]);
                                    assert(sent[b] == pre_next[pre_next.len() - 1]);
                                } else {
                                    assert(sent[a] == pre_sent[a] && sent[b] == pre_sent[b]);
                                }
                            }
                        }
                        assert(nx =~= pre_next.drop_last());
                        assert(p == pre_next[pre_next.len() - 1]);
                        assert forall|q: PeerId| nx.contains(q) <==> (pre_next.contains(q) && q != p) by {
                            if nx.contains(q) {
                                let j = choose|j: int| 0 <= j < nx.len() && nx[j] == q;
                                assert(pre_next[j] == q);
                            }
                            if pre_next.contains(q) && q != p {
                                let j = choose|j: int| 0 <= j < pre_next.len() && pre_next[j] == q;
                                assert(nx[j] == q);
                            }
                        }
                        assert forall|q: PeerId| wt.contains(q) <==> (pre_wait.contains(q) || q == p) by {
                            if wt.contains(q) {
                                let j = choose|j: int| 0 <= j < wt.len() && wt[j] == q;
                                if j < pre_wait.len() {
                                    assert(pre_wait[j] == q);
                                }
                            }
                            if pre_wait.contains(q) {
                                let j = choose|j: int| 0 <= j < pre_wait.len() && pre_wait[j] == q;
                                assert(wt[j] == q);
                            }
                            if q == p {
                                assert(wt[wt.len() - 1] == q);
                            }
                        }
                        assert forall|q: PeerId| sent.contains(q) <==> (pre_sent.contains(q) || q == p) by {
                            if sent.contains(q) {
                                let j = choose|j: int| 0 <= j < sent.len() && sent[j] == q;
                                if j < pre_sent.len() {
                                    assert(pre_sent[j] == q);
                                }
                            }
                            if pre_sent.contains(q) {
                                let j = choose|j: int| 0 <= j < pre_sent.len() && pre_sent[j] == q;
                                assert(sent[j] == q);
                            }
                            if q == p {
                                assert(sent[sent.len() - 1] == q);
                            }
                        }
                        assert(pre_next.contains(p));
                        assert(!pre_wait.contains(p)) by {
                            if pre_wait.contains(p) {
                                let j = choose|j: int| 0 <= j < pre_wait.len() && pre_wait[j] == p;
                                assert(pre_wait[j] != pre_next[pre_next.len() - 1]);
                            }
                        }
                        assert(wt.no_duplicates()) by {
                            assert forall|x: int, y: int| 0 <= x < wt.len() && 0 <= y < wt.len() && x != y implies wt[x] != wt[y] by {
                                if x < pre_wait.len() && y < pre_wait.len() {
                                    assert(wt[x] == pre_wait[x] && wt[y] == pre_wait[y]);
                                } else if x < pre_wait.len() {
                                    assert(wt[x] == pre_wait[x]);
                                    assert(pre_wait.contains(wt[x]));
                                } else if y < pre_wait.len() {
                                    assert(wt[y] == pre_wait[y]);
                                    assert(pre_wait.contains(wt[y]));
                                }
                            }
                        }
                        assert(nx.no_duplicates()) by {
                            assert forall|x: int, y: int| 0 <= x < nx.len() && 0 <= y < nx.len() && x != y implies nx[x] != nx[y] by {
                                assert(nx[x] == pre_next[x] && nx[y] == pre_next[y]);
                            }
                        }
                        let rs = self.responded();
                        assert(rs.disjoint(wt)) by {
                            assert forall|x: int, y: int| 0 <= x < rs.len() && 0 <= y < wt.len() implies rs[x] != wt[y] by {
                                if y < pre_wait.len() {
                                    assert(wt[y] == pre_wait[y]);
                                } else {
                                    assert(wt[y] == pre_next[pre_next.len() - 1]);
                                }
                            }
                        }
                        assert(rs.disjoint(nx)) by {
                            assert forall|x: int, y: int| 0 <= x < rs.len() && 0 <= y < nx.len() implies rs[x] != nx[y] by {
                                assert(nx[y] == pre_next[y]);
                            }
                        }
                        assert(wt.disjoint(nx)) by {
                            assert forall|x: int, y: int| 0 <= x < wt.len() && 0 <= y < nx.len() implies wt[x] != nx[y] by {
                                assert(nx[y] == pre_next[y]);
                                if x < pre_wait.len() {
                                    assert(wt[x] == pre_wait[x]);
                                } else {
                                    assert(wt[x] == pre_next[pre_next.len() - 1]);
                                }
                            }
                        }
                        assert forall|q: PeerId| #[trigger] self.all().contains(q) <==> (rs.contains(q) || wt.contains(q) || nx.contains(q)) by {
                            if q == p {
                                assert(pre_next.contains(q));
                            }
                        }
                        assert(sorted_desc(nx, self.target())) by {
                            assert forall|a: int, b: int| 0 <= a < b < nx.len() implies #[trigger] peer_dist(nx[b], self.target()).spec_le(#[trigger] peer_dist(nx[a], self.target())) by {
                                assert(nx[a] == pre_next[a] && nx[b] == pre_next[b]);
                            }
                        }
                        assert forall|q: PeerId| wt.to_set().contains(q) <==> w.union(sent.to_set()).contains(q) by {
                            assert(wt.to_set().contains(q) == wt.contains(q));
                            assert(sent.to_set().contains(q) == sent.contains(q));
                            assert(pre_wait.to_set().contains(q) == pre_wait.contains(q));
                            assert(pre_sent.to_set().contains(q) == pre_sent.contains(q));
                        }
                        assert(wt.to_set() =~= w.union(sent.to_set()));
                        assert forall|q: PeerId| nx.to_set().union(sent.to_set()).contains(q) <==> pre_next.to_set().union(pre_sent.to_set()).contains(q) by {
                            assert(nx.to_set().contains(q) == nx.contains(q));
                            assert(sent.to_set().contains(q) == sent.contains(q));
                            assert(pre_next.to_set().contains(q) == pre_next.contains(q));
                            assert(pre_sent.to_set().contains(q) == pre_sent.contains(q));
                        }
                        assert(nx.to_set().union(sent.to_set()) =~= pool);
                        assert(sent.disjoint(nx)) by {
                            assert forall|x: int, y: int| 0 <= x < sent.len() && 0 <= y < nx.len() implies sent[x] != nx[y] by {
                                assert(nx[y] == pre_next[y]);
                                if x < pre_sent.len() {
                                    assert(sent[x] == pre_sent[x]);
                                } else {
                                    assert(sent[x] == pre_next[pre_next.len() - 1]);
                                }
                            }
                        }
                        assert forall|a: int, b: int| 0 <= a < result@.len() && 0 <= b < nx.len()
                            implies peer_dist(#[trigger] sent[a], self.target()).spec_le(peer_dist(#[trigger] nx[b], self.target())) by {
                            assert(nx[b] == pre_next[b]);
                            if a < pre_sent.len() {
                                assert(sent[a] == pre_sent[a]);
                            } else {
                                assert(sent[a] == pre_next[pre_next.len() - 1]);
                            }
                        }
                        assert forall|a: int| 0 <= a < result@.len() implies (#[trigger] result@[a]).1.query_id == query_id
                            && result@[a].1.key == self.target() by {
                            if a < result@.len() - 1 {
                                assert(result@[a] == pre_result[a]);
                            }
                        }
                    }
                },
                None => {
                    exhausted = true;
                },
            }
        }
        proof {
            assert(sent_peers(result@).len() == result@.len());
        }
        result
    }
}


/// How many items of `s` occur in `t`.
pub open spec fn count_in(s: Seq<PeerId>, t: Seq<PeerId>) -> nat
    decreases s.len(),
{
    if s.len() == 0 {
        0
    } else {
        count_in(s.drop_last(), t) + if t.contains(s.last()) {
            1nat
        } else {
            0nat
        }
    }
}

/// A lookup result whose peers are all among the oracle's closest scores
/// fully: `count_in` is then its length, so the correctness is 1.
pub proof fn lemma_full_score(result: Seq<PeerId>, correct: Seq<PeerId>)
    requires
        forall|a: int| 0 <= a < result.len() ==> correct.contains(#[trigger] result[a]),
    ensures
        count_in(result, correct) == result.len(),
    decreases result.len(),
{
    if result.len() > 0 {
        let d = result.drop_last();
        assert forall|a: int| 0 <= a < d.len() implies correct.contains(#[trigger] d[a]) by {
            assert(d[a] == result[a]);
        }
        lemma_full_score(d, correct);
        assert(correct.contains(result[result.len() - 1]));
    }
}

/// The number of peers of `result` that occur in `correct`.
pub fn count_contained(result: &[PeerId], correct: &Vec<PeerId>) -> (r: usize)
    ensures
        r == count_in(result@, correct@),
        r <= result@.len(),
{
    let mut n: usize = 0;
    let mut i: usize = 0;
    while i < result.len()
        invariant
            i <= result@.len(),
            n == count_in(result@.subrange(0, i as int), correct@),
            n <= i,
        decreases result@.len() - i,
    {
        assert(result@.subrange(0, i + 1).drop_last() =~= result@.subrange(0, i as int));
        let x = result[i];
        let mut found = false;
        let mut j: usize = 0;
        while j < correct.len()
            invariant
                j <= correct@.len(),
                found == correct@.subrange(0, j as int).contains(x),
            decreases correct@.len() - j,
        {
            if correct[j] == x {
                found = true;
                assert(correct@.subrange(0, j + 1)[j as int] == x);
            } else {
                proof {
                    if correct@.subrange(0, j + 1).contains(x) {
                        let m = choose|m: int| 0 <= m < j + 1 && #[trigger] correct@.subrange(0, j + 1)[m] == x;
                        assert(correct@.subrange(0, j as int)[m] == x);
                    }
                }
            }
            proof {
                if found && !correct@.subrange(0, j + 1).contains(x) {
                    let m = choose|m: int| 0 <= m < j && correct@.subrange(0, j as int)[m] == x;
                    assert(correct@.subrange(0, j + 1)[m] == x);
                }
            }
            j = j + 1;
        }
        assert(correct@.subrange(0, correct@.len() as int) =~= correct@);
        if found {
            n = n + 1;
        }
        i = i + 1;
    }
    assert(result@.subrange(0, result@.len() as int) =~= result@);
    n
}

/// The number of peers of `result` among the peers whose keys the oracle
/// finds closest to `target_key`, as many as `result` holds.
pub fn evaluate_closest_peers(oracle: &KeysTree, target_key: &Key, result: &[PeerId]) -> (r: usize)
    requires
        oracle.wf(),
        oracle.entries().len() <= usize::MAX,
    ensures
        r <= result@.len(),
        exists|chosen: Seq<KeyEntry>|
            is_closest(chosen, oracle.entries(), *target_key, result@.len() as nat)
                && r == count_in(result@, #[trigger] entry_peers(chosen)),
{
    let correct = oracle.find_closest_peers(target_key, result.len());
    let r = count_contained(result, &correct);
    proof {
        let chosen = choose|chosen: Seq<KeyEntry>| is_closest(chosen, oracle.entries(), *target_key, result@.len() as nat)
            && correct@ == #[trigger] entry_peers(chosen);
        assert(r == count_in(result@, entry_peers(chosen)));
    }
    r
}

/// A lookup in progress keeps `all` as the union of `responded`, `waiting`
/// and `next`, the three pairwise disjoint, and at most `alpha` requests
/// outstanding. `new` makes a well-formed query and `on_response` keeps it
/// so.
pub proof fn lemma_query_partition(q: &FindNodeQuery)
    requires
        q.wf(),
    ensures
        q.all() == q.responded().to_set().union(q.waiting().to_set()).union(q.next().to_set()),
        q.responded().disjoint(q.waiting()),
        q.responded().disjoint(q.next()),
        q.waiting().disjoint(q.next()),
        q.waiting().len() <= q.spec_alpha(),
{
    assert forall|p: PeerId| q.all().contains(p) <==> q.responded().to_set().union(q.waiting().to_set()).union(q.next().to_set()).contains(p) by {
        assert(q.responded().to_set().contains(p) == q.responded().contains(p));
        assert(q.waiting().to_set().contains(p) == q.waiting().contains(p));
        assert(q.next().to_set().contains(p) == q.next().contains(p));
    }
    assert(q.all() =~= q.responded().to_set().union(q.waiting().to_set()).union(q.next().to_set()));
}

/// In a lookup in progress `responded` is ordered by ascending distance to
/// the target and `next` by descending distance, both without repeats; two
/// entries at equal distance have equal keys.
pub proof fn lemma_query_order(q: &FindNodeQuery, a: int, b: int)
    requires
        q.wf(),
    ensures
        q.responded().no_duplicates(),
        q.next().no_duplicates(),
        0 <= a < b < q.responded().len() ==> peer_dist(q.responded()[a], q.target()).spec_le(
            peer_dist(q.responded()[b], q.target()),
        ),
        0 <= a < b < q.next().len() ==> peer_dist(q.next()[b], q.target()).spec_le(
            peer_dist(q.next()[a], q.target()),
        ),
        forall|x: PeerId, y: PeerId| peer_dist(x, q.target()) == peer_dist(y, q.target()) ==> peer_key(x) == peer_key(y),
{
    assert forall|x: PeerId, y: PeerId| peer_dist(x, q.target()) == peer_dist(y, q.target()) implies peer_key(x) == peer_key(y) by {
        let kx = peer_key(x);
        let ky = peer_key(y);
        let t = q.target();
        lemma_xor_injective(kx.w0, ky.w0, t.w0);
        lemma_xor_injective(kx.w1, ky.w1, t.w1);
        lemma_xor_injective(kx.w2, ky.w2, t.w2);
        lemma_xor_injective(kx.w3, ky.w3, t.w3);
    }
}

proof fn lemma_xor_injective(a: u64, b: u64, t: u64)
    ensures
        (a ^ t == b ^ t) ==> a == b,
{
    assert((a ^ t == b ^ t) ==> a == b) by (bit_vector);
}

} // verus!
