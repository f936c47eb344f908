//! The rumor store: one node's view of every rumor it knows, with the round
//! counters that decide when a rumor is pushed, offered on pull, or retired.

use core::cmp::Ordering;
use vstd::prelude::*;

use crate::digest::{
    compare_digests, digest_lt, lemma_digest_lt_irreflexive, lemma_digest_lt_transitive,
    sha3_256, sha3_256_of, Digest256,
};
use crate::rounds::{
    cold_rounds_for, floor_ln_ln_u64, floor_ln_u64, hot_rounds_for, lemma_thresholds_bounded,
    lemma_thresholds_monotone, terminate_rounds_for,
};

verus! {

/// What the store holds of one rumor.
pub struct RumorView {
    /// The key under which the rumor is stored.
    pub digest: Seq<u8>,
    /// Progress through the push and pull phases.
    pub push_counter: u8,
    /// Rounds elapsed since the rumor became known here.
    pub age_counter: u8,
    pub payload: Seq<u8>,
    /// Counters that peers reported for this rumor during the current round.
    pub hits: Seq<u8>,
}

/// The whole state of a store.
pub struct GossipView {
    /// The rumors, in increasing order of digest.
    pub rumors: Seq<RumorView>,
    pub total_peers: nat,
    pub hot_rounds: nat,
    pub cold_rounds: nat,
    pub terminate_rounds: nat,
}

/// Digests strictly increase along the sequence, so no digest is stored twice.
pub open spec fn sorted_by_digest(rumors: Seq<RumorView>) -> bool {
    forall|i: int, j: int|
        0 <= i < j < rumors.len() ==> digest_lt(#[trigger] rumors[i].digest, #[trigger] rumors[j].digest)
}

/// Every rumor is stored under the SHA3-256 digest of its payload.
pub open spec fn keyed_by_content(rumors: Seq<RumorView>) -> bool {
    forall|i: int| 0 <= i < rumors.len() ==> (#[trigger] rumors[i]).digest == sha3_256_of(rumors[i].payload)
}

/// Some stored rumor has digest `d`.
pub open spec fn holds(rumors: Seq<RumorView>, d: Seq<u8>) -> bool {
    exists|i: int| 0 <= i < rumors.len() && #[trigger] rumors[i].digest == d
}

/// Exactly one stored rumor has digest `d`.
pub open spec fn holds_once(rumors: Seq<RumorView>, d: Seq<u8>) -> bool {
    exists|i: int|
        0 <= i < rumors.len() && #[trigger] rumors[i].digest == d && forall|j: int|
            0 <= j < rumors.len() && #[trigger] rumors[j].digest == d ==> j == i
}

impl GossipView {
    /// Each rumor is stored under the SHA3-256 digest of its payload, no
    /// digest is stored twice, the rumors are kept in digest order, and the
    /// thresholds are those of the peer count (all zero before the first
    /// peer).
    pub open spec fn well_formed(self) -> bool {
        &&& keyed_by_content(self.rumors)
        &&& sorted_by_digest(self.rumors)
        &&& if self.total_peers == 0 {
            &&& self.hot_rounds == 0
            &&& self.cold_rounds == 0
            &&& self.terminate_rounds == 0
        } else {
            &&& self.hot_rounds == hot_rounds_for(self.total_peers as int)
            &&& self.cold_rounds == cold_rounds_for(self.total_peers as int)
            &&& self.terminate_rounds == terminate_rounds_for(self.total_peers as int)
        }
    }

    /// The peer count and the thresholds are those of `other`.
    pub open spec fn same_thresholds(self, other: GossipView) -> bool {
        &&& self.total_peers == other.total_peers
        &&& self.hot_rounds == other.hot_rounds
        &&& self.cold_rounds == other.cold_rounds
        &&& self.terminate_rounds == other.terminate_rounds
    }
}

/// A rumor seen for the first time.
pub open spec fn fresh_rumor(d: Seq<u8>, count: u8, payload: Seq<u8>, hits: Seq<u8>) -> RumorView {
    RumorView { digest: d, push_counter: count, age_counter: count, payload, hits }
}

/// `new` is `old` with `r` put in at some position.
pub open spec fn inserted(old: Seq<RumorView>, new: Seq<RumorView>, r: RumorView) -> bool {
    exists|k: int| 0 <= k <= old.len() && new == #[trigger] old.insert(k, r)
}

/// The effect of informing the store of a local rumor with digest `d`.
pub open spec fn informed(old: GossipView, new: GossipView, d: Seq<u8>, payload: Seq<u8>) -> bool {
    &&& new.same_thresholds(old)
    &&& if holds(old.rumors, d) {
        new.rumors == old.rumors
    } else {
        inserted(old.rumors, new.rumors, fresh_rumor(d, 0, payload, Seq::empty()))
    }
}

/// A known rumor after a peer reported `count` for it.
pub open spec fn caught_up(r: RumorView, count: u8) -> RumorView {
    RumorView {
        push_counter: if r.push_counter < count {
            count
        } else {
            r.push_counter
        },
        hits: r.hits.push(count),
        ..r
    }
}

/// The effect of receiving from a peer, with counter `count`, the rumor with digest `d`.
pub open spec fn received(
    old: GossipView,
    new: GossipView,
    count: u8,
    d: Seq<u8>,
    payload: Seq<u8>,
) -> bool {
    &&& new.same_thresholds(old)
    &&& if holds(old.rumors, d) {
        exists|i: int|
            0 <= i < old.rumors.len() && #[trigger] old.rumors[i].digest == d && new.rumors
                == old.rumors.update(i, caught_up(old.rumors[i], count))
    } else {
        inserted(old.rumors, new.rumors, fresh_rumor(d, count, payload, seq![count]))
    }
}

/// The rumor is listed under the push-counter bound `cap`: its push counter
/// is within `cap` and its age within `term`.
pub open spec fn listable(r: RumorView, cap: nat, term: nat) -> bool {
    r.push_counter <= cap && r.age_counter <= term
}

/// The listable rumors, in order, each with its push counter.
pub open spec fn listed(rumors: Seq<RumorView>, cap: nat, term: nat) -> Seq<(u8, Seq<u8>)>
    decreases rumors.len(),
{
    if rumors.len() == 0 {
        Seq::empty()
    } else {
        let r = rumors.last();
        let rest = listed(rumors.drop_last(), cap, term);
        if listable(r, cap, term) {
            rest.push((r.push_counter, r.payload))
        } else {
            rest
        }
    }
}

/// What the store offers for active push this round.
pub open spec fn push_list_of(v: GossipView) -> Seq<(u8, Seq<u8>)> {
    listed(v.rumors, v.hot_rounds, v.terminate_rounds)
}

/// What the store answers to a pull request.
pub open spec fn pull_list_of(v: GossipView) -> Seq<(u8, Seq<u8>)> {
    listed(v.rumors, v.cold_rounds, v.terminate_rounds)
}

/// How many of the reported counters are below `c`.
pub open spec fn count_below(hits: Seq<u8>, c: int) -> nat
    decreases hits.len(),
{
    if hits.len() == 0 {
        0
    } else {
        count_below(hits.drop_last(), c) + if (hits.last() as int) < c {
            1nat
        } else {
            0nat
        }
    }
}

/// How many of the reported counters are at least `c`.
pub open spec fn count_at_least(hits: Seq<u8>, c: int) -> nat
    decreases hits.len(),
{
    if hits.len() == 0 {
        0
    } else {
        count_at_least(hits.drop_last(), c) + if (hits.last() as int) >= c {
            1nat
        } else {
            0nat
        }
    }
}

/// A rumor at the end of a round: a cold-phase push counter moves one step,
/// an active rumor ages one round, a hot-phase push counter moves one more
/// step when most counters reported this round are at or past it, and the
/// reported counters are cleared.
pub open spec fn advanced(r: RumorView, hot: nat, cold: nat, term: nat) -> RumorView {
    let p1: int = if hot < r.push_counter && r.push_counter <= cold {
        r.push_counter + 1
    } else {
        r.push_counter as int
    };
    let age: int = if r.age_counter <= term {
        r.age_counter + 1
    } else {
        r.age_counter as int
    };
    let p2: int = if count_at_least(r.hits, p1) > count_below(r.hits, p1) && p1 <= hot {
        p1 + 1
    } else {
        p1
    };
    RumorView { push_counter: p2 as u8, age_counter: age as u8, hits: Seq::empty(), ..r }
}

/// Every rumor of `v` at the end of a round.
pub open spec fn advanced_all(v: GossipView) -> Seq<RumorView> {
    v.rumors.map_values(|r: RumorView| advanced(r, v.hot_rounds, v.cold_rounds, v.terminate_rounds))
}

/// The contents of a sequence of byte vectors.
pub open spec fn byte_strings(v: Seq<Vec<u8>>) -> Seq<Seq<u8>> {
    v.map_values(|x: Vec<u8>| x@)
}

/// The contents of a sequence of counter and payload pairs.
pub open spec fn counted_payloads(v: Seq<(u8, Vec<u8>)>) -> Seq<(u8, Seq<u8>)> {
    v.map_values(|x: (u8, Vec<u8>)| (x.0, x.1@))
}

/// The effect of counting one more peer.
pub open spec fn peer_added(old: GossipView, new: GossipView) -> bool {
    &&& new.rumors == old.rumors
    &&& new.total_peers == old.total_peers + 1
    &&& new.hot_rounds == hot_rounds_for(new.total_peers as int)
    &&& new.cold_rounds == cold_rounds_for(new.total_peers as int)
    &&& new.terminate_rounds == terminate_rounds_for(new.total_peers as int)
}

/// The effect of starting a new round on the stored rumors.
pub open spec fn round_advanced(old: GossipView, new: GossipView) -> bool {
    &&& new.same_thresholds(old)
    &&& new.rumors == advanced_all(old)
}

/// One call on a store.
pub enum Call {
    /// `inform` with this payload.
    Inform(Seq<u8>),
    /// `receive` with this counter and payload.
    Receive(u8, Seq<u8>),
    /// `add_peer`.
    AddPeer,
    /// `get_push_list`.
    PushRound,
    /// A call that only reads: `handle_pull`, `messages` or a getter.
    Read,
}

/// `new` is what `call` makes of `old`.
pub open spec fn performed(old: GossipView, new: GossipView, call: Call) -> bool {
    match call {
        Call::Inform(p) => informed(old, new, sha3_256_of(p), p),
        Call::Receive(c, p) => received(old, new, c, sha3_256_of(p), p),
        Call::AddPeer => peer_added(old, new),
        Call::PushRound => round_advanced(old, new),
        Call::Read => new == old,
    }
}

struct Rumor {
    digest: Digest256,
    push_counter: u8,
    age_counter: u8,
    payload: Vec<u8>,
    hits: Vec<u8>,
}

impl View for Rumor {
    type V = RumorView;

    closed spec fn view(&self) -> RumorView {
        RumorView {
            digest: self.digest@,
            push_counter: self.push_counter,
            age_counter: self.age_counter,
            payload: self.payload@,
            hits: self.hits@,
        }
    }
}

/// Gossip protocol handler: the rumors one node knows and the thresholds
/// that its peer count sets.
pub struct Gossip {
    rumors: Vec<Rumor>,
    total_peers: u64,
    hot_rounds: u8,
    cold_rounds: u8,
    terminate_rounds: u8,
}

impl View for Gossip {
    type V = GossipView;

    closed spec fn view(&self) -> GossipView {
        GossipView {
            rumors: self.rumors@.map_values(|r: Rumor| r@),
            total_peers: self.total_peers as nat,
            hot_rounds: self.hot_rounds as nat,
            cold_rounds: self.cold_rounds as nat,
            terminate_rounds: self.terminate_rounds as nat,
        }
    }
}

/// In a well-formed store no payload is stored twice: two payloads that are
/// equal have equal digests, and no digest is stored twice.
pub proof fn lemma_payloads_distinct(v: GossipView)
    requires
        v.well_formed(),
    ensures
        forall|i: int, j: int|
            0 <= i < j < v.rumors.len() ==> (#[trigger] v.rumors[i]).payload != (#[trigger] v.rumors[j]).payload,
{
    assert forall|i: int, j: int| 0 <= i < j < v.rumors.len() implies (#[trigger] v.rumors[i]).payload
        != (#[trigger] v.rumors[j]).payload by {
        assert(digest_lt(v.rumors[i].digest, v.rumors[j].digest));
        if v.rumors[i].payload == v.rumors[j].payload {
            lemma_digest_lt_irreflexive(v.rumors[i].digest);
        }
    }
}

/// Where `d` is missing and `k` is its place in the order, inserting there
/// keeps the order.
proof fn lemma_insert_sorted(rumors: Seq<RumorView>, k: int, r: RumorView)
    requires
        sorted_by_digest(rumors),
        0 <= k <= rumors.len(),
        forall|j: int| 0 <= j < k ==> digest_lt(#[trigger] rumors[j].digest, r.digest),
        k < rumors.len() ==> digest_lt(r.digest, rumors[k].digest),
    ensures
        !holds(rumors, r.digest),
        sorted_by_digest(rumors.insert(k, r)),
{
    assert forall|j: int| k <= j < rumors.len() implies digest_lt(r.digest, #[trigger] rumors[j].digest) by {
        if j > k {
            lemma_digest_lt_transitive(r.digest, rumors[k].digest, rumors[j].digest);
        }
    }
    if holds(rumors, r.digest) {
        let j = choose|j: int| 0 <= j < rumors.len() && #[trigger] rumors[j].digest == r.digest;
        lemma_digest_lt_irreflexive(r.digest);
    }
    let s = rumors.insert(k, r);
    assert forall|a: int, b: int| 0 <= a < b < s.len() implies digest_lt(
        #[trigger] s[a].digest,
        #[trigger] s[b].digest,
    ) by {
        if b < k {
        } else if b == k {
        } else if a < k {
            lemma_digest_lt_transitive(rumors[a].digest, r.digest, rumors[b - 1].digest);
        } else if a == k {
        } else {
            assert(digest_lt(rumors[a - 1].digest, rumors[b - 1].digest));
        }
    }
}

impl Gossip {
    /// The store's state is well formed.
    pub open spec fn wf(&self) -> bool {
        self@.well_formed()
    }

    /// An empty store: no rumors, no peers, every threshold zero.
    pub fn new() -> (r: Gossip)
        ensures
            r.wf(),
            r@.rumors.len() == 0,
            r@.total_peers == 0,
            r@.hot_rounds == 0,
            r@.cold_rounds == 0,
            r@.terminate_rounds == 0,
    {
        let r = Gossip {
            rumors: Vec::new(),
            total_peers: 0,
            hot_rounds: 0,
            cold_rounds: 0,
            terminate_rounds: 0,
        };
        assert(r@.rumors =~= Seq::empty());
        r
    }

    /// Counts one more peer and recomputes the thresholds from the new count.
    pub fn add_peer(&mut self)
        requires
            old(self).wf(),
            old(self)@.total_peers < u64::MAX,
        ensures
            final(self).wf(),
            final(self)@.rumors == old(self)@.rumors,
            final(self)@.total_peers == old(self)@.total_peers + 1,
            final(self)@.hot_rounds == hot_rounds_for(final(self)@.total_peers as int),
            final(self)@.cold_rounds == cold_rounds_for(final(self)@.total_peers as int),
            final(self)@.terminate_rounds == terminate_rounds_for(final(self)@.total_peers as int),
            peer_added(old(self)@, final(self)@),
            old(self)@.hot_rounds <= final(self)@.hot_rounds,
            old(self)@.cold_rounds <= final(self)@.cold_rounds,
            old(self)@.terminate_rounds <= final(self)@.terminate_rounds,
    {
        proof {
            lemma_thresholds_monotone(self.total_peers as int, self.total_peers + 1);
            lemma_thresholds_bounded(self.total_peers + 1);
        }
        self.total_peers = self.total_peers + 1;
        let n = self.total_peers;
        let ln_ln = floor_ln_ln_u64(n);
        self.hot_rounds = if ln_ln > 1 {
            ln_ln
        } else {
            1
        };
        self.cold_rounds = if 2 * self.hot_rounds > 2 {
            2 * self.hot_rounds
        } else {
            2
        };
        let ln = floor_ln_u64(n);
        self.terminate_rounds = if ln > self.cold_rounds {
            ln
        } else {
            self.cold_rounds
        };
    }

    /// Every stored payload, in the order of the rumors.
    pub fn messages(&self) -> (r: Vec<Vec<u8>>)
        requires
            self.wf(),
        ensures
            byte_strings(r@) == self@.rumors.map_values(|x: RumorView| x.payload),
            forall|i: int, j: int| 0 <= i < j < r@.len() ==> r@[i]@ != r@[j]@,
    {
        let mut r: Vec<Vec<u8>> = Vec::new();
        let mut i: usize = 0;
        while i < self.rumors.len()
            invariant
                i <= self.rumors.len(),
                byte_strings(r@) =~= self@.rumors.subrange(0, i as int).map_values(
                    |x: RumorView| x.payload,
                ),
            decreases self.rumors.len() - i,
        {
            let p = self.rumors[i].payload.clone();
            assert(p@ =~= self@.rumors[i as int].payload);
            let ghost before = byte_strings(r@);
            r.push(p);
            assert(byte_strings(r@) =~= before.push(p@));
            assert(self@.rumors.subrange(0, i + 1) =~= self@.rumors.subrange(0, i as int).push(
                self@.rumors[i as int],
            ));
            i = i + 1;
        }
        assert(self@.rumors.subrange(0, i as int) =~= self@.rumors);
        proof {
            lemma_payloads_distinct(self@);
            assert forall|a: int, b: int| 0 <= a < b < r@.len() implies r@[a]@ != r@[b]@ by {
                assert(byte_strings(r@)[a] == self@.rumors[a].payload);
                assert(byte_strings(r@)[b] == self@.rumors[b].payload);
            }
        }
        r
    }

    /// The place of digest `d`: the index of its rumor where it is stored,
    /// else the index at which it would go.
    fn locate(&self, d: &Digest256) -> (r: (usize, bool))
        requires
            self.wf(),
        ensures
            r.0 <= self@.rumors.len(),
            r.1 ==> r.0 < self@.rumors.len() && self@.rumors[r.0 as int].digest == d@,
            !r.1 ==> forall|j: int| 0 <= j < r.0 ==> digest_lt(#[trigger] self@.rumors[j].digest, d@),
            !r.1 ==> r.0 < self@.rumors.len() ==> digest_lt(d@, self@.rumors[r.0 as int].digest),
    {
        let mut i: usize = 0;
        while i < self.rumors.len()
            invariant
                i <= self.rumors.len(),
                forall|j: int| 0 <= j < i ==> digest_lt(#[trigger] self@.rumors[j].digest, d@),
            decreases self.rumors.len() - i,
        {
            match compare_digests(&self.rumors[i].digest, d) {
                Ordering::Less => {
                    i = i + 1;
                },
                Ordering::Equal => {
                    return (i, true);
                },
                Ordering::Greater => {
                    return (i, false);
                },
            }
        }
        (i, false)
    }

    /// Registers a locally originated rumor: stored under its SHA3-256 digest
    /// with both counters at zero, unless that digest is already stored.
    pub fn inform(&mut self, msg: Vec<u8>)
        requires
            old(self).wf(),
        ensures
            final(self).wf(),
            informed(old(self)@, final(self)@, sha3_256_of(msg@), msg@),
    {
        let digest = sha3_256(&msg);
        self.inform_with_digest(digest, msg);
    }

    /// Registers a locally originated rumor under `digest`, the SHA3-256
    /// digest of `msg`: a new rumor starts with both counters at zero, and a digest
    /// already stored leaves the store as it is.
    pub fn inform_with_digest(&mut self, digest: Digest256, msg: Vec<u8>)
        requires
            old(self).wf(),
            digest@ == sha3_256_of(msg@),
        ensures
            final(self).wf(),
            informed(old(self)@, final(self)@, digest@, msg@),
    {
        let (i, found) = self.locate(&digest);
        if !found {
            let ghost r = fresh_rumor(digest@, 0, msg@, Seq::empty());
            proof {
                lemma_insert_sorted(self@.rumors, i as int, r);
            }
            let rumor = Rumor {
                digest,
                push_counter: 0,
                age_counter: 0,
                payload: msg,
                hits: Vec::new(),
            };
            assert(rumor@ == r);
            self.rumors.insert(i, rumor);
            assert(self@.rumors =~= old(self)@.rumors.insert(i as int, r));
        } else {
            assert(holds(self@.rumors, digest@));
        }
    }

    /// Registers a rumor that a peer sent with its push counter `count`,
    /// stored under the SHA3-256 digest of `msg`.
    pub fn receive(&mut self, count: u8, msg: Vec<u8>)
        requires
            old(self).wf(),
        ensures
            final(self).wf(),
            received(old(self)@, final(self)@, count, sha3_256_of(msg@), msg@),
    {
        let digest = sha3_256(&msg);
        self.receive_with_digest(count, digest, msg);
    }

    /// Registers a rumor that a peer sent with its push counter `count`,
    /// under `digest`, the SHA3-256 digest of `msg`. A new rumor starts with both
    /// counters at `count`; a known one has its push counter raised to
    /// `count` where it was below. Either way `count` is recorded among this
    /// round's reports for the rumor.
    pub fn receive_with_digest(&mut self, count: u8, digest: Digest256, msg: Vec<u8>)
        requires
            old(self).wf(),
            digest@ == sha3_256_of(msg@),
        ensures
            final(self).wf(),
            received(old(self)@, final(self)@, count, digest@, msg@),
    {
        let (i, found) = self.locate(&digest);
        if found {
            if self.rumors[i].push_counter < count {
                self.rumors[i].push_counter = count;
            }
            self.rumors[i].hits.push(count);
            assert(self@.rumors =~= old(self)@.rumors.update(
                i as int,
                caught_up(old(self)@.rumors[i as int], count),
            ));
            assert(holds(old(self)@.rumors, digest@));
            assert forall|a: int, b: int| 0 <= a < b < self@.rumors.len() implies digest_lt(
                #[trigger] self@.rumors[a].digest,
                #[trigger] self@.rumors[b].digest,
            ) by {
                assert(digest_lt(old(self)@.rumors[a].digest, old(self)@.rumors[b].digest));
            }
        } else {
            let ghost r = fresh_rumor(digest@, count, msg@, seq![count]);
            proof {
                lemma_insert_sorted(self@.rumors, i as int, r);
            }
            let mut hits: Vec<u8> = Vec::new();
            hits.push(count);
            let rumor = Rumor { digest, push_counter: count, age_counter: count, payload: msg, hits };
            assert(rumor@.hits =~= seq![count]);
            self.rumors.insert(i, rumor);
            assert(self@.rumors =~= old(self)@.rumors.insert(i as int, r));
        }
    }

    /// The rumors whose push counter is within `cap` and whose age is within
    /// the terminate threshold, in order, each with its push counter.
    fn listed_within(&self, cap: u8) -> (r: Vec<(u8, Vec<u8>)>)
        ensures
            counted_payloads(r@) == listed(self@.rumors, cap as nat, self@.terminate_rounds),
    {
        let term = self.terminate_rounds;
        let mut r: Vec<(u8, Vec<u8>)> = Vec::new();
        let mut i: usize = 0;
        while i < self.rumors.len()
            invariant
                i <= self.rumors.len(),
                term == self@.terminate_rounds,
                counted_payloads(r@) == listed(
                    self@.rumors.subrange(0, i as int),
                    cap as nat,
                    term as nat,
                ),
            decreases self.rumors.len() - i,
        {
            let ghost rs = self@.rumors.subrange(0, i + 1);
            assert(rs.drop_last() =~= self@.rumors.subrange(0, i as int));
            assert(rs.last() == self@.rumors[i as int]);
            let push = self.rumors[i].push_counter;
            if push <= cap && self.rumors[i].age_counter <= term {
                let p = self.rumors[i].payload.clone();
                assert(p@ =~= self@.rumors[i as int].payload);
                let ghost before = counted_payloads(r@);
                r.push((push, p));
                assert(counted_payloads(r@) =~= before.push((push, p@)));
            }
            i = i + 1;
        }
        assert(self@.rumors.subrange(0, i as int) =~= self@.rumors);
        r
    }

    /// Answers a pull request: every rumor whose push counter is within the
    /// cold threshold and whose age is within the terminate threshold, in
    /// order, each with its push counter. The store is left as it is.
    pub fn handle_pull(&self) -> (r: Vec<(u8, Vec<u8>)>)
        ensures
            counted_payloads(r@) == pull_list_of(self@),
    {
        self.listed_within(self.cold_rounds)
    }

    /// Counts the reported counters below `c` and those at least `c`.
    fn tally(hits: &Vec<u8>, c: u8) -> (r: (usize, usize))
        ensures
            r.0 == count_below(hits@, c as int),
            r.1 == count_at_least(hits@, c as int),
    {
        let mut less: usize = 0;
        let mut greater_or_equal: usize = 0;
        let mut i: usize = 0;
        while i < hits.len()
            invariant
                i <= hits.len(),
                less == count_below(hits@.subrange(0, i as int), c as int),
                greater_or_equal == count_at_least(hits@.subrange(0, i as int), c as int),
                less + greater_or_equal == i,
            decreases hits.len() - i,
        {
            assert(hits@.subrange(0, i + 1).drop_last() =~= hits@.subrange(0, i as int));
            if hits[i] < c {
                less = less + 1;
            } else {
                greater_or_equal = greater_or_equal + 1;
            }
            i = i + 1;
        }
        assert(hits@.subrange(0, i as int) =~= hits@);
        (less, greater_or_equal)
    }

    /// Starts a new round. Returns the rumors offered for active push, those
    /// whose push counter is within the hot threshold and whose age is within
    /// the terminate threshold, in order, each with its push counter as it
    /// was before the call. Then every rumor is advanced by one round, and
    /// the counters that peers reported during the round are consumed.
    pub fn get_push_list(&mut self) -> (r: Vec<(u8, Vec<u8>)>)
        requires
            old(self).wf(),
        ensures
            final(self).wf(),
            counted_payloads(r@) == push_list_of(old(self)@),
            final(self)@.same_thresholds(old(self)@),
            final(self)@.rumors == advanced_all(old(self)@),
            round_advanced(old(self)@, final(self)@),
    {
        let out = self.listed_within(self.hot_rounds);
        let hot = self.hot_rounds;
        let cold = self.cold_rounds;
        let term = self.terminate_rounds;
        proof {
            lemma_thresholds_bounded(self.total_peers as int);
        }
        let ghost old_rumors = self@.rumors;
        let n = self.rumors.len();
        let mut i: usize = 0;
        while i < n
            invariant
                n == self.rumors.len(),
                i <= n,
                old_rumors.len() == n,
                self@.same_thresholds(old(self)@),
                hot == self.hot_rounds,
                cold == self.cold_rounds,
                term == self.terminate_rounds,
                hot <= 3,
                cold <= 6,
                term <= 44,
                forall|j: int|
                    0 <= j < i ==> self@.rumors[j] == advanced(
                        #[trigger] old_rumors[j],
                        hot as nat,
                        cold as nat,
                        term as nat,
                    ),
                forall|j: int| i <= j < n ==> self@.rumors[j] == #[trigger] old_rumors[j],
            decreases n - i,
        {
            let push = self.rumors[i].push_counter;
            let age = self.rumors[i].age_counter;
            let mut p: u8 = push;
            if hot < push && push <= cold {
                p = push + 1;
            }
            if age <= term {
                self.rumors[i].age_counter = age + 1;
            }
            let (less, greater_or_equal) = Gossip::tally(&self.rumors[i].hits, p);
            if greater_or_equal > less && p <= hot {
                p = p + 1;
            }
            self.rumors[i].push_counter = p;
            self.rumors[i].hits = Vec::new();
            assert(self@.rumors[i as int] =~= advanced(
                old_rumors[i as int],
                hot as nat,
                cold as nat,
                term as nat,
            ));
            i = i + 1;
        }
        assert(self@.rumors =~= advanced_all(old(self)@));
        assert forall|a: int, b: int| 0 <= a < b < self@.rumors.len() implies digest_lt(
            #[trigger] self@.rumors[a].digest,
            #[trigger] self@.rumors[b].digest,
        ) by {
            assert(digest_lt(old_rumors[a].digest, old_rumors[b].digest));
        }
        out
    }

    /// The number of peers counted so far.
    pub fn total_peers(&self) -> (r: u64)
        ensures
            r == self@.total_peers,
    {
        self.total_peers
    }

    /// Rounds of active push.
    pub fn hot_rounds(&self) -> (r: u8)
        ensures
            r == self@.hot_rounds,
    {
        self.hot_rounds
    }

    /// Rounds through which a rumor is still offered on pull.
    pub fn cold_rounds(&self) -> (r: u8)
        ensures
            r == self@.cold_rounds,
    {
        self.cold_rounds
    }

    /// Rounds after which a rumor stops circulating.
    pub fn terminate_rounds(&self) -> (r: u8)
        ensures
            r == self@.terminate_rounds,
    {
        self.terminate_rounds
    }
}

} // verus!
