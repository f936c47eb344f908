//! Properties of the store that span several operations.

use vstd::prelude::*;

use crate::digest::{digest_lt, lemma_digest_lt_irreflexive, sha3_256_of};
use crate::gossip::{
    advanced, caught_up, fresh_rumor, holds, holds_once, informed, inserted, lemma_payloads_distinct,
    listable, listed, pull_list_of, push_list_of, received, sorted_by_digest, Call, GossipView,
    RumorView, performed,
};
use crate::rounds::lemma_thresholds_bounded;

verus! {

proof fn lemma_unique_digest(rumors: Seq<RumorView>, i: int, j: int)
    requires
        sorted_by_digest(rumors),
        0 <= i < rumors.len(),
        0 <= j < rumors.len(),
        rumors[i].digest == rumors[j].digest,
    ensures
        i == j,
{
    if i < j {
        assert(digest_lt(rumors[i].digest, rumors[j].digest));
        lemma_digest_lt_irreflexive(rumors[i].digest);
    } else if j < i {
        assert(digest_lt(rumors[j].digest, rumors[i].digest));
        lemma_digest_lt_irreflexive(rumors[i].digest);
    }
}

proof fn lemma_informed_holds(s0: GossipView, s1: GossipView, d: Seq<u8>, p: Seq<u8>)
    requires
        informed(s0, s1, d, p),
    ensures
        holds(s1.rumors, d),
{
    if !holds(s0.rumors, d) {
        let k = choose|k: int|
            0 <= k <= s0.rumors.len() && s1.rumors == #[trigger] s0.rumors.insert(
                k,
                fresh_rumor(d, 0, p, Seq::empty()),
            );
        assert(s1.rumors[k].digest == d);
    }
}

/// Exactly one rumor holds payload `p`.
pub open spec fn stored_once(rumors: Seq<RumorView>, p: Seq<u8>) -> bool {
    exists|i: int|
        0 <= i < rumors.len() && #[trigger] rumors[i].payload == p && forall|j: int|
            0 <= j < rumors.len() && #[trigger] rumors[j].payload == p ==> j == i
}

/// Informing the store twice of the same payload stores it once: the second
/// call changes nothing, exactly one rumor is kept under the payload's
/// digest, and no two rumors hold the payload. The payload itself is the one
/// stored unless, before the first call, another payload with the same
/// SHA3-256 digest was stored already.
pub proof fn lemma_inform_idempotent(s0: GossipView, s1: GossipView, s2: GossipView, p: Seq<u8>)
    requires
        s0.well_formed(),
        s1.well_formed(),
        s2.well_formed(),
        informed(s0, s1, sha3_256_of(p), p),
        informed(s1, s2, sha3_256_of(p), p),
    ensures
        s2 == s1,
        holds_once(s2.rumors, sha3_256_of(p)),
        forall|i: int, j: int|
            0 <= i < s2.rumors.len() && 0 <= j < s2.rumors.len() && #[trigger] s2.rumors[i].payload == p
                && #[trigger] s2.rumors[j].payload == p ==> i == j,
        (forall|j: int|
            0 <= j < s0.rumors.len() && #[trigger] s0.rumors[j].digest == sha3_256_of(p)
                ==> s0.rumors[j].payload == p) ==> stored_once(s2.rumors, p),
{
    let d = sha3_256_of(p);
    lemma_informed_holds(s0, s1, d, p);
    let i = choose|i: int| 0 <= i < s1.rumors.len() && #[trigger] s1.rumors[i].digest == d;
    assert forall|j: int| 0 <= j < s2.rumors.len() && #[trigger] s2.rumors[j].digest == d implies j
        == i by {
        lemma_unique_digest(s2.rumors, i, j);
    }
    lemma_payloads_distinct(s2);
    assert forall|a: int, b: int|
        0 <= a < s2.rumors.len() && 0 <= b < s2.rumors.len() && #[trigger] s2.rumors[a].payload == p
            && #[trigger] s2.rumors[b].payload == p implies a == b by {
        if a < b {
            assert(s2.rumors[a].payload != s2.rumors[b].payload);
        } else if b < a {
            assert(s2.rumors[b].payload != s2.rumors[a].payload);
        }
    }
    if forall|j: int|
        0 <= j < s0.rumors.len() && #[trigger] s0.rumors[j].digest == d ==> s0.rumors[j].payload == p {
        if holds(s0.rumors, d) {
            let j = choose|j: int| 0 <= j < s0.rumors.len() && #[trigger] s0.rumors[j].digest == d;
            assert(s0.rumors[j].payload == p);
            assert(s1.rumors == s0.rumors);
            assert(s2.rumors[j].payload == p);
        } else {
            let k = choose|k: int|
                0 <= k <= s0.rumors.len() && s1.rumors == #[trigger] s0.rumors.insert(
                    k,
                    fresh_rumor(d, 0, p, Seq::empty()),
                );
            assert(s2.rumors[k].payload == p);
        }
    }
}

/// One report from a peer: afterwards the rumor is stored, its push counter
/// is at least the reported one, and it has not gone below where it was.
proof fn lemma_received_step(s0: GossipView, s1: GossipView, c: u8, p: Seq<u8>)
    requires
        s0.well_formed(),
        s1.well_formed(),
        received(s0, s1, c, sha3_256_of(p), p),
    ensures
        holds(s1.rumors, sha3_256_of(p)),
        forall|i: int|
            0 <= i < s1.rumors.len() && #[trigger] s1.rumors[i].digest == sha3_256_of(p) ==> {
                &&& s1.rumors[i].push_counter >= c
                &&& forall|j: int|
                    0 <= j < s0.rumors.len() && #[trigger] s0.rumors[j].digest == sha3_256_of(p)
                        ==> s1.rumors[i].push_counter >= s0.rumors[j].push_counter
            },
{
    let d = sha3_256_of(p);
    if holds(s0.rumors, d) {
        let k = choose|k: int|
            0 <= k < s0.rumors.len() && #[trigger] s0.rumors[k].digest == d && s1.rumors
                == s0.rumors.update(k, caught_up(s0.rumors[k], c));
        assert(s1.rumors[k].digest == d);
        assert forall|i: int|
            0 <= i < s1.rumors.len() && #[trigger] s1.rumors[i].digest == d implies {
            &&& s1.rumors[i].push_counter >= c
            &&& forall|j: int|
                0 <= j < s0.rumors.len() && #[trigger] s0.rumors[j].digest == d
                    ==> s1.rumors[i].push_counter >= s0.rumors[j].push_counter
        } by {
            lemma_unique_digest(s1.rumors, i, k);
            assert forall|j: int|
                0 <= j < s0.rumors.len() && #[trigger] s0.rumors[j].digest == d implies s1.rumors[i].push_counter
                >= s0.rumors[j].push_counter by {
                lemma_unique_digest(s0.rumors, j, k);
            }
        }
    } else {
        let r = fresh_rumor(d, c, p, seq![c]);
        let k = choose|k: int| 0 <= k <= s0.rumors.len() && s1.rumors == #[trigger] s0.rumors.insert(k, r);
        assert(s1.rumors[k].digest == d);
        assert forall|i: int|
            0 <= i < s1.rumors.len() && #[trigger] s1.rumors[i].digest == d implies s1.rumors[i].push_counter
            >= c by {
            lemma_unique_digest(s1.rumors, i, k);
        }
    }
}

/// `new` is `old` with `r` put in, `r` not being under digest `d`: every
/// rumor under `d` stays as it was.
proof fn lemma_insert_keeps(old: Seq<RumorView>, new: Seq<RumorView>, r: RumorView, d: Seq<u8>)
    requires
        sorted_by_digest(old),
        inserted(old, new, r),
        r.digest != d,
        holds(old, d),
    ensures
        holds(new, d),
        forall|i: int, j: int|
            0 <= i < new.len() && 0 <= j < old.len() && #[trigger] new[i].digest == d
                && #[trigger] old[j].digest == d ==> new[i] == old[j],
{
    let k = choose|k: int| 0 <= k <= old.len() && new == #[trigger] old.insert(k, r);
    let j0 = choose|j: int| 0 <= j < old.len() && #[trigger] old[j].digest == d;
    let w = if j0 < k {
        j0
    } else {
        j0 + 1
    };
    assert(new[w] == old[j0]);
    assert forall|i: int, j: int|
        0 <= i < new.len() && 0 <= j < old.len() && #[trigger] new[i].digest == d
            && #[trigger] old[j].digest == d implies new[i] == old[j] by {
        let idx = if i < k {
            i
        } else {
            i - 1
        };
        assert(new[i] == old[idx]);
        lemma_unique_digest(old, idx, j);
    }
}

/// No call lowers the push counter stored under a digest, nor drops the
/// rumor.
proof fn lemma_call_keeps_push(s0: GossipView, s1: GossipView, call: Call, d: Seq<u8>)
    requires
        s0.well_formed(),
        s1.well_formed(),
        performed(s0, s1, call),
        holds(s0.rumors, d),
    ensures
        holds(s1.rumors, d),
        forall|i: int, j: int|
            0 <= i < s1.rumors.len() && 0 <= j < s0.rumors.len() && #[trigger] s1.rumors[i].digest
                == d && #[trigger] s0.rumors[j].digest == d ==> s1.rumors[i].push_counter
                >= s0.rumors[j].push_counter,
{
    match call {
        Call::Inform(p) => {
            let e = sha3_256_of(p);
            if !holds(s0.rumors, e) {
                let j = choose|j: int| 0 <= j < s0.rumors.len() && #[trigger] s0.rumors[j].digest == d;
                lemma_insert_keeps(s0.rumors, s1.rumors, fresh_rumor(e, 0, p, Seq::empty()), d);
            }
        },
        Call::Receive(c, p) => {
            let e = sha3_256_of(p);
            if holds(s0.rumors, e) {
                let k = choose|k: int|
                    0 <= k < s0.rumors.len() && #[trigger] s0.rumors[k].digest == e && s1.rumors
                        == s0.rumors.update(k, caught_up(s0.rumors[k], c));
                let j0 = choose|j: int| 0 <= j < s0.rumors.len() && #[trigger] s0.rumors[j].digest == d;
                assert(s1.rumors[j0].digest == d);
                assert forall|i: int, j: int|
                    0 <= i < s1.rumors.len() && 0 <= j < s0.rumors.len()
                        && #[trigger] s1.rumors[i].digest == d && #[trigger] s0.rumors[j].digest
                        == d implies s1.rumors[i].push_counter >= s0.rumors[j].push_counter by {
                    assert(s0.rumors[i].digest == d);
                    lemma_unique_digest(s0.rumors, i, j);
                }
            } else {
                let j = choose|j: int| 0 <= j < s0.rumors.len() && #[trigger] s0.rumors[j].digest == d;
                lemma_insert_keeps(s0.rumors, s1.rumors, fresh_rumor(e, c, p, seq![c]), d);
            }
        },
        Call::AddPeer => {
            assert forall|i: int, j: int|
                0 <= i < s1.rumors.len() && 0 <= j < s0.rumors.len()
                    && #[trigger] s1.rumors[i].digest == d && #[trigger] s0.rumors[j].digest
                    == d implies s1.rumors[i].push_counter >= s0.rumors[j].push_counter by {
                lemma_unique_digest(s0.rumors, i, j);
            }
        },
        Call::PushRound => {
            lemma_thresholds_bounded(s0.total_peers as int);
            let j0 = choose|j: int| 0 <= j < s0.rumors.len() && #[trigger] s0.rumors[j].digest == d;
            assert(s1.rumors[j0].digest == d);
            assert forall|i: int, j: int|
                0 <= i < s1.rumors.len() && 0 <= j < s0.rumors.len()
                    && #[trigger] s1.rumors[i].digest == d && #[trigger] s0.rumors[j].digest
                    == d implies s1.rumors[i].push_counter >= s0.rumors[j].push_counter by {
                assert(s0.rumors[i].digest == d);
                lemma_unique_digest(s0.rumors, i, j);
            }
        },
        Call::Read => {
            assert forall|i: int, j: int|
                0 <= i < s1.rumors.len() && 0 <= j < s0.rumors.len()
                    && #[trigger] s1.rumors[i].digest == d && #[trigger] s0.rumors[j].digest
                    == d implies s1.rumors[i].push_counter >= s0.rumors[j].push_counter by {
                lemma_unique_digest(s0.rumors, i, j);
            }
        },
    }
}

/// Catching up: along any sequence of calls, after a peer has reported a
/// payload with some counter, the push counter stored for that payload stays
/// at or above that counter, whatever other calls come in between.
pub proof fn lemma_catch_up(states: Seq<GossipView>, calls: Seq<Call>, p: Seq<u8>)
    requires
        states.len() == calls.len() + 1,
        forall|i: int| 0 <= i < states.len() ==> (#[trigger] states[i]).well_formed(),
        forall|i: int| 0 <= i < calls.len() ==> performed(states[i], states[i + 1], #[trigger] calls[i]),
    ensures
        forall|k: int|
            0 <= k < calls.len() && (#[trigger] calls[k] is Receive) && calls[k]->Receive_1 == p
                ==> holds(states.last().rumors, sha3_256_of(p)),
        forall|k: int, i: int|
            0 <= k < calls.len() && (#[trigger] calls[k] is Receive) && calls[k]->Receive_1 == p && 0
                <= i < states.last().rumors.len() && #[trigger] states.last().rumors[i].digest
                == sha3_256_of(p) ==> states.last().rumors[i].push_counter >= calls[k]->Receive_0,
    decreases calls.len(),
{
    let d = sha3_256_of(p);
    if calls.len() > 0 {
        let m = calls.len() - 1;
        let prev = states.drop_last();
        let before = calls.drop_last();
        assert forall|i: int| 0 <= i < prev.len() implies (#[trigger] prev[i]).well_formed() by {
            assert(states[i].well_formed());
        }
        assert forall|i: int| 0 <= i < before.len() implies performed(
            prev[i],
            prev[i + 1],
            #[trigger] before[i],
        ) by {
            assert(performed(states[i], states[i + 1], calls[i]));
        }
        lemma_catch_up(prev, before, p);
        let s0 = states[m];
        let s1 = states[m + 1];
        assert(s0.well_formed());
        assert(s1.well_formed());
        assert(performed(s0, s1, calls[m]));
        assert(prev.last() == s0);
        assert(states.last() == s1);
        if calls[m] is Receive && calls[m]->Receive_1 == p {
            lemma_received_step(s0, s1, calls[m]->Receive_0, p);
        }
        if exists|k: int| 0 <= k < m && (#[trigger] calls[k] is Receive) && calls[k]->Receive_1 == p {
            let k0 = choose|k: int| 0 <= k < m && (#[trigger] calls[k] is Receive) && calls[k]->Receive_1 == p;
            assert(before[k0] == calls[k0]);
            lemma_call_keeps_push(s0, s1, calls[m], d);
        }
        assert forall|k: int|
            0 <= k < calls.len() && (#[trigger] calls[k] is Receive) && calls[k]->Receive_1 == p
                implies holds(s1.rumors, d) by {
            if k < m {
                assert(before[k] == calls[k]);
            }
        }
        assert forall|k: int, i: int|
            0 <= k < calls.len() && (#[trigger] calls[k] is Receive) && calls[k]->Receive_1 == p && 0
                <= i < s1.rumors.len() && #[trigger] s1.rumors[i].digest == d
                implies s1.rumors[i].push_counter >= calls[k]->Receive_0 by {
            if k < m {
                assert(before[k] == calls[k]);
                let j = choose|j: int| 0 <= j < s0.rumors.len() && #[trigger] s0.rumors[j].digest == d;
                assert(s0.rumors[j].push_counter >= before[k]->Receive_0);
            }
        }
    }
}

/// Answering a pull depends on the state alone and leaves it as it is, so
/// two pulls with nothing in between answer the same.
pub proof fn lemma_pull_pure(
    v: GossipView,
    first: Seq<(u8, Seq<u8>)>,
    second: Seq<(u8, Seq<u8>)>,
)
    requires
        first == pull_list_of(v),
        second == pull_list_of(v),
    ensures
        first == second,
{
}

/// Every listed pair is the push counter and payload of a listable rumor.
proof fn lemma_listed_from(rumors: Seq<RumorView>, cap: nat, term: nat)
    ensures
        forall|k: int|
            0 <= k < listed(rumors, cap, term).len() ==> exists|i: int|
                0 <= i < rumors.len() && listable(#[trigger] rumors[i], cap, term)
                    && #[trigger] listed(rumors, cap, term)[k] == (rumors[i].push_counter, rumors[i].payload),
    decreases rumors.len(),
{
    if rumors.len() > 0 {
        let rest = rumors.drop_last();
        lemma_listed_from(rest, cap, term);
        assert forall|k: int| 0 <= k < listed(rumors, cap, term).len() implies exists|i: int|
            0 <= i < rumors.len() && listable(#[trigger] rumors[i], cap, term)
                && #[trigger] listed(rumors, cap, term)[k] == (rumors[i].push_counter, rumors[i].payload) by {
            if k < listed(rest, cap, term).len() {
                let i = choose|i: int|
                    0 <= i < rest.len() && listable(#[trigger] rest[i], cap, term)
                        && #[trigger] listed(rest, cap, term)[k] == (rest[i].push_counter, rest[i].payload);
                assert(rumors[i] == rest[i]);
            } else {
                assert(rumors[rumors.len() - 1] == rumors.last());
            }
        }
    }
}

/// A terminated rumor is listed neither for push nor for pull: no pair in
/// either list has a payload whose digest is that rumor's, whatever its push
/// counter, and a round leaves its age as it is.
pub proof fn lemma_terminated_unlisted(v: GossipView, t: int)
    requires
        v.well_formed(),
        0 <= t < v.rumors.len(),
        v.rumors[t].age_counter > v.terminate_rounds,
    ensures
        forall|k: int|
            0 <= k < push_list_of(v).len() ==> sha3_256_of(#[trigger] push_list_of(v)[k].1)
                != v.rumors[t].digest,
        forall|k: int|
            0 <= k < pull_list_of(v).len() ==> sha3_256_of(#[trigger] pull_list_of(v)[k].1)
                != v.rumors[t].digest,
        advanced(v.rumors[t], v.hot_rounds, v.cold_rounds, v.terminate_rounds).age_counter
            == v.rumors[t].age_counter,
{
    lemma_listed_from(v.rumors, v.hot_rounds, v.terminate_rounds);
    lemma_listed_from(v.rumors, v.cold_rounds, v.terminate_rounds);
    assert forall|k: int| 0 <= k < push_list_of(v).len() implies sha3_256_of(
        #[trigger] push_list_of(v)[k].1,
    ) != v.rumors[t].digest by {
        let i = choose|i: int|
            0 <= i < v.rumors.len() && listable(#[trigger] v.rumors[i], v.hot_rounds, v.terminate_rounds)
                && #[trigger] listed(v.rumors, v.hot_rounds, v.terminate_rounds)[k] == (
                v.rumors[i].push_counter,
                v.rumors[i].payload,
            );
        if sha3_256_of(v.rumors[i].payload) == v.rumors[t].digest {
            lemma_unique_digest(v.rumors, i, t);
        }
    }
    assert forall|k: int| 0 <= k < pull_list_of(v).len() implies sha3_256_of(
        #[trigger] pull_list_of(v)[k].1,
    ) != v.rumors[t].digest by {
        let i = choose|i: int|
            0 <= i < v.rumors.len() && listable(#[trigger] v.rumors[i], v.cold_rounds, v.terminate_rounds)
                && #[trigger] listed(v.rumors, v.cold_rounds, v.terminate_rounds)[k] == (
                v.rumors[i].push_counter,
                v.rumors[i].payload,
            );
        if sha3_256_of(v.rumors[i].payload) == v.rumors[t].digest {
            lemma_unique_digest(v.rumors, i, t);
        }
    }
}

/// A rumor after `n` rounds under fixed thresholds.
pub open spec fn after_rounds(r: RumorView, hot: nat, cold: nat, term: nat, n: nat) -> RumorView
    decreases n,
{
    if n == 0 {
        r
    } else {
        advanced(after_rounds(r, hot, cold, term, (n - 1) as nat), hot, cold, term)
    }
}

/// Aging ignores pushes and the cutoff is final: while the thresholds stay,
/// each round adds one to a rumor's age until the age passes the terminate
/// threshold, and from then on the rumor is neither pushed nor offered on
/// pull, whatever its push counter.
pub proof fn lemma_hard_termination(v: GossipView, r: RumorView, n: nat)
    requires
        v.well_formed(),
    ensures
        after_rounds(r, v.hot_rounds, v.cold_rounds, v.terminate_rounds, n).age_counter == if r.age_counter
            > v.terminate_rounds {
            r.age_counter as int
        } else if r.age_counter + n <= v.terminate_rounds + 1 {
            r.age_counter + n
        } else {
            v.terminate_rounds + 1int
        },
        r.age_counter + n > v.terminate_rounds ==> {
            let later = after_rounds(r, v.hot_rounds, v.cold_rounds, v.terminate_rounds, n);
            &&& !listable(later, v.hot_rounds, v.terminate_rounds)
            &&& !listable(later, v.cold_rounds, v.terminate_rounds)
        },
    decreases n,
{
    lemma_thresholds_bounded(v.total_peers as int);
    if n > 0 {
        lemma_hard_termination(v, r, (n - 1) as nat);
    }
}

} // verus!
