use gossip::rounds::{floor_ln_ln_u64, floor_ln_u64};
use gossip::Gossip;

fn store_with_peers(n: u64) -> Gossip {
    let mut g = Gossip::new();
    for _ in 0..n {
        g.add_peer();
    }
    g
}

fn payload(s: &str) -> Vec<u8> {
    s.as_bytes().to_vec()
}

#[test]
fn new_store_is_empty() {
    let g = Gossip::new();
    assert_eq!(g.total_peers(), 0);
    assert_eq!(g.hot_rounds(), 0);
    assert_eq!(g.cold_rounds(), 0);
    assert_eq!(g.terminate_rounds(), 0);
    assert!(g.messages().is_empty());
    assert!(g.handle_pull().is_empty());
}

#[test]
fn thresholds_for_twenty_peers() {
    let g = store_with_peers(20);
    let ln = (20f64).ln();
    let hot = std::cmp::max(1, ln.ln().floor() as u8);
    let cold = std::cmp::max(2, 2 * hot);
    let term = std::cmp::max(cold, ln.floor() as u8);
    assert_eq!(g.total_peers(), 20);
    assert_eq!(g.hot_rounds(), hot);
    assert_eq!(g.cold_rounds(), cold);
    assert_eq!(g.terminate_rounds(), term);
    assert_eq!((g.hot_rounds(), g.cold_rounds(), g.terminate_rounds()), (1, 2, 2));
}

#[test]
fn thresholds_for_one_and_two_peers() {
    let mut g = store_with_peers(1);
    assert_eq!((g.hot_rounds(), g.cold_rounds(), g.terminate_rounds()), (1, 2, 2));
    g.add_peer();
    assert_eq!((g.hot_rounds(), g.cold_rounds(), g.terminate_rounds()), (1, 2, 2));
}

#[test]
fn thresholds_never_decrease() {
    let mut g = Gossip::new();
    let mut last = (0u8, 0u8, 0u8);
    for n in 1..=3000u64 {
        g.add_peer();
        let now = (g.hot_rounds(), g.cold_rounds(), g.terminate_rounds());
        assert!(now.0 >= last.0 && now.1 >= last.1 && now.2 >= last.2, "at {}", n);
        assert!(now.0 <= now.1 && now.1 <= now.2);
        if n == 1618 {
            assert_eq!(now, (1, 2, 7));
        }
        if n == 1619 {
            assert_eq!(now, (2, 4, 7));
        }
        last = now;
    }
    assert_eq!(last, (2, 4, 8));
}

#[test]
fn floor_ln_matches_float_logarithm() {
    for n in 1..20000u64 {
        assert_eq!(floor_ln_u64(n) as f64, (n as f64).ln().floor(), "at {}", n);
    }
    assert_eq!(floor_ln_u64(0), 0);
}

#[test]
fn floor_ln_at_the_ends() {
    assert_eq!(floor_ln_u64(2), 0);
    assert_eq!(floor_ln_u64(3), 1);
    assert_eq!(floor_ln_u64(12851600114359308275), 43);
    assert_eq!(floor_ln_u64(12851600114359308276), 44);
    assert_eq!(floor_ln_u64(u64::MAX), 44);
}

#[test]
fn floor_ln_ln_steps() {
    assert_eq!(floor_ln_ln_u64(0), 0);
    assert_eq!(floor_ln_ln_u64(1), 0);
    assert_eq!(floor_ln_ln_u64(15), 0);
    assert_eq!(floor_ln_ln_u64(16), 1);
    assert_eq!(floor_ln_ln_u64(1618), 1);
    assert_eq!(floor_ln_ln_u64(1619), 2);
    assert_eq!(floor_ln_ln_u64(528491311), 2);
    assert_eq!(floor_ln_ln_u64(528491312), 3);
    assert_eq!(floor_ln_ln_u64(u64::MAX), 3);
    for n in 3..5000u64 {
        assert_eq!(floor_ln_ln_u64(n) as f64, (n as f64).ln().ln().floor(), "at {}", n);
    }
}

#[test]
fn inform_twice_keeps_one_entry() {
    let mut g = store_with_peers(20);
    g.inform(payload("p"));
    g.inform(payload("p"));
    assert_eq!(g.messages(), vec![payload("p")]);
}

#[test]
fn inform_does_not_reset_a_known_rumor() {
    let mut g = store_with_peers(20);
    g.receive(1, payload("p"));
    g.inform(payload("p"));
    assert_eq!(g.handle_pull(), vec![(1, payload("p"))]);
}

#[test]
fn receive_unseen_starts_at_count() {
    let mut g = store_with_peers(20);
    g.receive(2, payload("p"));
    assert_eq!(g.messages(), vec![payload("p")]);
    // push counter 2 is past the hot phase, still within the cold one
    assert_eq!(g.get_push_list(), vec![]);
    assert_eq!(g.handle_pull(), vec![]);
}

#[test]
fn receive_unseen_age_is_count() {
    let mut g = store_with_peers(20);
    g.receive(1, payload("p"));
    assert_eq!(g.handle_pull(), vec![(1, payload("p"))]);
    assert_eq!(g.get_push_list(), vec![(1, payload("p"))]);
    // age was 1, is 2 now: one more round is still within the limit of 2
    assert_eq!(g.handle_pull(), vec![(2, payload("p"))]);
    g.get_push_list();
    assert_eq!(g.handle_pull(), vec![]);
}

#[test]
fn receive_raises_push_counter_only() {
    let mut g = store_with_peers(20);
    g.inform(payload("p"));
    g.receive(1, payload("p"));
    assert_eq!(g.handle_pull(), vec![(1, payload("p"))]);
    g.receive(0, payload("p"));
    assert_eq!(g.handle_pull(), vec![(1, payload("p"))]);
    g.receive(2, payload("p"));
    assert_eq!(g.handle_pull(), vec![(2, payload("p"))]);
}

#[test]
fn pull_twice_answers_the_same() {
    let mut g = store_with_peers(20);
    g.inform(payload("a"));
    g.receive(2, payload("b"));
    g.receive(7, payload("c"));
    let first = g.handle_pull();
    let second = g.handle_pull();
    assert_eq!(first, second);
    assert_eq!(first.len(), 2);
}

#[test]
fn inform_then_push_offers_counter_zero() {
    let mut g = store_with_peers(20);
    g.inform(payload("p"));
    assert_eq!(g.get_push_list(), vec![(0, payload("p"))]);
}

#[test]
fn rumor_terminates_after_its_rounds() {
    let mut g = store_with_peers(20);
    let t = g.terminate_rounds() as usize;
    assert_eq!(t, 2);
    g.inform(payload("p"));
    for _ in 0..t + 1 {
        assert_eq!(g.get_push_list(), vec![(0, payload("p"))]);
    }
    assert_eq!(g.get_push_list(), vec![]);
    assert_eq!(g.handle_pull(), vec![]);
    assert_eq!(g.get_push_list(), vec![]);
    assert_eq!(g.messages(), vec![payload("p")]);
}

#[test]
fn majority_of_hits_fast_forwards() {
    let mut g = store_with_peers(20);
    g.inform(payload("p"));
    assert_eq!(g.get_push_list(), vec![(0, payload("p"))]);
    let hot = g.hot_rounds();
    g.receive(hot, payload("p"));
    g.receive(hot, payload("p"));
    g.receive(hot - 1, payload("p"));
    assert_eq!(g.get_push_list(), vec![(hot, payload("p"))]);
    // no step from the cold phase (still hot), one from the majority
    assert_eq!(g.handle_pull(), vec![(hot + 1, payload("p"))]);
}

#[test]
fn minority_of_hits_does_not_fast_forward() {
    let mut g = store_with_peers(20);
    g.inform(payload("p"));
    g.receive(0, payload("p"));
    g.receive(1, payload("p"));
    g.receive(0, payload("p"));
    // counter raised to 1 by the report; hits 0, 1, 0 against 1: one at or past, two below
    assert_eq!(g.get_push_list(), vec![(1, payload("p"))]);
    assert_eq!(g.handle_pull(), vec![(1, payload("p"))]);
}

#[test]
fn hits_are_consumed_each_round() {
    let mut g = store_with_peers(20);
    g.inform(payload("p"));
    g.receive(0, payload("p"));
    g.get_push_list();
    // the one hit at 0 lifted the counter to 1 and was consumed
    assert_eq!(g.handle_pull(), vec![(1, payload("p"))]);
    g.get_push_list();
    assert_eq!(g.handle_pull(), vec![(1, payload("p"))]);
}

#[test]
fn cold_phase_steps_each_round() {
    let mut g = store_with_peers(1700);
    assert_eq!((g.hot_rounds(), g.cold_rounds(), g.terminate_rounds()), (2, 4, 7));
    g.receive(3, payload("p"));
    assert_eq!(g.get_push_list(), vec![]);
    assert_eq!(g.handle_pull(), vec![(4, payload("p"))]);
    g.get_push_list();
    assert_eq!(g.handle_pull(), vec![]);
    assert_eq!(g.messages(), vec![payload("p")]);
}

#[test]
fn messages_follow_digest_order() {
    let mut g = Gossip::new();
    let payloads = [payload("alpha"), payload("beta"), payload("gamma"), payload("delta")];
    for p in payloads.iter() {
        g.inform(p.clone());
    }
    let mut expected: Vec<Vec<u8>> = payloads.to_vec();
    expected.sort_by_key(|p| tiny_keccak::sha3_256(p));
    assert_ne!(expected, payloads.to_vec());
    assert_eq!(g.messages(), expected);
}

#[test]
fn push_list_filters_by_phase_and_age() {
    let mut g = store_with_peers(20);
    g.inform(payload("fresh"));
    g.receive(2, payload("cold"));
    g.receive(9, payload("retired"));
    let mut pushed = g.get_push_list();
    pushed.sort();
    assert_eq!(pushed, vec![(0, payload("fresh"))]);
}

#[test]
fn catch_up_survives_other_calls() {
    let mut g = store_with_peers(1700);
    g.receive(1, payload("p"));
    g.inform(payload("q"));
    g.add_peer();
    g.receive(0, payload("q"));
    g.handle_pull();
    g.get_push_list();
    g.receive(0, payload("p"));
    let pulled = g.handle_pull();
    let p_entry: Vec<&(u8, Vec<u8>)> = pulled.iter().filter(|x| x.1 == payload("p")).collect();
    assert_eq!(p_entry.len(), 1);
    assert!(p_entry[0].0 >= 1);
    let msgs = g.messages();
    assert_eq!(msgs.len(), 2);
    assert_ne!(msgs[0], msgs[1]);
}
