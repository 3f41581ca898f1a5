use ssle_core::network::{
    broadcast_targets, connection_plan, default_participant_ports, participants_indexed,
    peer_order, share_steps, share_to_p0_steps, RetryBudget, ShareStep,
};

#[test]
fn participants_must_be_listed_by_index() {
    assert!(participants_indexed(&[]));
    assert!(participants_indexed(&[0, 1, 2]));
    assert!(!participants_indexed(&[0, 2]));
    assert!(!participants_indexed(&[1, 0]));
}

#[test]
fn connection_plan_accepts_later_and_dials_earlier() {
    assert_eq!(connection_plan(2, 5), (2, vec![0, 1]));
    assert_eq!(connection_plan(0, 3), (2, vec![]));
    assert_eq!(connection_plan(2, 3), (0, vec![0, 1]));
}

#[test]
fn every_pair_is_linked_once() {
    let n = 6;
    let mut accepted = 0;
    let mut dialed = 0;
    for i in 0..n {
        let (accepts, dials) = connection_plan(i, n);
        accepted += accepts;
        dialed += dials.len();
        for j in dials {
            assert!((j as usize) < i);
        }
    }
    assert_eq!(accepted, n * (n - 1) / 2);
    assert_eq!(dialed, accepted);
}

#[test]
fn broadcast_skips_only_the_sender() {
    assert_eq!(broadcast_targets(4, 1), vec![0, 2, 3]);
    assert_eq!(broadcast_targets(3, 7), vec![0, 1, 2]);
    assert_eq!(broadcast_targets(1, 0), Vec::<u32>::new());
}

#[test]
fn share_steps_broadcast_own_and_receive_others() {
    assert_eq!(
        share_steps(3, 1),
        vec![ShareStep::Receive(0), ShareStep::BroadcastOwn, ShareStep::Receive(2)]
    );
    assert_eq!(
        share_to_p0_steps(3, 0, true),
        vec![ShareStep::CopyOwn, ShareStep::Receive(1), ShareStep::Receive(2)]
    );
    assert_eq!(share_to_p0_steps(3, 2, false), vec![ShareStep::SendToLeader]);
}

#[test]
fn retry_budget_runs_out() {
    let mut budget = RetryBudget::new(2);
    assert!(budget.has_attempt_left());
    budget.record_failure();
    assert!(budget.has_attempt_left());
    budget.record_failure();
    assert!(!budget.has_attempt_left());
    assert!(!RetryBudget::new(0).has_attempt_left());
}

#[test]
fn default_ports_count_up() {
    assert_eq!(
        default_participant_ports(3, 8000),
        vec![(0, 8000), (1, 8001), (2, 8002)]
    );
    assert_eq!(default_participant_ports(0, 65535), vec![]);
}

#[test]
fn collector_orders_connections_by_peer_id() {
    assert_eq!(peer_order(&[3, 1, 2]), vec![1, 2, 0]);
    assert_eq!(peer_order(&[]), Vec::<usize>::new());
    assert_eq!(peer_order(&[2, 1, 2]), vec![1, 0, 2]);
    assert_eq!(peer_order(&[5, 4, 3, 2, 1]), vec![4, 3, 2, 1, 0]);
}
