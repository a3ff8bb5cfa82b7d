use core_cbc_casper::example::vote_count::VoteCount;
use core_cbc_casper::justification::LatestMsgs;
use core_cbc_casper::justification::SenderState;
use core_cbc_casper::message::Error;
use core_cbc_casper::message::Message;
use core_cbc_casper::util::weight::SendersWeight;
use core_cbc_casper::util::weight::WeightUnit;
use std::collections::HashSet;

fn unit_weights(n: u32) -> SendersWeight {
    SendersWeight::new((0..n).map(|v| (v, WeightUnit::Finite(1))).collect())
}

fn new_state(
    validators: u32,
    latest_msgs: LatestMsgs<VoteCount>,
    threshold: u64,
) -> SenderState<VoteCount> {
    SenderState::new(
        unit_weights(validators),
        WeightUnit::Finite(0),
        None,
        latest_msgs,
        WeightUnit::Finite(threshold),
        HashSet::new(),
    )
}

fn ids(msgs: &[&Message<VoteCount>]) -> Vec<Vec<u8>> {
    let mut ids: Vec<Vec<u8>> = msgs.iter().map(|m| m.id().to_vec()).collect();
    ids.sort();
    ids
}

fn justification_ids(msg: &Message<VoteCount>) -> Vec<Vec<u8>> {
    let cited: Vec<&Message<VoteCount>> = msg.justification().iter().collect();
    ids(&cited)
}

#[test]
fn message_equality() {
    let validator_state = new_state(3, LatestMsgs::new(), 0);

    let v0 = &VoteCount::create_vote_message(0, false);
    let v1 = &VoteCount::create_vote_message(1, true);
    let v0_prime = &VoteCount::create_vote_message(0, true);
    let v0_duplicate = &VoteCount::create_vote_message(0, false);

    let mut validator_state_clone = validator_state.clone();
    validator_state_clone.update(&[v0]);
    let m0 = Message::from_validator_state(0, &validator_state_clone).unwrap();

    let mut validator_state_clone = validator_state.clone();
    validator_state_clone.update(&[v0]);
    let message1 = Message::from_validator_state(0, &validator_state_clone).unwrap();

    let mut validator_state_clone = validator_state.clone();
    validator_state_clone.update(&[v0]);
    let message2 = Message::from_validator_state(0, &validator_state_clone).unwrap();

    let mut validator_state_clone = validator_state;
    validator_state_clone.update(&[v0, &m0]);
    let message3 = Message::from_validator_state(0, &validator_state_clone).unwrap();

    assert_eq!(v0, v0_duplicate, "v0 and v0_duplicate should be equal");
    assert_ne!(v0, v0_prime, "v0 and v0_prime should NOT be equal");
    assert_ne!(v0, v1, "v0 and v1 should NOT be equal");
    assert_eq!(message1, message2, "messages should be equal");
    assert_ne!(
        message1, message3,
        "message1 should be different than message3"
    );
}

#[test]
fn message_depends() {
    let validator_state = new_state(3, LatestMsgs::new(), 0);

    let v0 = &VoteCount::create_vote_message(0, false);
    let v0_prime = &VoteCount::create_vote_message(0, true);

    let mut validator_state_clone = validator_state.clone();
    validator_state_clone.update(&[v0]);
    let m0 = Message::from_validator_state(0, &validator_state_clone).unwrap();

    let mut validator_state_clone = validator_state.clone();
    validator_state_clone.update(&[&v0]);
    let m0_2 = Message::from_validator_state(0, &validator_state_clone).unwrap();

    let mut validator_state_clone = validator_state;
    validator_state_clone.update(&[v0, &m0_2]);
    let m1 = Message::from_validator_state(0, &validator_state_clone).unwrap();

    assert!(
        !v0.depends(v0_prime),
        "v0 does NOT depend on v0_prime as they are equivocating"
    );
    assert!(
        !m0.depends(&m0),
        "m0 does NOT depend on itself directly, by our impl choice"
    );
    assert!(!m0.depends(v0_prime), "m0 depends on v0 directly");
    assert!(m0.depends(v0), "m0 depends on v0 directly");
    assert!(m1.depends(&m0), "m1 DOES depend on m0");
    assert!(!m0.depends(&m1), "but m0 does NOT depend on m1");
    assert!(m1.depends(v0), "m1 depends on v0 through m0");
}

#[test]
fn message_equivocates() {
    let mut validator_state = new_state(2, LatestMsgs::new(), 0);

    let v0 = &VoteCount::create_vote_message(0, false);
    let v0_prime = &VoteCount::create_vote_message(0, true);
    let v1 = &VoteCount::create_vote_message(1, true);

    validator_state.update(&[&v0]);
    let m0 = Message::from_validator_state(0, &validator_state).unwrap();

    assert!(!v0.equivocates(v0), "should be all good");
    assert!(!v1.equivocates(&m0), "should be all good");
    assert!(!m0.equivocates(v1), "should be all good");
    assert!(v0.equivocates(v0_prime), "should be a direct equivocation");
    assert!(
        m0.equivocates(v0_prime),
        "should be an indirect equivocation, equivocates to m0 through v0"
    );
}

#[test]
fn from_validator_state() {
    let v0 = VoteCount::create_vote_message(0, false);
    let v1 = VoteCount::create_vote_message(1, false);
    let v2 = VoteCount::create_vote_message(2, true);

    let mut latest_messages = LatestMsgs::new();
    latest_messages.update(&v0);
    latest_messages.update(&v1);
    latest_messages.update(&v2);

    let res = Message::from_validator_state(0, &new_state(3, latest_messages, 0))
        .expect("No errors expected");

    assert_eq!(*res.estimate(), VoteCount { yes: 1, no: 2 });
    assert_eq!(*res.sender(), 0);
    assert_eq!(justification_ids(&res), ids(&[&v0, &v1, &v2]));
}

#[test]
fn from_validator_state_duplicates() {
    let v0 = VoteCount::create_vote_message(0, true);
    let v0_prime = VoteCount::create_vote_message(0, true);

    let mut latest_messages = LatestMsgs::new();
    latest_messages.update(&v0);
    latest_messages.update(&v0_prime);

    let res = Message::from_validator_state(0, &new_state(1, latest_messages, 0))
        .expect("No errors expected");

    assert_eq!(*res.estimate(), VoteCount { yes: 1, no: 0 });
    assert_eq!(*res.sender(), 0);
    assert_eq!(justification_ids(&res), ids(&[&v0]));
}

#[test]
fn from_validator_state_equivocator() {
    let v0 = VoteCount::create_vote_message(0, false);
    let v0_prime = VoteCount::create_vote_message(0, true);
    let v1 = VoteCount::create_vote_message(1, true);

    let mut latest_messages = LatestMsgs::new();
    latest_messages.update(&v0);
    latest_messages.update(&v0_prime);
    latest_messages.update(&v1);

    let res = Message::from_validator_state(2, &new_state(3, latest_messages, 4))
        .expect("No errors expected");

    // No messages from the equivocator in the justification: the latest honest
    // messages leave out a validator with two latest messages.
    assert_eq!(*res.sender(), 2);
    assert_eq!(*res.estimate(), VoteCount { yes: 1, no: 0 });
    assert_eq!(justification_ids(&res), ids(&[&v1]));
}

#[test]
fn from_validator_state_equivocator_at_threshhold() {
    let v0 = VoteCount::create_vote_message(0, false);
    let v0_prime = VoteCount::create_vote_message(0, true);
    let v1 = VoteCount::create_vote_message(1, true);

    let mut latest_messages = LatestMsgs::new();
    latest_messages.update(&v0);
    latest_messages.update(&v0_prime);
    latest_messages.update(&v1);

    let res = Message::from_validator_state(2, &new_state(3, latest_messages, 0))
        .expect("No errors expected");

    // No messages from the equivocator in the justification.
    assert_eq!(*res.sender(), 2);
    assert_eq!(*res.estimate(), VoteCount { yes: 1, no: 0 });
    assert_eq!(justification_ids(&res), ids(&[&v1]));
}

#[test]
fn from_validator_state_only_equivocations() {
    // With an equivocator and only his messages in the state,
    // from_validator_state returns an error.
    let v0 = VoteCount::create_vote_message(0, false);
    let v0_prime = VoteCount::create_vote_message(0, true);

    let mut latest_messages = LatestMsgs::new();
    latest_messages.update(&v0);
    latest_messages.update(&v0_prime);

    let res = Message::<VoteCount>::from_validator_state(0, &new_state(1, latest_messages, 0));
    match res {
        Err(Error::NoNewMessage) => (),
        _ => panic!("Expected NoNewMessage"),
    }
}

#[test]
fn message_equivocates_indirect_direct_equivocation() {
    let v0 = VoteCount::create_vote_message(0, false);
    let v0_prime = VoteCount::create_vote_message(0, true);

    assert!(v0.equivocates_indirect(&v0_prime, HashSet::new()).0);
}

#[test]
fn message_equivocates_indirect_semi_direct() {
    let mut validator_state = new_state(3, LatestMsgs::new(), 0);

    // v0   v1
    //  |   |
    // m1   |
    //      m2
    //
    // validator 1 is equivocating

    let v0 = VoteCount::create_vote_message(0, false);
    let v1 = VoteCount::create_vote_message(1, true);

    validator_state.update(&[&v0]);
    let m1 = Message::from_validator_state(1, &validator_state).unwrap();

    validator_state.update(&[&v1]);
    let m2 = Message::from_validator_state(2, &validator_state).unwrap();

    assert!(m2.equivocates_indirect(&m1, HashSet::new()).0);

    // Cannot see future messages
    assert!(!m2.equivocates_indirect(&v0, HashSet::new()).0);
    assert!(!v0.equivocates_indirect(&v1, HashSet::new()).0);
}

#[test]
fn message_equivocates_indirect_commutativity() {
    let mut validator_state = new_state(3, LatestMsgs::new(), 0);

    // v0   v1
    //  |   |
    // m1   |
    //      m2
    //
    // validator 1 is equivocating

    let v0 = VoteCount::create_vote_message(0, false);
    let v1 = VoteCount::create_vote_message(1, true);

    validator_state.update(&[&v0]);
    let m1 = Message::from_validator_state(1, &validator_state).unwrap();

    validator_state.update(&[&v1]);
    let m2 = Message::from_validator_state(2, &validator_state).unwrap();

    // The search is not commutative, does not try every combination of
    // messages, and compares v0 with itself in both instances.
    assert!(!m1.equivocates_indirect(&m2, HashSet::new()).0);
    assert!(m2.equivocates_indirect(&m1, HashSet::new()).0);
}

#[test]
fn message_equivocates_indirect_total_indirection() {
    let mut validator_state = new_state(4, LatestMsgs::new(), 0);

    // v0   v1
    //  |   |
    // m1   |
    //  |   m2
    // m3
    //
    // validator 1 is equivocating

    let v0 = VoteCount::create_vote_message(0, false);
    let v1 = VoteCount::create_vote_message(1, true);

    let mut validator_state_clone = validator_state.clone();
    validator_state_clone.update(&[&v0]);
    let m1 = Message::from_validator_state(1, &validator_state_clone).unwrap();

    validator_state_clone.update(&[&v1]);
    let m2 = Message::from_validator_state(2, &validator_state_clone).unwrap();

    validator_state.update(&[&m1]);
    let m3 = Message::from_validator_state(3, &validator_state).unwrap();

    // In this case, only 1 is equivocating. m1 and v1 are independent of each other. Neither
    // m2 or m3 are faulty messages but they are on different protocol branches created by
    // 1's equivocation.
    assert!(m2.equivocates_indirect(&m3, HashSet::new()).0);
}

#[test]
fn equivocators_below_finds_every_equivocation() {
    let mut validator_state = new_state(4, LatestMsgs::new(), 0);

    // v0   v1
    //  |   |
    // m1   |
    //  |   m2
    // m3
    //
    // validator 1 is equivocating: m1 and v1 do not depend on each other

    let v0 = VoteCount::create_vote_message(0, false);
    let v1 = VoteCount::create_vote_message(1, true);

    let mut validator_state_clone = validator_state.clone();
    validator_state_clone.update(&[&v0]);
    let m1 = Message::from_validator_state(1, &validator_state_clone).unwrap();

    validator_state_clone.update(&[&v1]);
    let m2 = Message::from_validator_state(2, &validator_state_clone).unwrap();

    validator_state.update(&[&m1]);
    let m3 = Message::from_validator_state(3, &validator_state).unwrap();

    let only_one: HashSet<u32> = [1].into_iter().collect();
    // The search is symmetric and looks at every pair of messages.
    assert_eq!(m1.equivocators_below(&m2), only_one);
    assert_eq!(m2.equivocators_below(&m1), only_one);
    assert_eq!(m2.equivocators_below(&m3), only_one);
    assert_eq!(m3.equivocators_below(&m2), only_one);
    assert_eq!(m1.equivocators_below(&v1), only_one);
    assert_eq!(m2.equivocators_below(&v0), HashSet::new());
    assert_eq!(v0.equivocators_below(&v1), HashSet::new());
    assert_eq!(m3.equivocators_below(&m3), HashSet::new());

    let v0_prime = VoteCount::create_vote_message(0, true);
    let both: HashSet<u32> = [0, 1].into_iter().collect();
    assert_eq!(m2.equivocators_below(&v0_prime), [0].into_iter().collect());
    let mut state = new_state(4, LatestMsgs::new(), 0);
    state.update(&[&m1, &v0_prime]);
    let m4 = Message::from_validator_state(3, &state).unwrap();
    assert_eq!(m4.equivocators_below(&m2), both);
}
