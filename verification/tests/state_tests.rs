use core_cbc_casper::example::vote_count::VoteCount;
use core_cbc_casper::justification::Justification;
use core_cbc_casper::justification::LatestMsgs;
use core_cbc_casper::justification::LatestMsgsHonest;
use core_cbc_casper::justification::SenderState;
use core_cbc_casper::message::Content;
use core_cbc_casper::message::Error;
use core_cbc_casper::message::Message;
use core_cbc_casper::traits::Id;
use core_cbc_casper::traits::MalleableEncoding;
use core_cbc_casper::traits::Serialize;
use core_cbc_casper::util::hash;
use core_cbc_casper::util::weight::SendersWeight;
use core_cbc_casper::util::weight::WeightUnit;
use std::collections::HashSet;

type Msg = Message<VoteCount>;

fn weights(entries: &[(u32, u64)]) -> SendersWeight {
    SendersWeight::new(
        entries
            .iter()
            .map(|(v, w)| (*v, WeightUnit::Finite(*w)))
            .collect(),
    )
}

fn state(entries: &[(u32, u64)], threshold: u64) -> SenderState<VoteCount> {
    SenderState::new(
        weights(entries),
        WeightUnit::Finite(0),
        None,
        LatestMsgs::new(),
        WeightUnit::Finite(threshold),
        HashSet::new(),
    )
}

fn ids_of(justification: &Justification<VoteCount>) -> Vec<Vec<u8>> {
    justification.iter().map(|m| m.id().to_vec()).collect()
}

fn frontier(latest: &LatestMsgs<VoteCount>, sender: u32) -> Vec<Vec<u8>> {
    match latest.get(&sender) {
        Some(msgs) => ids_of(msgs),
        None => Vec::new(),
    }
}

fn id(msg: &Msg) -> Vec<u8> {
    msg.id().to_vec()
}

fn build(sender: u32, cited: &[&Msg], vote: bool) -> Msg {
    let mut justification = Justification::new();
    for msg in cited {
        justification.insert((*msg).clone());
    }
    let estimate = if vote {
        VoteCount { yes: 1, no: 0 }
    } else {
        VoteCount { yes: 0, no: 1 }
    };
    Message::new(sender, justification, estimate)
}

#[test]
fn message_id_is_the_digest_of_the_canonical_bytes() {
    let v0 = VoteCount::create_vote_message(0, true);
    let v1 = VoteCount::create_vote_message(1, false);
    let m = build(2, &[&v0, &v1], true);

    let mut expected = vec![0, 0, 0, 2];
    expected.extend_from_slice(&[0, 0, 0, 0, 0, 0, 0, 8]);
    expected.extend_from_slice(&[0, 0, 0, 1, 0, 0, 0, 0]);
    expected.extend_from_slice(&[0, 0, 0, 0, 0, 0, 0, 2]);
    expected.extend_from_slice(&id(&v0));
    expected.extend_from_slice(&id(&v1));
    assert_eq!(m.serialize(), expected);
    assert!(m.id().eq(&hash::Hash::digest(&expected)));
    assert!(m.getid().eq(&m.id()));
    assert_eq!(*m.sender(), 2);
    assert_eq!(*m.estimate(), VoteCount { yes: 1, no: 0 });
    assert_eq!(ids_of(m.justification()), vec![id(&v0), id(&v1)]);
}

#[test]
fn message_id_depends_on_the_parts_only() {
    let v0 = VoteCount::create_vote_message(0, true);
    let v1 = VoteCount::create_vote_message(1, false);
    let a = build(2, &[&v0, &v1], true);
    let b = build(2, &[&v0.clone(), &VoteCount::create_vote_message(1, false)], true);
    assert_eq!(a, b);
    assert_ne!(a, build(3, &[&v0, &v1], true));
    assert_ne!(a, build(2, &[&v0, &v1], false));
    assert_ne!(a, build(2, &[&v0], true));
    assert_ne!(a, build(2, &[&v1, &v0], true));
}

#[test]
fn message_round_trip() {
    let v0 = VoteCount::create_vote_message(0, true);
    let v1 = VoteCount::create_vote_message(1, false);
    let m = build(2, &[&v0, &v1], true);
    let bytes = m.serialize();
    let content: Content<VoteCount> = Content::deserialize(&bytes).unwrap();
    assert_eq!(content.sender, 2);
    assert_eq!(content.estimate, VoteCount { yes: 1, no: 0 });
    assert_eq!(content.justification.len(), 2);
    assert!(content.justification[0].eq(&v0.id()));
    assert!(content.justification[1].eq(&v1.id()));
    assert_eq!(content.serialize(), bytes);
    assert!(content.id().eq(&m.id()));

    let vote_bytes = v0.serialize();
    let vote: Content<VoteCount> = Content::deserialize(&vote_bytes).unwrap();
    assert_eq!(vote.justification.len(), 0);
    assert!(vote.id().eq(&v0.id()));
}

#[test]
fn malleable_encodings_are_rejected() {
    let v0 = VoteCount::create_vote_message(0, true);
    let m = build(2, &[&v0], true);
    let bytes = m.serialize();
    let reject = |bytes: &[u8]| match Content::<VoteCount>::deserialize(bytes) {
        Err(MalleableEncoding) => true,
        Ok(_) => false,
    };
    assert!(!reject(&bytes));
    assert!(reject(&[]));
    assert!(reject(&bytes[..bytes.len() - 1]));
    assert!(reject(&bytes[..19]));
    let mut longer = bytes.clone();
    longer.push(0);
    assert!(reject(&longer));
    // The estimate claims more bytes than there are.
    let mut long_estimate = bytes.clone();
    long_estimate[4] = 1;
    assert!(reject(&long_estimate));
    // The bytes of the estimate are no vote count.
    let mut short_estimate = bytes.clone();
    short_estimate[11] = 7;
    assert!(reject(&short_estimate));
    // The number of identifiers does not fit the bytes that follow.
    let mut two = bytes.clone();
    two[27] = 2;
    assert!(reject(&two));
    let mut none = bytes.clone();
    none[27] = 0;
    assert!(reject(&none));
}

#[test]
fn depends_on_nothing_without_citations() {
    let v0 = VoteCount::create_vote_message(0, true);
    let v1 = VoteCount::create_vote_message(1, true);
    assert!(!v0.depends(&v0));
    assert!(!v0.depends(&v1));
    let m = build(0, &[&v0], true);
    let n = build(1, &[&m, &v1], true);
    assert!(n.depends(&v0));
    assert!(n.depends(&m));
    assert!(n.depends(&v1));
    assert!(!n.depends(&n));
    assert!(!m.depends(&n));
    assert!(!(m.depends(&n) && n.depends(&m)));
}

#[test]
fn depends_through_a_wide_dag() {
    // Five rounds in which each of three validators cites all messages of
    // the round before: many paths, few messages.
    let mut round: Vec<Msg> = (0..3).map(|v| VoteCount::create_vote_message(v, true)).collect();
    let first = round[0].clone();
    for _ in 0..12 {
        let cited: Vec<&Msg> = round.iter().collect();
        round = (0..3).map(|v| build(v, &cited, true)).collect();
    }
    assert!(round[2].depends(&first));
    assert!(!first.depends(&round[2]));
    assert!(!round[0].depends(&round[1]));
    assert!(!round[0].equivocates(&first));
    assert!(round[0].equivocates(&build(0, &[], false)));
}

#[test]
fn justification_holds_each_message_once() {
    let v0 = VoteCount::create_vote_message(0, true);
    let v1 = VoteCount::create_vote_message(1, true);
    let mut j = Justification::new();
    assert_eq!(j.len(), 0);
    assert!(!j.contains(&v0));
    assert!(j.insert(v0.clone()));
    assert!(!j.insert(v0.clone()));
    assert!(!j.insert(VoteCount::create_vote_message(0, true)));
    assert!(j.insert(v1.clone()));
    assert_eq!(j.len(), 2);
    assert!(j.contains(&v0));
    assert!(j.contains(&v1));
    assert_eq!(ids_of(&j), vec![id(&v0), id(&v1)]);
    assert_eq!(ids_of(&j.clone()), ids_of(&j));
    assert_eq!(j.get(1), &v1);
}

#[test]
fn latest_msgs_update_rule() {
    let v0 = VoteCount::create_vote_message(0, true);
    let v0_prime = VoteCount::create_vote_message(0, false);
    let m0 = build(0, &[&v0], true);
    let mut latest = LatestMsgs::new();

    // Unknown sender: the message is stored.
    assert!(latest.update(&v0));
    assert_eq!(frontier(&latest, 0), vec![id(&v0)]);
    // The same message again: nothing changes.
    assert!(!latest.update(&v0));
    assert_eq!(frontier(&latest, 0), vec![id(&v0)]);
    // A message that depends on the latest one replaces it.
    assert!(latest.update(&m0));
    assert_eq!(frontier(&latest, 0), vec![id(&m0)]);
    // A message that the latest one depends on is stale.
    assert!(!latest.update(&v0));
    assert_eq!(frontier(&latest, 0), vec![id(&m0)]);
    // An independent message stands beside the latest one.
    assert!(latest.update(&v0_prime));
    assert_eq!(frontier(&latest, 0), vec![id(&m0), id(&v0_prime)]);
    // A message that depends on both replaces both.
    let m1 = build(0, &[&m0, &v0_prime], true);
    assert!(latest.update(&m1));
    assert_eq!(frontier(&latest, 0), vec![id(&m1)]);
    assert_eq!(latest.len(), 1);
}

#[test]
fn latest_msgs_update_is_idempotent() {
    let v0 = VoteCount::create_vote_message(0, true);
    let v0_prime = VoteCount::create_vote_message(0, false);
    let v1 = VoteCount::create_vote_message(1, false);
    let m0 = build(0, &[&v0], true);
    for new in [&v0, &v0_prime, &v1, &m0] {
        let mut latest = LatestMsgs::new();
        latest.update(&v0);
        latest.update(&v0_prime);
        latest.update(new);
        let once = (frontier(&latest, 0), frontier(&latest, 1), latest.len());
        assert!(!latest.update(new));
        assert_eq!(
            (frontier(&latest, 0), frontier(&latest, 1), latest.len()),
            once
        );
    }
}

#[test]
fn latest_msgs_as_a_map() {
    let v0 = VoteCount::create_vote_message(0, true);
    let v2 = VoteCount::create_vote_message(2, true);
    let v2_prime = VoteCount::create_vote_message(2, false);
    let v5 = VoteCount::create_vote_message(5, true);
    let single = |msg: &Msg| {
        let mut j = Justification::new();
        j.insert(msg.clone());
        j
    };
    let mut latest: LatestMsgs<VoteCount> = LatestMsgs::new();
    assert_eq!(latest.len(), 0);
    assert!(!latest.contains_key(&2));
    assert!(latest.get(&2).is_none());
    assert!(latest.insert(5, single(&v5)).is_none());
    assert!(latest.insert(0, single(&v0)).is_none());
    assert!(latest.insert(2, single(&v2)).is_none());
    assert_eq!(latest.keys(), &vec![0, 2, 5]);
    assert_eq!(latest.len(), 3);
    assert!(latest.contains_key(&2));
    assert_eq!(frontier(&latest, 2), vec![id(&v2)]);
    let before = latest.insert(2, single(&v2_prime)).unwrap();
    assert_eq!(ids_of(&before), vec![id(&v2)]);
    assert_eq!(frontier(&latest, 2), vec![id(&v2_prime)]);
    assert_eq!(latest.len(), 3);
    let values: Vec<Vec<Vec<u8>>> = latest.values().iter().map(ids_of).collect();
    assert_eq!(values, vec![vec![id(&v0)], vec![id(&v2_prime)], vec![id(&v5)]]);
    let entries: Vec<(u32, Vec<Vec<u8>>)> = latest
        .iter()
        .into_iter()
        .map(|(sender, msgs)| (sender, ids_of(msgs)))
        .collect();
    assert_eq!(
        entries,
        vec![
            (0, vec![id(&v0)]),
            (2, vec![id(&v2_prime)]),
            (5, vec![id(&v5)])
        ]
    );
    assert!(latest.get_mut(&3).is_none());
    assert!(latest.get_mut(&2).unwrap().insert(v2.clone()));
    assert_eq!(frontier(&latest, 2), vec![id(&v2_prime), id(&v2)]);
    let copy = latest.clone();
    assert_eq!(copy.keys(), latest.keys());
    assert_eq!(frontier(&copy, 2), frontier(&latest, 2));
    assert!(latest.equivocate(&VoteCount::create_vote_message(0, false)));
    assert!(!latest.equivocate(&v0));
    assert!(!latest.equivocate(&VoteCount::create_vote_message(9, false)));
}

#[test]
fn honest_filter() {
    // Validator 0 equivocates, validator 1 is honest.
    let v0 = VoteCount::create_vote_message(0, true);
    let v0_prime = VoteCount::create_vote_message(0, false);
    let v1 = VoteCount::create_vote_message(1, true);
    let v2 = VoteCount::create_vote_message(2, true);
    let mut latest = LatestMsgs::new();
    latest.update(&v0);
    latest.update(&v0_prime);
    latest.update(&v1);
    let mut equivocators = HashSet::new();
    equivocators.insert(0);
    let honest = LatestMsgsHonest::from_latest_msgs(&latest, &equivocators);
    assert_eq!(honest.len(), 1);
    assert_eq!(honest.iter()[0], v1);
    assert_eq!(honest.len(), latest.len() - equivocators.len());

    // Two latest messages keep a validator out even where it is not
    // among the equivocators.
    let honest = LatestMsgsHonest::from_latest_msgs(&latest, &HashSet::new());
    assert_eq!(honest.len(), 1);

    // An equivocator with one latest message stays out as well.
    latest.update(&v2);
    let mut equivocators = HashSet::new();
    equivocators.insert(2);
    let honest = LatestMsgsHonest::from_latest_msgs(&latest, &equivocators);
    assert_eq!(honest.len(), 1);
    let honest = LatestMsgsHonest::from_latest_msgs(&latest, &HashSet::new());
    assert_eq!(honest.len(), 2);
    assert_eq!(honest.iter()[0], v1);
    assert_eq!(honest.iter()[1], v2);
}

#[test]
fn equivocation_detection() {
    let yes = VoteCount::create_vote_message(0, true);
    let no = VoteCount::create_vote_message(0, false);

    // Both messages among the latest messages, threshold 0: there is no
    // latest honest message, and nobody was admitted as an equivocator.
    let mut latest = LatestMsgs::new();
    latest.update(&yes);
    latest.update(&no);
    let refused = SenderState::new(
        weights(&[(0, 1)]),
        WeightUnit::Finite(0),
        None,
        latest,
        WeightUnit::Finite(0),
        HashSet::new(),
    );
    match Message::from_validator_state(0, &refused) {
        Err(Error::NoNewMessage) => (),
        _ => panic!("Expected NoNewMessage"),
    }
    assert!(refused.equivocators().is_empty());

    // Threshold 1: the equivocator is admitted, and the honest frontier is empty.
    let mut admitted = state(&[(0, 1)], 1);
    assert!(admitted.update(&[&yes, &no]));
    assert!(admitted.equivocators().contains(&0));
    assert_eq!(admitted.equivocators().len(), 1);
    assert_eq!(admitted.fault_weight(), WeightUnit::Finite(1));
    assert_eq!(
        LatestMsgsHonest::from_latest_msgs(admitted.latests_msgs(), admitted.equivocators()).len(),
        0
    );
    match Message::from_validator_state(0, &admitted) {
        Err(Error::NoNewMessage) => (),
        _ => panic!("Expected NoNewMessage"),
    }
}

#[test]
fn update_drops_what_the_threshold_refuses() {
    let yes = VoteCount::create_vote_message(0, true);
    let no = VoteCount::create_vote_message(0, false);
    let mut s = state(&[(0, 1)], 0);
    assert!(s.take_in(&yes));
    assert!(!s.take_in(&no));
    assert!(s.equivocators().is_empty());
    assert_eq!(s.fault_weight(), WeightUnit::Finite(0));
    assert_eq!(frontier(s.latests_msgs(), 0), vec![id(&yes)]);

    // A validator without a weight is admitted under an infinite threshold only.
    let other_yes = VoteCount::create_vote_message(7, true);
    let other_no = VoteCount::create_vote_message(7, false);
    let mut s = state(&[(0, 1)], u64::MAX);
    s.update(&[&other_yes, &other_no]);
    assert!(s.equivocators().is_empty());
    assert_eq!(s.latests_msgs().get(&7).unwrap().len(), 1);
    s.set_threshold(WeightUnit::Infinity);
    assert_eq!(s.threshold(), WeightUnit::Infinity);
    s.update(&[&other_yes, &other_no]);
    assert!(s.equivocators().contains(&7));
    assert_eq!(s.fault_weight(), WeightUnit::Infinity);
    assert_eq!(s.latests_msgs().get(&7).unwrap().len(), 2);
}

#[test]
fn fault_weight_stays_within_the_threshold() {
    let entries = [(0, 2), (1, 3), (2, 4)];
    let mut s = state(&entries, 5);
    let votes: Vec<Msg> = (0..3)
        .flat_map(|v| {
            vec![
                VoteCount::create_vote_message(v, true),
                VoteCount::create_vote_message(v, false),
            ]
        })
        .collect();
    for vote in &votes {
        s.update(&[vote]);
        assert!(s.fault_weight().le(s.threshold()));
    }
    // Validators 0 and 1 fit under the threshold together; validator 2 does not.
    assert_eq!(s.fault_weight(), WeightUnit::Finite(5));
    assert!(s.equivocators().contains(&0));
    assert!(s.equivocators().contains(&1));
    assert!(!s.equivocators().contains(&2));
    assert_eq!(s.latests_msgs().get(&2).unwrap().len(), 1);
}

#[test]
fn update_offers_the_cheapest_messages_first() {
    // Validator 0 (weight 3) and validator 1 (weight 2) both equivocate;
    // the threshold lets in one of them: the lighter one, whatever the
    // order in which the messages arrive.
    let yes0 = VoteCount::create_vote_message(0, true);
    let no0 = VoteCount::create_vote_message(0, false);
    let yes1 = VoteCount::create_vote_message(1, true);
    let no1 = VoteCount::create_vote_message(1, false);
    for batch in [[&no0, &no1], [&no1, &no0]] {
        let mut s = state(&[(0, 3), (1, 2)], 3);
        s.update(&[&yes0, &yes1]);
        let sorted = s.sort_by_faultweight(&batch);
        assert_eq!(sorted, vec![&no1, &no0]);
        assert!(s.update(&batch));
        assert!(s.equivocators().contains(&1));
        assert!(!s.equivocators().contains(&0));
        assert_eq!(s.fault_weight(), WeightUnit::Finite(2));
    }
}

#[test]
fn sort_by_faultweight_breaks_ties_by_identifier() {
    let s = state(&[(0, 1), (1, 1), (2, 1)], 0);
    let votes: Vec<Msg> = (0..3).map(|v| VoteCount::create_vote_message(v, true)).collect();
    let mut expected: Vec<&Msg> = votes.iter().collect();
    expected.sort_by_key(|m| m.id().to_vec());
    assert_eq!(s.sort_by_faultweight(&[&votes[0], &votes[1], &votes[2]]), expected);
    assert_eq!(s.sort_by_faultweight(&[&votes[2], &votes[1], &votes[0]]), expected);
    assert_eq!(s.sort_by_faultweight(&[]).len(), 0);
}

#[test]
fn faulty_insert_joins_justification_and_state() {
    let yes = VoteCount::create_vote_message(0, true);
    let no = VoteCount::create_vote_message(0, false);
    let s = state(&[(0, 1)], 0);
    let mut j = Justification::new();

    let (success, s) = j.faulty_insert(&yes, &s);
    assert!(success);
    assert_eq!(ids_of(&j), vec![id(&yes)]);
    assert_eq!(frontier(s.latests_msgs(), 0), vec![id(&yes)]);

    // A message that the justification holds is not inserted again.
    let (success, s) = j.faulty_insert(&yes, &s);
    assert!(!success);
    assert_eq!(j.len(), 1);

    // The equivocation does not fit under the threshold.
    let (success, mut s) = j.faulty_insert(&no, &s);
    assert!(!success);
    assert_eq!(j.len(), 1);
    assert!(s.equivocators().is_empty());

    // With a higher threshold it does.
    s.set_threshold(WeightUnit::Finite(1));
    let (success, s) = j.faulty_insert(&no, &s);
    assert!(success);
    assert_eq!(ids_of(&j), vec![id(&yes), id(&no)]);
    assert!(s.equivocators().contains(&0));
    assert_eq!(s.fault_weight(), WeightUnit::Finite(1));
}

#[test]
fn faulty_inserts_and_from_msgs() {
    let yes0 = VoteCount::create_vote_message(0, true);
    let no0 = VoteCount::create_vote_message(0, false);
    let yes1 = VoteCount::create_vote_message(1, true);
    let mut s = state(&[(0, 1), (1, 1)], 0);
    s.update(&[&yes0]);

    let mut j = Justification::new();
    let (success, after) = j.faulty_inserts(&[&no0, &yes1], &s);
    assert!(success);
    assert_eq!(ids_of(&j), vec![id(&yes1)]);
    assert_eq!(after.latests_msgs().len(), 2);
    assert!(after.equivocators().is_empty());

    let (success, _) = j.faulty_inserts(&[&no0], &s);
    assert!(!success);

    let (j, after) = Justification::from_msgs(vec![no0.clone(), yes1.clone()], &s);
    assert_eq!(ids_of(&j), vec![id(&yes1)]);
    assert_eq!(frontier(after.latests_msgs(), 0), vec![id(&yes0)]);
}

#[test]
fn faulty_insert_with_slash() {
    let yes = VoteCount::create_vote_message(0, true);
    let no = VoteCount::create_vote_message(0, false);
    let mut s = state(&[(0, 5)], 0);
    s.update(&[&yes]);
    let mut j = Justification::new();
    let (success, s) = j.faulty_insert_with_slash(&no, s);
    assert!(success);
    assert_eq!(ids_of(&j), vec![id(&no)]);
    assert!(s.equivocators().contains(&0));
    assert_eq!(s.senders_weights().weight(0), Ok(WeightUnit::Finite(0)));
    assert_eq!(s.fault_weight(), WeightUnit::Finite(0));
    assert_eq!(s.latests_msgs().get(&0).unwrap().len(), 2);

    // Without an equivocation nobody is slashed.
    let other = VoteCount::create_vote_message(1, true);
    let (success, s) = j.faulty_insert_with_slash(&other, s);
    assert!(success);
    assert!(!s.equivocators().contains(&1));
    let (success, _) = j.faulty_insert_with_slash(&other, s);
    assert!(!success);
}

#[test]
fn state_accessors() {
    let v0 = VoteCount::create_vote_message(0, true);
    let mut latest = LatestMsgs::new();
    latest.update(&v0);
    let mut equivocators = HashSet::new();
    equivocators.insert(4);
    let mut s = SenderState::new(
        weights(&[(0, 1)]),
        WeightUnit::Finite(2),
        Some(v0.clone()),
        latest,
        WeightUnit::Finite(3),
        equivocators,
    );
    assert_eq!(s.fault_weight(), WeightUnit::Finite(2));
    assert_eq!(s.threshold(), WeightUnit::Finite(3));
    assert_eq!(s.my_last_msg(), &Some(v0.clone()));
    assert!(s.equivocators().contains(&4));
    assert_eq!(s.senders_weights().weight(0), Ok(WeightUnit::Finite(1)));
    assert_eq!(frontier(s.latests_msgs(), 0), vec![id(&v0)]);
    s.set_fault_weight(WeightUnit::Finite(1));
    s.set_threshold(WeightUnit::Finite(9));
    s.set_senders_weights(weights(&[(0, 8)]));
    assert_eq!(s.fault_weight(), WeightUnit::Finite(1));
    assert_eq!(s.threshold(), WeightUnit::Finite(9));
    assert_eq!(s.senders_weights().weight(0), Ok(WeightUnit::Finite(8)));
    let v1 = VoteCount::create_vote_message(1, true);
    assert!(s.latests_msgs_as_mut().update(&v1));
    assert_eq!(s.latests_msgs().len(), 2);
    let copy = s.clone();
    assert_eq!(copy.latests_msgs().len(), 2);
    assert!(copy.equivocators().contains(&4));
}

#[test]
fn latest_msgs_from_justification() {
    let v0 = VoteCount::create_vote_message(0, true);
    let v1 = VoteCount::create_vote_message(1, false);
    let m0 = build(0, &[&v0, &v1], true);
    let m2 = build(2, &[&m0], true);
    let latest = LatestMsgs::from_justification(m2.justification());
    // The walk takes in m0, then v0 (stale) and v1.
    assert_eq!(latest.keys(), &vec![0, 1]);
    assert_eq!(frontier(&latest, 0), vec![id(&m0)]);
    assert_eq!(frontier(&latest, 1), vec![id(&v1)]);
    assert_eq!(LatestMsgs::<VoteCount>::from_justification(&Justification::new()).len(), 0);

    // The estimate of the justification: the weighted votes of m0 and v1.
    assert_eq!(
        m2.justification()
            .mk_estimate(&HashSet::new(), &weights(&[(0, 1), (1, 1)])),
        Ok(VoteCount { yes: 1, no: 1 })
    );
}

#[test]
fn estimate_is_reproducible_from_the_justification() {
    let v0 = VoteCount::create_vote_message(0, true);
    let v1 = VoteCount::create_vote_message(1, false);
    let v2 = VoteCount::create_vote_message(2, false);
    let w = [(0, 1), (1, 2), (2, 4)];
    let mut s = state(&w, 0);
    s.update(&[&v0, &v1, &v2]);
    let m = Message::from_validator_state(0, &s).unwrap();
    assert_eq!(*m.estimate(), VoteCount { yes: 1, no: 6 });
    assert_eq!(
        m.justification().mk_estimate(s.equivocators(), &weights(&w)),
        Ok(*m.estimate())
    );
    let again = LatestMsgsHonest::from_latest_msgs(
        &LatestMsgs::from_justification(m.justification()),
        s.equivocators(),
    );
    let honest = LatestMsgsHonest::from_latest_msgs(s.latests_msgs(), s.equivocators());
    assert_eq!(again.iter(), honest.iter());
    assert_eq!(again.mk_estimate(&weights(&w)), Ok(*m.estimate()));
}

#[test]
fn depends_gives_up_when_cancelled() {
    let v0 = VoteCount::create_vote_message(0, true);
    let m = build(0, &[&v0], true);
    let flag = std::sync::atomic::AtomicBool::new(false);
    assert_eq!(m.depends_unless(&v0, &flag), Some(true));
    assert_eq!(v0.depends_unless(&m, &flag), Some(false));
    flag.store(true, std::sync::atomic::Ordering::Relaxed);
    assert_eq!(m.depends_unless(&v0, &flag), None);
    assert_eq!(
        m.depends_unless(&v0, &core_cbc_casper::util::cancel::Never),
        Some(true)
    );
}

#[test]
fn depends_in_parallel_agrees_with_depends() {
    let v0 = VoteCount::create_vote_message(0, true);
    let v1 = VoteCount::create_vote_message(1, true);
    let v2 = VoteCount::create_vote_message(2, true);
    let m = build(0, &[&v0, &v1], true);
    let n = build(1, &[&m, &v1], true);
    let all = [&v0, &v1, &v2, &m, &n];
    for a in all {
        for b in all {
            assert_eq!(a.depends_in_parallel(b), a.depends(b));
        }
    }
    assert!(n.depends_in_parallel(&v0));
    assert!(!n.depends_in_parallel(&v2));
    assert!(!n.depends_in_parallel(&n));
}

#[test]
fn justification_in_parallel() {
    use_par_iter();
}

fn use_par_iter() {
    let v0 = VoteCount::create_vote_message(0, true);
    let v1 = VoteCount::create_vote_message(1, false);
    let m = build(2, &[&v0, &v1], true);
    let yes: u32 = rayon::iter::ParallelIterator::sum(rayon::iter::ParallelIterator::map(
        m.justification().par_iter(),
        |cited| cited.estimate().yes,
    ));
    assert_eq!(yes, 1);
    assert_eq!(
        rayon::iter::ParallelIterator::count(m.justification().par_iter()),
        2
    );
}

#[test]
fn offering_a_message_twice_changes_nothing() {
    let yes = VoteCount::create_vote_message(0, true);
    let no = VoteCount::create_vote_message(0, false);
    let other = VoteCount::create_vote_message(1, false);
    for threshold in [0, 1] {
        for msg in [&yes, &no, &other] {
            let mut s = state(&[(0, 1), (1, 1)], threshold);
            s.take_in(&yes);
            s.take_in(msg);
            let once = (
                frontier(s.latests_msgs(), 0),
                frontier(s.latests_msgs(), 1),
                s.equivocators().clone(),
                s.fault_weight(),
            );
            s.take_in(msg);
            let twice = (
                frontier(s.latests_msgs(), 0),
                frontier(s.latests_msgs(), 1),
                s.equivocators().clone(),
                s.fault_weight(),
            );
            assert_eq!(once, twice);
        }
    }
}

#[test]
fn justifications_compare_by_identifiers() {
    let v0 = VoteCount::create_vote_message(0, true);
    let v1 = VoteCount::create_vote_message(1, true);
    assert_eq!(v0.justification(), &Justification::new());
    assert_eq!(Justification::<VoteCount>::default(), Justification::new());
    let m = build(2, &[&v0, &v1], true);
    let n = build(3, &[&v0, &v1], false);
    let o = build(3, &[&v1, &v0], false);
    assert_eq!(m.justification(), n.justification());
    assert_ne!(m.justification(), o.justification());
    assert_ne!(m.justification(), v0.justification());
    assert_eq!(&m.justification().clone(), m.justification());
}

#[test]
fn latest_msgs_keep_a_frontier() {
    let v0 = VoteCount::create_vote_message(0, true);
    let v0_prime = VoteCount::create_vote_message(0, false);
    let m0 = build(0, &[&v0], true);
    let mut latest = LatestMsgs::new();
    assert!(latest.update(&m0));
    assert!(latest.update(&v0_prime));
    assert_eq!(frontier(&latest, 0), vec![id(&m0), id(&v0_prime)]);
    // A message that one of the latest depends on does not enter.
    assert!(!latest.update(&v0));
    assert_eq!(frontier(&latest, 0), vec![id(&m0), id(&v0_prime)]);
    // A message that depends on one of the two replaces that one only.
    let m2 = build(0, &[&v0_prime], false);
    assert!(latest.update(&m2));
    assert_eq!(frontier(&latest, 0), vec![id(&m0), id(&m2)]);
    // What was replaced stays out.
    assert!(!latest.update(&v0_prime));
    assert_eq!(frontier(&latest, 0), vec![id(&m0), id(&m2)]);
    assert!(latest.is_well_formed());
}

#[test]
fn from_justification_walks_below_stale_messages() {
    let u = VoteCount::create_vote_message(1, false);
    let p = build(0, &[&u], true);
    let o = build(0, &[&p], true);
    let top = build(2, &[&o], true);
    let latest = LatestMsgs::from_justification(top.justification());
    // `p` is stale beside `o`, and what it cites is seen all the same.
    assert_eq!(latest.keys(), &vec![0, 1]);
    assert_eq!(frontier(&latest, 0), vec![id(&o)]);
    assert_eq!(frontier(&latest, 1), vec![id(&u)]);
    assert!(latest.is_well_formed());
}

#[test]
fn from_justification_takes_each_message_once() {
    let a = VoteCount::create_vote_message(0, true);
    let a_prime = VoteCount::create_vote_message(0, false);
    let b = build(1, &[&a], true);
    let c = build(2, &[&a, &a_prime], false);
    let d = build(3, &[&b, &c], true);
    let latest = LatestMsgs::from_justification(d.justification());
    assert_eq!(latest.keys(), &vec![0, 1, 2]);
    assert_eq!(frontier(&latest, 0), vec![id(&a), id(&a_prime)]);
    assert_eq!(frontier(&latest, 1), vec![id(&b)]);
    assert_eq!(frontier(&latest, 2), vec![id(&c)]);
    // The same messages in another order give the same frontier.
    let e = build(3, &[&c, &b], true);
    let again = LatestMsgs::from_justification(e.justification());
    assert_eq!(again.keys(), &vec![0, 1, 2]);
    let mut of_zero = frontier(&again, 0);
    of_zero.sort();
    let mut expected = vec![id(&a), id(&a_prime)];
    expected.sort();
    assert_eq!(of_zero, expected);
}

#[test]
fn well_formedness_can_be_tested() {
    let v0 = VoteCount::create_vote_message(0, true);
    let v1 = VoteCount::create_vote_message(1, true);
    let mut latest = LatestMsgs::new();
    assert!(latest.is_well_formed());
    latest.update(&v0);
    latest.update(&v1);
    assert!(latest.is_well_formed());
    let own = latest.get(&0).unwrap();
    assert!(own.is_well_formed());
    assert!(own.is_sent_by(0));
    assert!(!own.is_sent_by(1));
    // A message of another validator among the latest messages of one.
    latest.get_mut(&0).unwrap().insert(v1.clone());
    assert!(!latest.is_well_formed());
}

#[test]
fn fault_weight_is_the_weight_of_the_equivocators() {
    let entries = [(0, 2), (1, 3), (2, 4)];
    let mut s = state(&entries, 100);
    let mut expected = 0;
    for v in [1u32, 0, 2] {
        let yes = VoteCount::create_vote_message(v, true);
        let no = VoteCount::create_vote_message(v, false);
        let before = s.fault_weight();
        s.update(&[&yes]);
        // A first message charges nothing.
        assert_eq!(s.fault_weight(), before);
        s.update(&[&no]);
        expected += entries[v as usize].1;
        assert_eq!(s.fault_weight(), WeightUnit::Finite(expected));
        assert!(before.le(s.fault_weight()));
        // The same equivocation again, and a third message of the
        // equivocator, charge nothing more.
        s.update(&[&no, &yes]);
        let third = build(v, &[], true);
        s.update(&[&third]);
        assert_eq!(s.fault_weight(), WeightUnit::Finite(expected));
        assert!(s.equivocators().contains(&v));
    }
    assert_eq!(s.fault_weight(), WeightUnit::Finite(9));
    assert_eq!(s.equivocators().len(), 3);
}

#[test]
fn a_new_equivocation_enters_where_the_weight_fits() {
    let yes = VoteCount::create_vote_message(0, true);
    let no = VoteCount::create_vote_message(0, false);

    // The weight fits: the message stands beside the older one, and the
    // sender is an equivocator.
    let mut fits = state(&[(0, 3)], 3);
    fits.update(&[&yes]);
    assert!(fits.update(&[&no]));
    assert_eq!(frontier(fits.latests_msgs(), 0), vec![id(&yes), id(&no)]);
    assert!(fits.equivocators().contains(&0));
    assert_eq!(fits.fault_weight(), WeightUnit::Finite(3));

    // The weight does not fit: the state stays as it was.
    let mut tight = state(&[(0, 3)], 2);
    tight.update(&[&yes]);
    tight.update(&[&no]);
    assert_eq!(frontier(tight.latests_msgs(), 0), vec![id(&yes)]);
    assert!(tight.equivocators().is_empty());
    assert_eq!(tight.fault_weight(), WeightUnit::Finite(0));

    // A validator without a weight counts as infinitely heavy.
    let mut unknown = state(&[(1, 1)], 1000);
    unknown.update(&[&yes]);
    unknown.update(&[&no]);
    assert_eq!(frontier(unknown.latests_msgs(), 0), vec![id(&yes)]);
    assert!(unknown.equivocators().is_empty());
}

#[test]
fn update_twice_is_update_once_whatever_came_before() {
    let v0 = VoteCount::create_vote_message(0, true);
    let m0 = build(0, &[&v0], true);
    let m1 = build(0, &[&m0], false);
    let other = VoteCount::create_vote_message(0, false);
    let all = [&v0, &m0, &m1, &other];
    for first in all {
        for second in all {
            for new in all {
                let mut latest = LatestMsgs::new();
                latest.update(first);
                latest.update(second);
                let changed = latest.update(new);
                let once = frontier(&latest, 0);
                if changed {
                    assert_eq!(once.last(), Some(&id(new)));
                }
                assert!(!latest.update(new));
                assert_eq!(frontier(&latest, 0), once);
                assert!(latest.is_well_formed());
            }
        }
    }
}

#[test]
fn round_trip_needs_a_state_that_took_in_what_its_messages_cite() {
    let v0 = VoteCount::create_vote_message(0, true);
    let h1 = build(1, &[&v0], false);
    let w = [(0, 1), (1, 1)];

    // The state took in h1 alone: the walk from its latest honest messages
    // also shows the message of validator 0 that h1 cites.
    let mut partial = state(&w, 0);
    partial.update(&[&h1]);
    assert!(partial.is_well_formed());
    let honest = LatestMsgsHonest::from_latest_msgs(partial.latests_msgs(), partial.equivocators());
    let cited = Justification::from_latest_msgs_honest(&honest);
    let shown = LatestMsgsHonest::from_latest_msgs(
        &LatestMsgs::from_justification(&cited),
        partial.equivocators(),
    );
    assert_eq!(honest.len(), 1);
    assert_eq!(shown.len(), 2);

    // The state took in v0 before h1: the walk shows its latest honest messages.
    let mut whole = state(&w, 0);
    whole.update(&[&v0]);
    whole.update(&[&h1]);
    let honest = LatestMsgsHonest::from_latest_msgs(whole.latests_msgs(), whole.equivocators());
    let cited = Justification::from_latest_msgs_honest(&honest);
    let shown = LatestMsgsHonest::from_latest_msgs(
        &LatestMsgs::from_justification(&cited),
        whole.equivocators(),
    );
    assert_eq!(honest.iter(), shown.iter());
    assert_eq!(honest.len(), 2);
}
