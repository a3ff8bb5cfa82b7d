use core_cbc_casper::example::binary::BoolWrapper;
use core_cbc_casper::example::integer::Error as IntegerError;
use core_cbc_casper::example::ternary::Value;
use core_cbc_casper::example::vote_count::Overflow;
use core_cbc_casper::example::vote_count::VoteCount;
use core_cbc_casper::justification::Justification;
use core_cbc_casper::justification::LatestMsgs;
use core_cbc_casper::justification::LatestMsgsHonest;
use core_cbc_casper::justification::SenderState;
use core_cbc_casper::message::Error;
use core_cbc_casper::message::Message;
use core_cbc_casper::traits::Data;
use core_cbc_casper::traits::Deserialize;
use core_cbc_casper::traits::Estimate;
use core_cbc_casper::traits::Id;
use core_cbc_casper::traits::MalleableEncoding;
use core_cbc_casper::traits::Serialize;
use core_cbc_casper::util::hash;
use core_cbc_casper::util::weight::SendersWeight;
use core_cbc_casper::util::weight::WeightUnit;
use core_cbc_casper::util::weight::WeightUnit::Finite;
use std::collections::HashSet;

fn weights(entries: &[(u32, u64)]) -> SendersWeight {
    SendersWeight::new(
        entries
            .iter()
            .map(|(v, w)| (*v, WeightUnit::Finite(*w)))
            .collect(),
    )
}

fn honest<E>(msgs: &[&Message<E>]) -> LatestMsgsHonest<E> {
    let mut latest = LatestMsgs::new();
    for msg in msgs {
        latest.update(msg);
    }
    LatestMsgsHonest::from_latest_msgs(&latest, &HashSet::new())
}

fn vote<E: Estimate>(sender: u32, estimate: E) -> Message<E> {
    Message::new(sender, Justification::new(), estimate)
}

#[test]
fn binary_majority() {
    let w = weights(&[(0, 1), (1, 1), (2, 1)]);
    let yes0 = vote(0, BoolWrapper(true));
    let no1 = vote(1, BoolWrapper(false));
    let no2 = vote(2, BoolWrapper(false));
    let frontier = honest(&[&yes0, &no1, &no2]);
    assert_eq!(BoolWrapper::mk_estimate(&frontier, &w), Ok(BoolWrapper(false)));
    let heavy = weights(&[(0, 3), (1, 1), (2, 1)]);
    assert_eq!(
        BoolWrapper::mk_estimate(&frontier, &heavy),
        Ok(BoolWrapper(true))
    );
}

#[test]
fn binary_tie_goes_to_true() {
    let w = weights(&[(0, 2), (1, 2)]);
    let yes = vote(0, BoolWrapper::new(true));
    let no = vote(1, BoolWrapper::new(false));
    assert_eq!(
        BoolWrapper::mk_estimate(&honest(&[&yes, &no]), &w),
        Ok(BoolWrapper(true))
    );
    // Nobody has voted: zero against zero.
    assert_eq!(
        BoolWrapper::mk_estimate(&honest(&[]), &w),
        Ok(BoolWrapper(true))
    );
}

#[test]
fn binary_unknown_validator_does_not_count() {
    let w = weights(&[(0, 1)]);
    let yes = vote(0, BoolWrapper(true));
    let no = vote(7, BoolWrapper(false));
    assert_eq!(
        BoolWrapper::mk_estimate(&honest(&[&yes, &no]), &w),
        Ok(BoolWrapper(true))
    );
}

#[test]
fn binary_round_robin() {
    // Three validators of weight one start with a vote each and then
    // build on what the others have said, one after the other.
    let w = || weights(&[(0, 1), (1, 1), (2, 1)]);
    let votes = vec![
        vote(0, BoolWrapper(true)),
        vote(1, BoolWrapper(false)),
        vote(2, BoolWrapper(true)),
    ];
    let mut sent: Vec<Message<BoolWrapper>> = votes.clone();
    let mut produced: Vec<Message<BoolWrapper>> = Vec::new();
    for validator in 0..3u32 {
        let mut state = SenderState::new(
            w(),
            WeightUnit::Finite(0),
            None,
            LatestMsgs::new(),
            WeightUnit::Finite(0),
            HashSet::new(),
        );
        let known: Vec<&Message<BoolWrapper>> = sent.iter().collect();
        state.update(&known);
        let msg = Message::from_validator_state(validator, &state).unwrap();
        sent.push(msg.clone());
        produced.push(msg);
    }
    assert_eq!(produced.len(), 3);
    for msg in &produced {
        assert_eq!(*msg.estimate(), BoolWrapper(true));
    }
}

#[test]
fn ternary_plurality_prefers_the_later_value() {
    assert_eq!(Value::from_weights(Finite(3), Finite(2), Finite(1)), Value::Zero);
    assert_eq!(Value::from_weights(Finite(1), Finite(3), Finite(2)), Value::One);
    assert_eq!(Value::from_weights(Finite(1), Finite(2), Finite(3)), Value::Two);
    assert_eq!(Value::from_weights(Finite(2), Finite(2), Finite(2)), Value::Two);
    assert_eq!(Value::from_weights(Finite(2), Finite(2), Finite(1)), Value::One);
    assert_eq!(Value::from_weights(Finite(2), Finite(1), Finite(2)), Value::Two);
    assert_eq!(Value::from_weights(Finite(0), Finite(0), Finite(0)), Value::Two);
}

#[test]
fn ternary_example() {
    // Weights 0.6, 1.0, 2.0 and 1.3, counted in tenths.
    let w = || weights(&[(1, 6), (2, 10), (3, 20), (4, 13)]);
    let state = || {
        SenderState::new(
            w(),
            WeightUnit::Finite(0),
            None,
            LatestMsgs::new(),
            WeightUnit::Finite(10),
            HashSet::new(),
        )
    };

    // 1: (1)  (2)
    // 2: (2)       (0)
    // 3: (0)  (0)       (0)
    // 4: (1)  (0)

    let message1 = Message::new(1, Justification::new(), Value::One);
    let message2 = Message::new(2, Justification::new(), Value::Two);
    let message3 = Message::new(3, Justification::new(), Value::Zero);
    let message4 = Message::new(4, Justification::new(), Value::One);
    let mut validator_state = state();
    validator_state.update(&[&message1, &message2]);
    let message5 = Message::from_validator_state(1, &validator_state).unwrap();
    let mut validator_state = state();
    validator_state.update(&[&message3, &message4]);
    let message6 = Message::from_validator_state(3, &validator_state).unwrap();
    let mut validator_state = state();
    validator_state.update(&[&message2, &message5, &message6]);
    let message7 = Message::from_validator_state(2, &validator_state).unwrap();
    let mut validator_state = state();
    validator_state.update(&[&message7, &message6]);
    let message8 = Message::from_validator_state(3, &validator_state).unwrap();
    let mut validator_state = state();
    validator_state.update(&[&message4, &message6]);
    let message9 = Message::from_validator_state(4, &validator_state).unwrap();

    assert_eq!(message5.estimate(), &Value::Two);
    assert_eq!(message6.estimate(), &Value::Zero);
    assert_eq!(message7.estimate(), &Value::Zero);
    assert_eq!(message8.estimate(), &Value::Zero);
    assert_eq!(message9.estimate(), &Value::Zero);
}

#[test]
fn integer_median() {
    // Five senders that weigh 4, 5, 6, 7 and 8: after three messages the
    // weight passed is 15, exactly half of the total; it exceeds half after
    // four messages (22), and the estimate is that of the fifth.
    let w = weights(&[(0, 8), (1, 4), (2, 6), (3, 5), (4, 7)]);
    let msgs: Vec<Message<u32>> = (0..5).map(|v| vote(v, 100 + v)).collect();
    let all: Vec<&Message<u32>> = msgs.iter().collect();
    assert_eq!(u32::mk_estimate(&honest(&all), &w), Ok(100));

    // With the weights 1, 2 and 3 the weight passed exceeds half only
    // once all three messages are passed, and no message follows.
    let w = weights(&[(0, 1), (1, 3), (2, 2)]);
    let a = vote(0, 10u32);
    let b = vote(1, 20u32);
    let c = vote(2, 30u32);
    assert_eq!(
        u32::mk_estimate(&honest(&[&a, &b, &c]), &w),
        Err(IntegerError)
    );

    // Equal weights keep the order of the senders: 5, 6, 7; the weight
    // passed exceeds half after two messages.
    let w = weights(&[(0, 1), (1, 1), (2, 1)]);
    let a = vote(0, 5u32);
    let b = vote(1, 6u32);
    let c = vote(2, 7u32);
    assert_eq!(u32::mk_estimate(&honest(&[&a, &b, &c]), &w), Ok(7));

    // Four messages of weight one: after two the weight passed is half of
    // the total, after three it exceeds half, and the fourth is the median.
    let w = weights(&[(0, 1), (1, 1), (2, 1), (3, 1)]);
    let d = vote(3, 8u32);
    assert_eq!(u32::mk_estimate(&honest(&[&a, &b, &c, &d]), &w), Ok(8));
}

#[test]
fn integer_median_runs_out_of_messages() {
    let w = weights(&[(0, 1)]);
    assert_eq!(u32::mk_estimate(&honest(&[]), &w), Err(IntegerError));
    // One message: the scan passes it and finds none to stop at.
    let a = vote(0, 5u32);
    assert_eq!(u32::mk_estimate(&honest(&[&a]), &w), Err(IntegerError));
    // Without weight the weight passed never exceeds half of the total.
    let none = weights(&[]);
    assert_eq!(u32::mk_estimate(&honest(&[&a]), &none), Err(IntegerError));
    // Two equal weights: the first is half of the total, not more.
    let b = vote(1, 6u32);
    let w = weights(&[(0, 1), (1, 1)]);
    assert_eq!(u32::mk_estimate(&honest(&[&a, &b]), &w), Err(IntegerError));
}

#[test]
fn vote_count_weighs_the_votes() {
    let w = weights(&[(0, 2), (1, 3), (2, 5)]);
    let v0 = VoteCount::create_vote_message(0, true);
    let v1 = VoteCount::create_vote_message(1, false);
    let v2 = VoteCount::create_vote_message(2, true);
    let v9 = VoteCount::create_vote_message(9, true);
    assert_eq!(
        VoteCount::mk_estimate(&honest(&[&v0, &v1, &v2, &v9]), &w),
        Ok(VoteCount { yes: 7, no: 3 })
    );
    assert_eq!(
        VoteCount::mk_estimate(&honest(&[]), &w),
        Ok(VoteCount { yes: 0, no: 0 })
    );
}

#[test]
fn vote_count_overflows() {
    let w = weights(&[(0, u32::MAX as u64), (1, 1)]);
    let v0 = VoteCount::create_vote_message(0, true);
    let v1 = VoteCount::create_vote_message(1, true);
    assert_eq!(
        VoteCount::mk_estimate(&honest(&[&v0]), &w),
        Ok(VoteCount {
            yes: u32::MAX,
            no: 0
        })
    );
    assert_eq!(
        VoteCount::mk_estimate(&honest(&[&v0, &v1]), &w),
        Err(Overflow)
    );
    let infinite = SendersWeight::new(vec![(0, WeightUnit::Infinity)]);
    assert_eq!(
        VoteCount::mk_estimate(&honest(&[&v0]), &infinite),
        Err(Overflow)
    );
}

#[test]
fn estimator_error_reaches_the_caller() {
    let w = weights(&[(0, u32::MAX as u64), (1, 1)]);
    let v0 = VoteCount::create_vote_message(0, true);
    let v1 = VoteCount::create_vote_message(1, true);
    let mut state = SenderState::new(
        w,
        WeightUnit::Finite(0),
        None,
        LatestMsgs::new(),
        WeightUnit::Finite(0),
        HashSet::new(),
    );
    state.update(&[&v0, &v1]);
    match Message::from_validator_state(0, &state) {
        Err(Error::Estimator(Overflow)) => (),
        _ => panic!("Expected the failure of the estimator"),
    }
}

#[test]
fn estimates_have_one_encoding() {
    assert_eq!(BoolWrapper(true).serialize(), vec![1]);
    assert_eq!(BoolWrapper(false).serialize(), vec![0]);
    assert_eq!(BoolWrapper::deserialize(&[1]), Ok(BoolWrapper(true)));
    assert_eq!(BoolWrapper::deserialize(&[0]), Ok(BoolWrapper(false)));
    assert_eq!(BoolWrapper::deserialize(&[2]), Err(MalleableEncoding));
    assert_eq!(BoolWrapper::deserialize(&[]), Err(MalleableEncoding));
    assert_eq!(BoolWrapper::deserialize(&[1, 0]), Err(MalleableEncoding));

    assert_eq!(Value::Two.serialize(), vec![2]);
    assert_eq!(Value::deserialize(&[0]), Ok(Value::Zero));
    assert_eq!(Value::deserialize(&[1]), Ok(Value::One));
    assert_eq!(Value::deserialize(&[2]), Ok(Value::Two));
    assert_eq!(Value::deserialize(&[3]), Err(MalleableEncoding));

    assert_eq!(0x0a0b0c0du32.serialize(), vec![0x0a, 0x0b, 0x0c, 0x0d]);
    assert_eq!(u32::deserialize(&[0x0a, 0x0b, 0x0c, 0x0d]), Ok(0x0a0b0c0d));
    assert_eq!(u32::deserialize(&[1, 2, 3]), Err(MalleableEncoding));
    assert_eq!(u32::deserialize(&[1, 2, 3, 4, 5]), Err(MalleableEncoding));

    let count = VoteCount { yes: 1, no: 258 };
    assert_eq!(count.serialize(), vec![0, 0, 0, 1, 0, 0, 1, 2]);
    assert_eq!(VoteCount::deserialize(&count.serialize()), Ok(count));
    assert_eq!(VoteCount::deserialize(&[0; 7]), Err(MalleableEncoding));
}

#[test]
fn estimates_are_identified_by_their_digest() {
    let count = VoteCount { yes: 1, no: 0 };
    assert!(count.getid().eq(&hash::Hash::digest(&count.serialize())));
    assert!(VoteCount::hash(b"abc").eq(&hash::Hash::digest(b"abc")));
    assert!(7u32.getid().eq(&hash::Hash::digest(&[0, 0, 0, 7])));
    assert!(BoolWrapper(true).getid().eq(&hash::Hash::digest(&[1])));
    assert!(Value::One.getid().eq(&hash::Hash::digest(&[1])));
}

#[test]
fn every_integer_is_valid_data() {
    assert!(u32::is_valid(&0));
    assert!(u32::is_valid(&7));
    assert!(u32::is_valid(&u32::MAX));
}
