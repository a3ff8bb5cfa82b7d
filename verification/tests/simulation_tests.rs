use core_cbc_casper::blockchain::Block;
use core_cbc_casper::example::binary::BoolWrapper;
use core_cbc_casper::example::vote_count::VoteCount;
use core_cbc_casper::justification::Justification;
use core_cbc_casper::justification::LatestMsgs;
use core_cbc_casper::justification::LatestMsgsHonest;
use core_cbc_casper::justification::SenderState;
use core_cbc_casper::message::Message;
use core_cbc_casper::traits::Estimate;
use core_cbc_casper::util::weight::SendersWeight;
use core_cbc_casper::util::weight::WeightUnit;
use std::collections::HashSet;

fn unit_weights(validators: u32) -> SendersWeight {
    SendersWeight::new((0..validators).map(|v| (v, WeightUnit::Finite(1))).collect())
}

fn fresh_state<E>(validators: u32, latest: LatestMsgs<E>) -> SenderState<E> {
    SenderState::new(
        unit_weights(validators),
        WeightUnit::Finite(0),
        None,
        latest,
        WeightUnit::Finite(0),
        HashSet::new(),
    )
}

/// Each validator starts with a message of its own that carries `first(validator)`.
fn start<E: Estimate>(validators: u32, first: impl Fn(u32) -> E) -> Vec<SenderState<E>> {
    (0..validators)
        .map(|validator| {
            let message = Message::new(validator, Justification::new(), first(validator));
            let mut justification = Justification::new();
            justification.insert(message);
            fresh_state(validators, LatestMsgs::from_justification(&justification))
        })
        .collect()
}

/// The validator `sender` builds a message on what it knows and sends it
/// to every validator. Every receiver finds the estimate again from the
/// justification alone.
fn step<E>(states: &mut Vec<SenderState<E>>, sender: u32) -> Message<E>
where
    E: Estimate + PartialEq + std::fmt::Debug,
    E::Error: std::fmt::Debug,
{
    let validators = states.len() as u32;
    let message = Message::from_validator_state(sender, &states[sender as usize]).unwrap();
    states[sender as usize].latests_msgs_as_mut().update(&message);

    for receiver in 0..validators {
        let mut reconstructed = fresh_state(
            validators,
            LatestMsgs::from_justification(message.justification()),
        );
        for cited in message.justification().iter() {
            reconstructed.update(&[cited]);
        }
        assert_eq!(
            message.estimate(),
            Message::from_validator_state(sender, &reconstructed)
                .unwrap()
                .estimate(),
            "a receiver finds the estimate again from the justification alone"
        );
        let latest = states[receiver as usize].latests_msgs_as_mut();
        latest.update(&message);
        for cited in message.justification().iter() {
            latest.update(cited);
        }
    }
    message
}

fn estimate_of<E: Estimate>(state: &SenderState<E>) -> E
where
    E::Error: std::fmt::Debug,
{
    LatestMsgsHonest::from_latest_msgs(state.latests_msgs(), state.equivocators())
        .mk_estimate(state.senders_weights())
        .unwrap()
}

#[test]
fn blockchain() {
    for chain_id in 0..10u64 {
        let validators = 2 + (chain_id % 4) as u32;
        let mut states = start(validators, |_| Block::new(None));
        let genesis = Block::new(None);
        let half = WeightUnit::Finite(validators as u64 / 2);
        let mut seed = 0x9e37_79b9_7f4a_7c15u64.wrapping_mul(chain_id + 1);
        let mut found = false;
        for _ in 0..60 {
            seed = seed
                .wrapping_mul(6364136223846793005)
                .wrapping_add(1442695040888963407);
            let sender = ((seed >> 33) % validators as u64) as u32;
            step(&mut states, sender);
            found = states.iter().any(|state| {
                !Block::safety_oracles(
                    genesis.clone(),
                    &LatestMsgsHonest::from_latest_msgs(state.latests_msgs(), state.equivocators()),
                    &HashSet::new(),
                    half,
                    state.senders_weights(),
                )
                .is_empty()
            });
            if found {
                break;
            }
        }
        assert!(found, "the validators come to see a safety oracle of the genesis block");
        for state in &states {
            assert!(state.equivocators().is_empty());
            assert!(genesis.is_member(&estimate_of(state)));
        }
    }
}

#[test]
fn round_robin_vote_count() {
    for validators in 1..5u32 {
        let mut states = start(validators, |v| VoteCount {
            yes: v % 2,
            no: 1 - v % 2,
        });
        for sender in 0..validators {
            step(&mut states, sender);
        }
        let first = estimate_of(&states[0]);
        for state in &states {
            assert_eq!(estimate_of(state), first);
        }
    }
}

#[test]
fn round_robin_binary() {
    for validators in 1..6u32 {
        let mut states = start(validators, |v| BoolWrapper(v % 3 == 0));
        for sender in 0..validators {
            step(&mut states, sender);
        }
        let first = estimate_of(&states[0]);
        for state in &states {
            assert_eq!(estimate_of(state), first);
        }
    }
}
