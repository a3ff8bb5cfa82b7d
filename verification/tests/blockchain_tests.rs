use core_cbc_casper::blockchain::Block;
use core_cbc_casper::blockchain::ProtoBlock;
use core_cbc_casper::justification::Justification;
use core_cbc_casper::justification::LatestMsgs;
use core_cbc_casper::justification::LatestMsgsHonest;
use core_cbc_casper::justification::SenderState;
use core_cbc_casper::message::Message;
use core_cbc_casper::traits::Estimate;
use core_cbc_casper::traits::Id;
use core_cbc_casper::traits::Serialize;
use core_cbc_casper::util::weight::SendersWeight;
use core_cbc_casper::util::weight::WeightUnit;
use std::collections::HashSet;

fn block_ids(blocks: &[Block]) -> Vec<Vec<u8>> {
    let mut ids: Vec<Vec<u8>> = blocks.iter().map(|b| b.id().to_vec()).collect();
    ids.sort();
    ids.dedup();
    ids
}

#[test]
fn from_prevblock_msg() {
    let incomplete_block = Block::new(None);
    let message = Message::new(
        0,
        Justification::new(),
        Block::from(ProtoBlock::new(None)),
    );

    assert_eq!(
        Block::from_prevblock_msg(Some(message.clone()), incomplete_block),
        Block::new(Some(Block::from(&message))),
    );
}

#[test]
fn from_prevblock_msg_none() {
    let incomplete_block = Block::new(None);

    assert_eq!(
        Block::from_prevblock_msg(None, incomplete_block),
        Block::new(None),
    );
}

#[test]
fn is_member_self() {
    let block = Block::new(Some(Block::from(&Message::new(
        0,
        Justification::new(),
        Block::new(None),
    ))));
    assert!(block.is_member(&block));
    assert!(Block::new(None).is_member(&Block::new(None)));
}

#[test]
fn is_member_ancestor() {
    let message = Message::new(0, Justification::new(), Block::new(None));
    let block_1 = Block::from(&message);
    let block_2 = Block::new(Some(block_1.clone()));

    assert_eq!(Block::new(None), Block::new(None));
    assert!(block_1.is_member(&block_2));
    assert!(Block::from(&message).is_member(&block_1));
    assert!(Block::from(&message).is_member(&block_2));
    assert!(Block::new(Some(Block::from(&message))).is_member(&block_2));
}

#[test]
fn from_message() {
    let block_1 = Block::new(Some(Block::new(None)));
    let message = Message::new(0, Justification::new(), block_1.clone());
    let block_2 = Block::from(&message);

    assert_eq!(block_1, block_2);
}

#[test]
fn parse_blockchains() {
    let genesis = Message::new(0, Justification::new(), Block::new(None));
    let mut justification = Justification::new();
    justification.insert(genesis.clone());
    let block_1 = Message::new(
        1,
        justification.clone(),
        Block::new(Some(genesis.estimate().clone())),
    );
    let block_2 = Message::new(
        2,
        justification,
        Block::new(Some(genesis.estimate().clone())),
    );

    // block_1 and block_2 propose the same block: both carry no data and
    // have the same predecessor.

    let mut latest_msgs = LatestMsgs::new();
    latest_msgs.update(&genesis);
    latest_msgs.update(&block_1);
    latest_msgs.update(&block_2);
    let latest_msgs_honest = LatestMsgsHonest::from_latest_msgs(&latest_msgs, &HashSet::new());

    let (children_map, genesis_set, _senders_map) = Block::parse_blockchains(&latest_msgs_honest);

    let mut children: Vec<(Vec<u8>, Vec<Vec<u8>>)> = children_map
        .iter()
        .map(|(block, children)| (block.id().to_vec(), block_ids(children)))
        .collect();
    children.sort();
    let mut expected = vec![
        (
            genesis.estimate().id().to_vec(),
            block_ids(&[block_1.estimate().clone(), block_2.estimate().clone()]),
        ),
        (block_1.estimate().id().to_vec(), vec![]),
    ];
    expected.sort();
    assert_eq!(children, expected);
    assert_eq!(
        block_ids(&genesis_set),
        block_ids(&[genesis.estimate().clone()]),
    );
}

#[test]
fn safety_oracles() {
    let nodes = 3;
    let validators: Vec<u32> = (0..nodes).collect();

    let weights = || {
        SendersWeight::new(
            validators
                .iter()
                .cloned()
                .map(|v| (v, WeightUnit::Finite(1)))
                .collect(),
        )
    };
    let validators_weights = weights();

    let mut state = SenderState::new(
        weights(),
        WeightUnit::Finite(0),
        None,
        LatestMsgs::new(),
        WeightUnit::Finite(1),
        HashSet::new(),
    );

    // block dag
    let proto_b0 = Block::from(ProtoBlock::new(None));
    let latest_msgs = Justification::new();
    let m0 = Message::new(validators[0], latest_msgs, proto_b0.clone());

    let proto_b1 = Block::new(Some(proto_b0.clone()));
    state.update(&[&m0]);
    let m1 = Message::from_validator_state(validators[1], &state).unwrap();

    let proto_b2 = Block::new(Some(proto_b1.clone()));
    state.update(&[&m1]);
    let m2 = Message::from_validator_state(validators[0], &state).unwrap();

    let oracles = |block: &Block, state: &SenderState<Block>, threshold: u64| -> Vec<Vec<u32>> {
        let mut cliques = Block::safety_oracles(
            block.clone(),
            &LatestMsgsHonest::from_latest_msgs(state.latests_msgs(), state.equivocators()),
            state.equivocators(),
            WeightUnit::Finite(threshold),
            &validators_weights,
        );
        cliques.sort();
        cliques
    };
    let none: Vec<Vec<u32>> = Vec::new();

    // no clique yet, since validators[1] has not seen validators[0] seeing validators[1]
    // having proto_b0 in the chain
    assert_eq!(oracles(&proto_b0, &state, 2), none);

    state.update(&[&m2]);
    let m3 = Message::from_validator_state(validators[1], &state).unwrap();

    // clique, since both validators have seen each other having proto_b0 in the chain
    assert_eq!(
        oracles(&proto_b0, &state, 1),
        vec![vec![validators[0], validators[1]]]
    );

    state.update(&[&m3]);
    let m4 = Message::from_validator_state(validators[2], &state).unwrap();

    state.update(&[&m4]);
    let m5 = Message::from_validator_state(validators[1], &state).unwrap();

    // no second clique yet, since validators[2] has not seen validators[1] seeing
    // validators[2] having proto_b0 in the chain
    assert_eq!(
        oracles(&proto_b0, &state, 1),
        vec![vec![validators[0], validators[1]]]
    );

    state.update(&[&m5]);
    let m6 = Message::from_validator_state(validators[2], &state).unwrap();

    // have two cliques on proto_b0 now
    assert_eq!(
        oracles(&proto_b0, &state, 1),
        vec![
            vec![validators[0], validators[1]],
            vec![validators[1], validators[2]],
        ]
    );

    // also have two cliques on proto_b1
    assert_eq!(
        oracles(&proto_b1, &state, 1),
        vec![
            vec![validators[0], validators[1]],
            vec![validators[1], validators[2]],
        ]
    );

    // on proto_b2, only have clique {1, 2}
    assert_eq!(
        oracles(&proto_b2, &state, 1),
        vec![vec![validators[1], validators[2]]]
    );

    state.update(&[&m6]);
    let m7 = Message::from_validator_state(validators[0], &state).unwrap();

    state.update(&[&m7]);
    let m8 = Message::from_validator_state(validators[2], &state).unwrap();

    state.update(&[&m8]);
    let _ = Message::from_validator_state(validators[0], &state).unwrap();

    // now entire network is clique
    assert_eq!(
        oracles(&proto_b0, &state, 1),
        vec![vec![validators[0], validators[1], validators[2]]]
    );
    assert_eq!(
        oracles(&proto_b2, &state, 1),
        vec![vec![validators[0], validators[1], validators[2]]]
    );
}

fn unit_state(weights: &[(u32, u64)]) -> SenderState<Block> {
    SenderState::new(
        SendersWeight::new(
            weights
                .iter()
                .map(|(v, w)| (*v, WeightUnit::Finite(*w)))
                .collect(),
        ),
        WeightUnit::Finite(0),
        None,
        LatestMsgs::new(),
        WeightUnit::Finite(0),
        HashSet::new(),
    )
}

fn honest_of(msgs: &[&Message<Block>]) -> LatestMsgsHonest<Block> {
    let mut latest = LatestMsgs::new();
    for msg in msgs {
        latest.update(msg);
    }
    LatestMsgsHonest::from_latest_msgs(&latest, &HashSet::new())
}

fn propose(sender: u32, block: &Block) -> Message<Block> {
    Message::new(sender, Justification::new(), block.clone())
}

#[test]
fn block_identity() {
    let genesis = Block::new(None);
    let child = Block::with_data(Some(genesis.clone()), 7);
    assert_eq!(child.prevblock(), Some(genesis.clone()));
    assert_eq!(child.data(), 7);
    assert_eq!(genesis.prevblock(), None);
    assert_eq!(genesis.data(), 0);
    assert_ne!(child, Block::with_data(Some(genesis.clone()), 8));
    assert_ne!(child, Block::with_data(None, 7));
    assert_eq!(child, Block::from_proto(ProtoBlock::with_data(Some(genesis.clone()), 7)));
    assert_eq!(child.clone(), child);

    assert_eq!(genesis.serialize(), vec![0, 0, 0, 0, 0]);
    let mut expected = vec![1];
    expected.extend_from_slice(&genesis.id().to_vec());
    expected.extend_from_slice(&[0, 0, 0, 7]);
    assert_eq!(child.serialize(), expected);
    assert!(child.id().eq(&core_cbc_casper::util::hash::Hash::digest(&expected)));
    assert!(child.getid().eq(&child.id()));
}

#[test]
fn is_member_not_on_the_chain() {
    let genesis = Block::new(None);
    let left = Block::with_data(Some(genesis.clone()), 1);
    let right = Block::with_data(Some(genesis.clone()), 2);
    let below = Block::new(Some(left.clone()));
    assert!(genesis.is_member(&below));
    assert!(left.is_member(&below));
    assert!(!right.is_member(&below));
    assert!(!below.is_member(&left));
    assert!(!left.is_member(&right));
}

#[test]
fn ghost_majority_fork() {
    // Four validators with the weights 1, 1, 2 and 1. All propose the same
    // child of the genesis block but validator 2, who proposes another.
    let weights = SendersWeight::new(vec![
        (0, WeightUnit::Finite(1)),
        (1, WeightUnit::Finite(1)),
        (2, WeightUnit::Finite(2)),
        (3, WeightUnit::Finite(1)),
    ]);
    let genesis = Block::new(None);
    let common = Block::with_data(Some(genesis.clone()), 1);
    let other = Block::with_data(Some(genesis.clone()), 2);
    let m0 = propose(0, &common);
    let m1 = propose(1, &common);
    let m2 = propose(2, &other);
    let m3 = propose(3, &common);
    let frontier = honest_of(&[&m0, &m1, &m2, &m3]);

    assert_eq!(Block::collect_validators(&common, &frontier), vec![0, 1, 3]);
    assert_eq!(Block::collect_validators(&other, &frontier), vec![2]);
    assert_eq!(Block::collect_validators(&genesis, &frontier), vec![0, 1, 2, 3]);
    // Three validators of weight one outweigh the one of weight two.
    assert_eq!(Block::ghost(&frontier, &weights), Ok(common.clone()));

    // With a weight of four, validator 2 wins.
    let heavy = SendersWeight::new(vec![
        (0, WeightUnit::Finite(1)),
        (1, WeightUnit::Finite(1)),
        (2, WeightUnit::Finite(4)),
        (3, WeightUnit::Finite(1)),
    ]);
    assert_eq!(Block::ghost(&frontier, &heavy), Ok(other.clone()));

    // The estimate is a new block on top of the choice.
    assert_eq!(
        Block::mk_estimate(&frontier, &weights),
        Ok(Block::new(Some(common)))
    );
}

#[test]
fn ghost_descends_through_the_heaviest_subtree() {
    // genesis - a - a1
    //         \ b - b1
    //             \ b2
    let genesis = Block::new(None);
    let a = Block::with_data(Some(genesis.clone()), 1);
    let a1 = Block::with_data(Some(a.clone()), 1);
    let b = Block::with_data(Some(genesis.clone()), 2);
    let b1 = Block::with_data(Some(b.clone()), 1);
    let b2 = Block::with_data(Some(b.clone()), 2);
    let weights = SendersWeight::new(vec![
        (0, WeightUnit::Finite(3)),
        (1, WeightUnit::Finite(2)),
        (2, WeightUnit::Finite(2)),
    ]);
    let m0 = propose(0, &a1);
    let m1 = propose(1, &b1);
    let m2 = propose(2, &b2);
    let frontier = honest_of(&[&m0, &m1, &m2]);
    // b carries 4 against 3; below b the two children tie and the larger
    // identifier wins.
    let expected = if b1.id().lt(&b2.id()) { b2.clone() } else { b1.clone() };
    assert_eq!(Block::ghost(&frontier, &weights), Ok(expected));

    let (children, genesis_blocks, tips) = Block::parse_blockchains(&frontier);
    assert_eq!(children.len(), 6);
    assert_eq!(genesis_blocks, vec![genesis.clone()]);
    assert_eq!(
        tips,
        vec![(a1.clone(), 0), (b1.clone(), 1), (b2.clone(), 2)]
    );
    let of = |block: &Block| -> Vec<Block> {
        children
            .iter()
            .find(|(parent, _)| parent == block)
            .map(|(_, kids)| kids.clone())
            .unwrap()
    };
    assert_eq!(of(&genesis), vec![a.clone(), b.clone()]);
    assert_eq!(of(&b), vec![b1.clone(), b2.clone()]);
    assert_eq!(of(&a1), vec![]);
    assert_eq!(
        Block::pick_heaviest(&vec![a.clone()], &children, &weights, &frontier),
        Some(a1.clone())
    );
    assert_eq!(
        Block::pick_heaviest(&vec![], &children, &weights, &frontier),
        None
    );
}

#[test]
fn ghost_without_messages_fails() {
    let weights = SendersWeight::new(vec![(0, WeightUnit::Finite(1))]);
    assert_eq!(
        Block::ghost(&honest_of(&[]), &weights),
        Err(core_cbc_casper::blockchain::Error)
    );
    let state = unit_state(&[(0, 1)]);
    match Message::<Block>::from_validator_state(0, &state) {
        Err(core_cbc_casper::message::Error::NoNewMessage) => (),
        _ => panic!("Expected NoNewMessage"),
    }
}

#[test]
fn safety_oracle_thresholds() {
    // Three validators of weight one talk in turn until each has seen the
    // others agreeing on the genesis block.
    let weights = || {
        SendersWeight::new(vec![
            (0, WeightUnit::Finite(1)),
            (1, WeightUnit::Finite(1)),
            (2, WeightUnit::Finite(1)),
        ])
    };
    let mut state = SenderState::new(
        weights(),
        WeightUnit::Finite(0),
        None,
        LatestMsgs::new(),
        WeightUnit::Finite(1),
        HashSet::new(),
    );
    let genesis = Block::new(None);
    let first = Message::new(0, Justification::new(), genesis.clone());
    state.update(&[&first]);
    for validator in [1, 0, 1, 2, 1, 2, 0, 2, 0] {
        let msg = Message::from_validator_state(validator, &state).unwrap();
        state.update(&[&msg]);
    }
    let oracles = |threshold: WeightUnit| {
        Block::safety_oracles(
            genesis.clone(),
            &LatestMsgsHonest::from_latest_msgs(state.latests_msgs(), state.equivocators()),
            state.equivocators(),
            threshold,
            &weights(),
        )
    };
    let all = vec![vec![0, 1, 2]];
    let none: Vec<Vec<u32>> = Vec::new();
    assert_eq!(oracles(WeightUnit::Finite(1)), all);
    assert_eq!(oracles(WeightUnit::Finite(0)), all);
    assert_eq!(oracles(WeightUnit::Finite(2)), all);
    assert_eq!(oracles(WeightUnit::Finite(3)), none);
    assert_eq!(oracles(WeightUnit::Finite(4)), none);
    assert_eq!(oracles(WeightUnit::Infinity), none);
    assert_eq!(oracles(WeightUnit::NaN), none);

    // Nobody agrees on a block that nobody has proposed.
    let stranger = Block::with_data(None, 9);
    assert_eq!(
        Block::safety_oracles(
            stranger,
            &LatestMsgsHonest::from_latest_msgs(state.latests_msgs(), state.equivocators()),
            state.equivocators(),
            WeightUnit::Finite(0),
            &weights(),
        ),
        none
    );
}

#[test]
fn fork_choice_and_oracles_give_up_when_cancelled() {
    let weights = SendersWeight::new(vec![(0, WeightUnit::Finite(1))]);
    let genesis = Block::new(None);
    let m0 = propose(0, &genesis);
    let frontier = honest_of(&[&m0]);
    let flag = std::sync::atomic::AtomicBool::new(false);
    assert_eq!(
        Block::ghost_unless(&frontier, &weights, &flag),
        Some(Ok(genesis.clone()))
    );
    let none: Vec<Vec<u32>> = Vec::new();
    assert_eq!(
        Block::safety_oracles_unless(
            genesis.clone(),
            &frontier,
            &HashSet::new(),
            WeightUnit::Finite(0),
            &weights,
            &flag
        ),
        Some(none)
    );
    flag.store(true, std::sync::atomic::Ordering::Relaxed);
    assert_eq!(Block::ghost_unless(&frontier, &weights, &flag), None);
    assert_eq!(
        Block::safety_oracles_unless(
            genesis.clone(),
            &frontier,
            &HashSet::new(),
            WeightUnit::Finite(0),
            &weights,
            &flag
        ),
        None
    );
    let (children, genesis_blocks, _) = Block::parse_blockchains(&frontier);
    assert_eq!(
        Block::pick_heaviest_unless(&genesis_blocks, &children, &weights, &frontier, &flag),
        None
    );
}

#[test]
fn ghost_is_monotone() {
    // genesis - a - a1
    //         \ b
    // The choice is a1. Validators that join with blocks after a1 leave
    // the choice at a1 or move it to a block after a1.
    let genesis = Block::new(None);
    let a = Block::with_data(Some(genesis.clone()), 1);
    let a1 = Block::with_data(Some(a.clone()), 1);
    let b = Block::with_data(Some(genesis.clone()), 2);
    let a2 = Block::with_data(Some(a1.clone()), 1);
    let a3 = Block::with_data(Some(a1.clone()), 2);
    let weights = SendersWeight::new(
        (0..6).map(|v| (v, WeightUnit::Finite(1 + v as u64))).collect(),
    );
    let m0 = propose(0, &a1);
    let m1 = propose(1, &b);
    let m2 = propose(2, &a1);
    let before = honest_of(&[&m0, &m1, &m2]);
    assert_eq!(Block::ghost(&before, &weights), Ok(a1.clone()));

    let m3 = propose(3, &a1);
    let same = honest_of(&[&m0, &m1, &m2, &m3]);
    assert_eq!(Block::ghost(&same, &weights), Ok(a1.clone()));

    let m4 = propose(4, &a2);
    let m5 = propose(5, &a3);
    let grown = honest_of(&[&m0, &m1, &m2, &m3, &m4, &m5]);
    let choice = Block::ghost(&grown, &weights).unwrap();
    assert!(a1.is_member(&choice));
    assert_eq!(choice, a3);
}

#[test]
fn ghost_is_monotone_above_the_choice() {
    // genesis - a - a1 - a2
    //         \ b
    // The choice is a2, a block after a. Validators that join with blocks
    // after a leave the choice at a block after a, whichever it is.
    let genesis = Block::new(None);
    let a = Block::with_data(Some(genesis.clone()), 1);
    let a1 = Block::with_data(Some(a.clone()), 1);
    let a2 = Block::with_data(Some(a1.clone()), 1);
    let b = Block::with_data(Some(genesis.clone()), 2);
    let side = Block::with_data(Some(a.clone()), 2);
    let weights = SendersWeight::new(
        (0..6).map(|v| (v, WeightUnit::Finite(1 + v as u64))).collect(),
    );
    let m0 = propose(0, &a2);
    let m1 = propose(1, &b);
    let m2 = propose(2, &a1);
    let before = honest_of(&[&m0, &m1, &m2]);
    assert_eq!(Block::ghost(&before, &weights), Ok(a2.clone()));

    // A heavy validator proposes another block after a: the choice moves,
    // and stays after a.
    let m5 = propose(5, &side);
    let grown = honest_of(&[&m0, &m1, &m2, &m5]);
    let choice = Block::ghost(&grown, &weights).unwrap();
    assert_eq!(choice, side);
    assert!(a.is_member(&choice));
    assert!(!a1.is_member(&choice));

    // A validator that proposes a itself changes nothing below a.
    let m3 = propose(3, &a);
    let at_a = honest_of(&[&m0, &m1, &m2, &m3]);
    assert_eq!(Block::ghost(&at_a, &weights), Ok(a2.clone()));
}

#[test]
fn ghost_is_monotone_when_a_message_is_replaced() {
    // genesis - a - a1
    //         |   \ side
    //         \ b
    // The choice is a1, a block after a. Validator 1 proposed b and now
    // proposes a block after a, in a message that cites its earlier one.
    let genesis = Block::new(None);
    let a = Block::with_data(Some(genesis.clone()), 1);
    let a1 = Block::with_data(Some(a.clone()), 1);
    let side = Block::with_data(Some(a.clone()), 2);
    let b = Block::with_data(Some(genesis.clone()), 2);
    let weights = SendersWeight::new(
        (0..3).map(|v| (v, WeightUnit::Finite(1 + v as u64))).collect(),
    );
    let m0 = propose(0, &a1);
    let m1 = propose(1, &b);
    let m2 = propose(2, &a);
    let before = honest_of(&[&m0, &m1, &m2]);
    assert_eq!(Block::ghost(&before, &weights), Ok(a1.clone()));

    let mut cited = Justification::new();
    cited.insert(m1.clone());
    let later = Message::new(1, cited, side.clone());
    let after = honest_of(&[&m0, &m1, &m2, &later]);
    assert_eq!(after.len(), 3);
    let choice = Block::ghost(&after, &weights).unwrap();
    assert!(a.is_member(&choice));
    assert_eq!(choice, side);
    assert!(!b.is_member(&choice));
}
