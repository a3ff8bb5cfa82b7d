use core_cbc_casper::traits::Zero;
use core_cbc_casper::util::clique::maximal_cliques;
use core_cbc_casper::util::codec::get_be32;
use core_cbc_casper::util::codec::get_be64;
use core_cbc_casper::util::codec::put_be32;
use core_cbc_casper::util::codec::put_be64;
use core_cbc_casper::util::codec::put_bytes;
use core_cbc_casper::util::hash;
use core_cbc_casper::util::weight::SendersWeight;
use core_cbc_casper::util::weight::UnknownValidator;
use core_cbc_casper::util::weight::WeightUnit;
use core_cbc_casper::util::weight::WeightUnit::Finite;
use core_cbc_casper::util::weight::WeightUnit::Infinity;
use core_cbc_casper::util::weight::WeightUnit::NaN;

fn hex(bytes: &[u8]) -> String {
    bytes.iter().map(|b| format!("{:02x}", b)).collect()
}

#[test]
fn digest_of_empty_input() {
    let digest = hash::Hash::digest(&[]);
    assert_eq!(
        hex(&digest.to_vec()),
        "786a02f742015903c6c6fd852552d272912f4740e15847618a86e217f71f5419\
         d25e1031afee585313896444934eb04b903a685b1448b755d56f701afe9be2ce"
    );
}

#[test]
fn digest_of_abc() {
    let digest = hash::Hash::digest(b"abc");
    assert_eq!(
        hex(&digest.to_vec()),
        "ba80a53f981c4d0d6a2797b69f12f6e94c212f14685ac4b74b12bb6fdbffa2d1\
         7d87c5392aab792dc252d5de4533cc9518d38aa8dbf1925ab92386edd4009923"
    );
}

#[test]
fn digest_is_a_function_of_the_bytes() {
    assert!(hash::Hash::digest(b"casper").eq(&hash::Hash::digest(b"casper")));
    assert!(!hash::Hash::digest(b"casper").eq(&hash::Hash::digest(b"Casper")));
}

#[test]
fn hash_from_slice_wants_64_bytes() {
    assert!(hash::Hash::from_slice(&[0u8; 63]).is_none());
    assert!(hash::Hash::from_slice(&[0u8; 65]).is_none());
    assert!(hash::Hash::from_slice(&[]).is_none());
    let bytes: Vec<u8> = (0..64).collect();
    let hash = hash::Hash::from_slice(&bytes).unwrap();
    assert_eq!(hash.to_vec(), bytes);
    assert!(hash::Hash::from_slice(&[0u8; 64]).unwrap().eq(&hash::Hash::zero()));
}

#[test]
fn hash_order_is_lexicographic() {
    let mut low = [0u8; 64];
    let mut high = [0u8; 64];
    low[63] = 255;
    high[0] = 1;
    let low = hash::Hash::from_slice(&low).unwrap();
    let high = hash::Hash::from_slice(&high).unwrap();
    assert!(low.lt(&high));
    assert!(!high.lt(&low));
    assert!(!low.lt(&low));
    assert!(hash::Hash::zero().lt(&low));
}

#[test]
fn big_endian_bytes() {
    let mut out = vec![9u8];
    put_be32(&mut out, 0x0102_0304);
    assert_eq!(out, vec![9, 1, 2, 3, 4]);
    put_be64(&mut out, 0x1112_1314_1516_1718);
    assert_eq!(
        out,
        vec![9, 1, 2, 3, 4, 0x11, 0x12, 0x13, 0x14, 0x15, 0x16, 0x17, 0x18]
    );
    put_bytes(&mut out, &[7, 8]);
    assert_eq!(out.len(), 15);
    assert_eq!(get_be32(&out, 1), 0x0102_0304);
    assert_eq!(get_be64(&out, 5), 0x1112_1314_1516_1718);
    let mut max = Vec::new();
    put_be32(&mut max, u32::MAX);
    put_be64(&mut max, u64::MAX);
    assert_eq!(max, vec![255u8; 12]);
    assert_eq!(get_be32(&max, 0), u32::MAX);
    assert_eq!(get_be64(&max, 4), u64::MAX);
}

#[test]
fn weights_add_up_exactly_until_they_overflow() {
    assert_eq!(Finite(3).plus(Finite(4)), Finite(7));
    assert_eq!(Finite(u64::MAX - 1).plus(Finite(1)), Finite(u64::MAX));
    assert_eq!(Finite(u64::MAX).plus(Finite(1)), Infinity);
    assert_eq!(Infinity.plus(Finite(1)), Infinity);
    assert_eq!(Finite(1).plus(Infinity), Infinity);
    assert_eq!(NaN.plus(Finite(1)), NaN);
    assert_eq!(Infinity.plus(NaN), NaN);
}

#[test]
fn weights_compare_like_numbers_with_an_unknown() {
    assert!(Finite(1).lt(Finite(2)));
    assert!(!Finite(2).lt(Finite(2)));
    assert!(Finite(2).le(Finite(2)));
    assert!(Finite(u64::MAX).lt(Infinity));
    assert!(Infinity.le(Infinity));
    assert!(!Infinity.lt(Infinity));
    assert!(Infinity.gt(Finite(0)));
    assert!(Finite(0).ge(Finite(0)));
    assert!(!NaN.lt(Finite(1)));
    assert!(!Finite(1).lt(NaN));
    assert!(!NaN.le(NaN));
    assert!(!NaN.ge(Finite(0)));
    assert!(NaN.is_nan());
    assert!(!Infinity.is_nan());
}

#[test]
fn zero_weight() {
    assert_eq!(<WeightUnit as Zero<WeightUnit>>::zero(), WeightUnit::Finite(0));
    assert!(<WeightUnit as Zero<WeightUnit>>::is_zero(&WeightUnit::Finite(0)));
    assert!(!<WeightUnit as Zero<WeightUnit>>::is_zero(&WeightUnit::Finite(1)));
    assert!(!<WeightUnit as Zero<WeightUnit>>::is_zero(&WeightUnit::NaN));
}

#[test]
fn weights_registry() {
    let mut weights = SendersWeight::new(vec![
        (0, WeightUnit::Finite(1)),
        (1, WeightUnit::Finite(2)),
        (0, WeightUnit::Finite(5)),
    ]);
    assert_eq!(weights.weight(0), Ok(WeightUnit::Finite(5)));
    assert_eq!(weights.weight(1), Ok(WeightUnit::Finite(2)));
    assert_eq!(weights.weight(2), Err(UnknownValidator));
    assert_eq!(weights.weight_or_nan(2), WeightUnit::NaN);
    assert!(weights.insert(2, WeightUnit::Finite(7)));
    assert!(!weights.insert(1, WeightUnit::Finite(3)));
    assert_eq!(weights.weight(1), Ok(WeightUnit::Finite(3)));
    assert_eq!(weights.sum_weight_senders(&vec![]), WeightUnit::Finite(0));
    assert_eq!(
        weights.sum_weight_senders(&vec![0, 1, 2]),
        WeightUnit::Finite(15)
    );
    assert_eq!(weights.sum_weight_senders(&vec![0, 0]), WeightUnit::Finite(10));
    assert_eq!(weights.sum_weight_senders(&vec![0, 9]), WeightUnit::NaN);
    let copy = weights.clone();
    assert_eq!(copy.weight(2), Ok(WeightUnit::Finite(7)));
}

fn sorted(mut cliques: Vec<Vec<u32>>) -> Vec<Vec<u32>> {
    cliques.sort();
    cliques
}

#[test]
fn maximal_cliques_of_a_path() {
    // 1 - 2 - 3
    let vertices = vec![1, 2, 3];
    let neighbours = vec![vec![2], vec![1, 3], vec![2]];
    assert_eq!(
        sorted(maximal_cliques(&vertices, &neighbours)),
        vec![vec![1, 2], vec![2, 3]]
    );
}

#[test]
fn maximal_cliques_of_a_triangle_with_a_tail() {
    // 1 - 2, 1 - 3, 2 - 3, 3 - 4, and 5 without a neighbour
    let vertices = vec![1, 2, 3, 4, 5];
    let neighbours = vec![vec![2, 3], vec![1, 3], vec![1, 2, 4], vec![3], vec![]];
    assert_eq!(
        sorted(maximal_cliques(&vertices, &neighbours)),
        vec![vec![1, 2, 3], vec![3, 4]]
    );
}

#[test]
fn maximal_cliques_without_edges() {
    // Without a vertex that has a neighbour, the empty clique is maximal.
    let none: Vec<u32> = Vec::new();
    assert_eq!(maximal_cliques(&vec![], &vec![]), vec![none.clone()]);
    assert_eq!(
        maximal_cliques(&vec![1, 2], &vec![vec![], vec![]]),
        vec![none]
    );
    // A vertex whose only neighbour is itself is a clique on its own.
    assert_eq!(maximal_cliques(&vec![4], &vec![vec![4]]), vec![vec![4]]);
}

#[test]
fn cancel_signals() {
    use_signals();
}

fn use_signals() {
    let never = core_cbc_casper::util::cancel::Never;
    assert!(!core_cbc_casper::util::cancel::Cancel::is_raised(&never));
    let flag = std::sync::atomic::AtomicBool::new(false);
    assert!(!core_cbc_casper::util::cancel::Cancel::is_raised(&flag));
    flag.store(true, std::sync::atomic::Ordering::Relaxed);
    assert!(core_cbc_casper::util::cancel::Cancel::is_raised(&flag));

    let vertices = vec![1, 2, 3];
    let neighbours = vec![vec![2], vec![1, 3], vec![2]];
    assert_eq!(
        core_cbc_casper::util::clique::maximal_cliques_unless(&vertices, &neighbours, &flag),
        None
    );
    flag.store(false, std::sync::atomic::Ordering::Relaxed);
    assert_eq!(
        core_cbc_casper::util::clique::maximal_cliques_unless(&vertices, &neighbours, &flag)
            .map(sorted),
        Some(vec![vec![1, 2], vec![2, 3]])
    );
}

#[test]
fn weights_registry_entries() {
    let weights = SendersWeight::new(vec![
        (3, WeightUnit::Finite(1)),
        (1, WeightUnit::Infinity),
        (2, WeightUnit::NaN),
    ]);
    let mut senders = weights.senders();
    senders.sort();
    assert_eq!(senders, vec![1, 2, 3]);
    let mut entries = weights.iter();
    entries.sort_by_key(|(sender, _)| *sender);
    assert_eq!(
        entries,
        vec![
            (1, WeightUnit::Infinity),
            (2, WeightUnit::NaN),
            (3, WeightUnit::Finite(1))
        ]
    );
    assert_eq!(SendersWeight::new(vec![]).iter(), vec![]);
}
