//! Validator weights: non-negative quantities with an infinite value and a
//! sentinel for "no weight".

use crate::traits::Zero;
use std::collections::HashMap;
use vstd::prelude::*;
use vstd::std_specs::iter::IteratorSpec;

verus! {

/// A validator weight.
///
/// Finite weights add up exactly until they leave the range of `u64`, where the
/// sum becomes `Infinity`. `NaN` stands for a weight that is not known: it
/// absorbs every sum and compares neither below nor above anything.
#[derive(Clone, Copy, Debug, PartialEq, Eq, Structural)]
pub enum WeightUnit {
    Finite(u64),
    Infinity,
    NaN,
}

impl WeightUnit {
    /// The sum of two weights.
    pub open spec fn spec_plus(self, other: WeightUnit) -> WeightUnit {
        match (self, other) {
            (WeightUnit::NaN, _) => WeightUnit::NaN,
            (_, WeightUnit::NaN) => WeightUnit::NaN,
            (WeightUnit::Infinity, _) => WeightUnit::Infinity,
            (_, WeightUnit::Infinity) => WeightUnit::Infinity,
            (WeightUnit::Finite(a), WeightUnit::Finite(b)) => if a + b <= u64::MAX {
                WeightUnit::Finite((a + b) as u64)
            } else {
                WeightUnit::Infinity
            },
        }
    }

    /// `self` is strictly below `other`; false whenever either is `NaN`.
    pub open spec fn spec_lt(self, other: WeightUnit) -> bool {
        match (self, other) {
            (WeightUnit::NaN, _) => false,
            (_, WeightUnit::NaN) => false,
            (WeightUnit::Infinity, _) => false,
            (WeightUnit::Finite(_), WeightUnit::Infinity) => true,
            (WeightUnit::Finite(a), WeightUnit::Finite(b)) => a < b,
        }
    }

    /// `self` is at most `other`; false whenever either is `NaN`.
    pub open spec fn spec_le(self, other: WeightUnit) -> bool {
        self != WeightUnit::NaN && other != WeightUnit::NaN && !other.spec_lt(self)
    }

    /// `self` is strictly above `other`; false whenever either is `NaN`.
    pub open spec fn spec_gt(self, other: WeightUnit) -> bool {
        other.spec_lt(self)
    }

    /// `self` is at least `other`; false whenever either is `NaN`.
    pub open spec fn spec_ge(self, other: WeightUnit) -> bool {
        other.spec_le(self)
    }

    /// The place of a weight in the order of all weights: the finite
    /// weights by their size, then infinity, then the unknown weight.
    pub open spec fn rank(self) -> int {
        match self {
            WeightUnit::Finite(w) => w as int,
            WeightUnit::Infinity => u64::MAX + 1,
            WeightUnit::NaN => u64::MAX + 2,
        }
    }

    /// Addition is commutative and associative, and zero is neutral.
    pub proof fn lemma_plus_laws(a: WeightUnit, b: WeightUnit, c: WeightUnit)
        ensures
            a.spec_plus(b) == b.spec_plus(a),
            a.spec_plus(b).spec_plus(c) == a.spec_plus(b.spec_plus(c)),
            a.spec_plus(WeightUnit::Finite(0)) == a,
    {
    }

    /// A sum is never strictly below one of its terms.
    pub proof fn lemma_plus_monotone(a: WeightUnit, b: WeightUnit)
        ensures
            !a.spec_plus(b).spec_lt(a),
            a.spec_le(b) ==> forall|c: WeightUnit|
                c != WeightUnit::NaN ==> #[trigger] a.spec_plus(c).spec_le(b.spec_plus(c)),
    {
    }

    /// `self + other`.
    pub fn plus(self, other: WeightUnit) -> (r: WeightUnit)
        ensures
            r == self.spec_plus(other),
    {
        match (self, other) {
            (WeightUnit::NaN, _) => WeightUnit::NaN,
            (_, WeightUnit::NaN) => WeightUnit::NaN,
            (WeightUnit::Infinity, _) => WeightUnit::Infinity,
            (_, WeightUnit::Infinity) => WeightUnit::Infinity,
            (WeightUnit::Finite(a), WeightUnit::Finite(b)) => match a.checked_add(b) {
                Some(s) => WeightUnit::Finite(s),
                None => WeightUnit::Infinity,
            },
        }
    }

    /// `self < other`.
    pub fn lt(self, other: WeightUnit) -> (r: bool)
        ensures
            r == self.spec_lt(other),
    {
        match (self, other) {
            (WeightUnit::NaN, _) => false,
            (_, WeightUnit::NaN) => false,
            (WeightUnit::Infinity, _) => false,
            (WeightUnit::Finite(_), WeightUnit::Infinity) => true,
            (WeightUnit::Finite(a), WeightUnit::Finite(b)) => a < b,
        }
    }

    /// `self <= other`.
    pub fn le(self, other: WeightUnit) -> (r: bool)
        ensures
            r == self.spec_le(other),
    {
        !self.is_nan() && !other.is_nan() && !other.lt(self)
    }

    /// `self > other`.
    pub fn gt(self, other: WeightUnit) -> (r: bool)
        ensures
            r == self.spec_gt(other),
    {
        other.lt(self)
    }

    /// `self >= other`.
    pub fn ge(self, other: WeightUnit) -> (r: bool)
        ensures
            r == self.spec_ge(other),
    {
        other.le(self)
    }

    /// Whether `self` comes before `other` in the order of all weights.
    pub fn ranks_below(self, other: WeightUnit) -> (r: bool)
        ensures
            r == (self.rank() < other.rank()),
    {
        match (self, other) {
            (WeightUnit::Finite(x), WeightUnit::Finite(y)) => x < y,
            (WeightUnit::Finite(_), _) => true,
            (WeightUnit::Infinity, WeightUnit::NaN) => true,
            _ => false,
        }
    }

    /// Whether the weight is the `NaN` sentinel.
    pub fn is_nan(self) -> (r: bool)
        ensures
            r == (self == WeightUnit::NaN),
    {
        match self {
            WeightUnit::NaN => true,
            _ => false,
        }
    }
}

impl Zero<WeightUnit> for WeightUnit {
    open spec fn spec_zero() -> WeightUnit {
        WeightUnit::Finite(0)
    }

    fn zero() -> (z: WeightUnit) {
        WeightUnit::Finite(0)
    }

    fn is_zero(val: &WeightUnit) -> (r: bool) {
        match val {
            WeightUnit::Finite(w) => *w == 0,
            _ => false,
        }
    }
}

/// The failure of a weight lookup: the validator has no entry.
#[derive(Clone, Copy, Debug, PartialEq, Eq, Structural)]
pub struct UnknownValidator;

/// The weight of each known validator.
pub struct SendersWeight {
    weights: HashMap<u32, WeightUnit>,
}

impl View for SendersWeight {
    type V = Map<u32, WeightUnit>;

    closed spec fn view(&self) -> Map<u32, WeightUnit> {
        self.weights@
    }
}

impl Clone for SendersWeight {
    /// A registry with the same entries.
    fn clone(&self) -> (r: SendersWeight)
        ensures
            r@ == self@,
    {
        SendersWeight { weights: self.weights.clone() }
    }
}

/// The weight that `weights` gives to `sender`, or `NaN` where it gives none.
pub open spec fn weight_or_nan(weights: Map<u32, WeightUnit>, sender: u32) -> WeightUnit {
    if weights.contains_key(sender) {
        weights[sender]
    } else {
        WeightUnit::NaN
    }
}

/// The sum, from the left, of the weights of `senders`; a validator without a
/// weight makes it `NaN`.
pub open spec fn sum_of(weights: Map<u32, WeightUnit>, senders: Seq<u32>) -> WeightUnit
    decreases senders.len(),
{
    if senders.len() == 0 {
        WeightUnit::Finite(0)
    } else {
        sum_of(weights, senders.drop_last()).spec_plus(weight_or_nan(weights, senders.last()))
    }
}

/// The registry that holds each of `entries` in turn; a later entry replaces an
/// earlier one of the same validator.
pub open spec fn registry_of(entries: Seq<(u32, WeightUnit)>) -> Map<u32, WeightUnit>
    decreases entries.len(),
{
    if entries.len() == 0 {
        Map::empty()
    } else {
        registry_of(entries.drop_last()).insert(entries.last().0, entries.last().1)
    }
}

impl SendersWeight {
    /// The registry that holds `entries`.
    pub fn new(entries: Vec<(u32, WeightUnit)>) -> (r: SendersWeight)
        ensures
            r@ == registry_of(entries@),
    {
        broadcast use vstd::std_specs::hash::group_hash_axioms;

        let mut weights: HashMap<u32, WeightUnit> = HashMap::new();
        let mut i: usize = 0;
        while i < entries.len()
            invariant
                i <= entries.len(),
                weights@ == registry_of(entries@.take(i as int)),
            decreases entries.len() - i,
        {
            let (sender, weight) = entries[i];
            weights.insert(sender, weight);
            assert(entries@.take(i + 1).drop_last() =~= entries@.take(i as int));
            i += 1;
        }
        assert(entries@.take(entries.len() as int) =~= entries@);
        SendersWeight { weights }
    }

    /// Gives `sender` the weight `weight`; returns whether `sender` was new.
    pub fn insert(&mut self, sender: u32, weight: WeightUnit) -> (r: bool)
        ensures
            final(self)@ == old(self)@.insert(sender, weight),
            r == !old(self)@.contains_key(sender),
    {
        broadcast use vstd::std_specs::hash::group_hash_axioms;

        self.weights.insert(sender, weight).is_none()
    }

    /// The validators that have a weight, each once, in no particular order.
    pub fn senders(&self) -> (senders: Vec<u32>)
        ensures
            senders@.no_duplicates(),
            senders@.to_set() == self@.dom(),
    {
        broadcast use vstd::std_specs::hash::group_hash_axioms;
        broadcast use vstd::std_specs::hash::axiom_spec_keys_iter;

        let mut senders: Vec<u32> = Vec::new();
        let ghost all = vstd::std_specs::hash::spec_keys_iter(&self.weights).remaining();
        for key in it: self.weights.keys()
            invariant
                it.seq() == all,
                senders@ == it.seq().unref().take(it.index() as int),
        {
            senders.push(*key);
            assert(senders@ =~= it.seq().unref().take(it.index() + 1));
        }
        proof {
            assert(senders@ =~= all.unref());
            assert(all.unref().no_duplicates()) by {
                assert forall|i: int, j: int|
                    0 <= i < all.unref().len() && 0 <= j < all.unref().len() && i
                        != j implies all.unref()[i] != all.unref()[j] by {
                    assert(all[i] != all[j]);
                }
            }
        }
        senders
    }

    /// Each validator with its weight, each validator once, in no
    /// particular order.
    pub fn iter(&self) -> (entries: Vec<(u32, WeightUnit)>)
        ensures
            entries@.len() == self@.dom().len(),
            forall|i: int|
                0 <= i < entries@.len() ==> self@.contains_key((#[trigger] entries@[i]).0)
                    && self@[entries@[i].0] == entries@[i].1,
            forall|i: int, j: int|
                0 <= i < j < entries@.len() ==> (#[trigger] entries@[i]).0 != (
                #[trigger] entries@[j]).0,
            forall|sender: u32|
                self@.contains_key(sender) ==> exists|i: int|
                    0 <= i < entries@.len() && (#[trigger] entries@[i]).0 == sender,
    {
        broadcast use vstd::std_specs::hash::group_hash_axioms;

        let senders = self.senders();
        let mut entries: Vec<(u32, WeightUnit)> = Vec::new();
        let mut i: usize = 0;
        while i < senders.len()
            invariant
                i <= senders@.len(),
                senders@.to_set() == self@.dom(),
                entries@.len() == i,
                forall|k: int|
                    0 <= k < i ==> (#[trigger] entries@[k]).0 == senders@[k] && self@.contains_key(
                        senders@[k],
                    ) && self@[senders@[k]] == entries@[k].1,
            decreases senders@.len() - i,
        {
            proof {
                assert(senders@.to_set().contains(senders@[i as int]));
            }
            match self.weights.get(&senders[i]) {
                Some(weight) => {
                    entries.push((senders[i], *weight));
                },
                None => {
                    proof {
                        assert(false);
                    }
                },
            }
            i += 1;
        }
        proof {
            senders@.unique_seq_to_set();
            assert forall|sender: u32| self@.contains_key(sender) implies exists|k: int|
                0 <= k < entries@.len() && (#[trigger] entries@[k]).0 == sender by {
                assert(senders@.to_set().contains(sender));
                let k = choose|k: int| 0 <= k < senders@.len() && senders@[k] == sender;
                assert(entries@[k].0 == sender);
            }
        }
        entries
    }

    /// The weight of `sender`, or `UnknownValidator` where it has none.
    pub fn weight(&self, sender: u32) -> (r: Result<WeightUnit, UnknownValidator>)
        ensures
            r == if self@.contains_key(sender) {
                Ok::<WeightUnit, UnknownValidator>(self@[sender])
            } else {
                Err::<WeightUnit, UnknownValidator>(UnknownValidator)
            },
    {
        broadcast use vstd::std_specs::hash::group_hash_axioms;

        match self.weights.get(&sender) {
            Some(w) => Ok(*w),
            None => Err(UnknownValidator),
        }
    }

    /// The weight of `sender`, or `NaN` where it has none.
    pub fn weight_or_nan(&self, sender: u32) -> (r: WeightUnit)
        ensures
            r == weight_or_nan(self@, sender),
    {
        match self.weight(sender) {
            Ok(w) => w,
            Err(_) => WeightUnit::NaN,
        }
    }

    /// The sum of the weights of `senders`, each counted as often as it occurs.
    pub fn sum_weight_senders(&self, senders: &Vec<u32>) -> (r: WeightUnit)
        ensures
            r == sum_of(self@, senders@),
    {
        let mut total = WeightUnit::Finite(0);
        let mut i: usize = 0;
        while i < senders.len()
            invariant
                i <= senders.len(),
                total == sum_of(self@, senders@.take(i as int)),
            decreases senders.len() - i,
        {
            total = total.plus(self.weight_or_nan(senders[i]));
            assert(senders@.take(i + 1).drop_last() =~= senders@.take(i as int));
            i += 1;
        }
        assert(senders@.take(senders.len() as int) =~= senders@);
        total
    }
}

} // verus!
