//! Validating dice, rolling them, and setting dropped rolls apart.
use vstd::prelude::*;
use vstd::relations::{sorted_by, total_ordering};
use rand::Rng;
use rand::rngs::ThreadRng;
use crate::data::{Dice, DropDirection};

verus! {

broadcast use vstd::seq_lib::group_to_multiset_ensures;

/// rand's per-thread generator, carried through opaque.
#[verifier::external_type_specification]
#[verifier::external_body]
pub struct ExThreadRng(ThreadRng);

/// Relies on `rand::thread_rng`: a handle on the calling thread's random generator. Nothing is
/// promised of the values it yields.
pub assume_specification[ rand::thread_rng ]() -> ThreadRng;

/// Relies on rand's `Rng::gen_range`: a value drawn from `[low, high)`. It panics where
/// `low >= high`.
#[verifier::external_body]
fn draw(rng: &mut ThreadRng, low: u64, high: u64) -> (r: u64)
    requires
        low < high,
    ensures
        low <= r < high,
{
    rng.gen_range(low, high)
}

/// The message of a drop clause that discards every roll.
pub open spec fn drop_too_large() -> Seq<char> {
    "the drop is too large for this many rolls"@
}

pub open spec fn ascending(s: Seq<u32>) -> bool {
    forall|i: int, j: int| 0 <= i < j < s.len() ==> s[i] <= s[j]
}

pub open spec fn leq(a: u32, b: u32) -> bool {
    a <= b
}

/// The rolls in ascending order.
pub open spec fn sorted_rolls(rolls: Seq<u32>) -> Seq<u32> {
    rolls.sort_by(|a: u32, b: u32| leq(a, b))
}

/// What a drop clause keeps of the rolls: all but the `value` highest, or all but the `value`
/// lowest, ascending.
pub open spec fn kept_rolls(d: Dice, rolls: Seq<u32>) -> Seq<u32> {
    let s = sorted_rolls(rolls);
    match d.drop {
        None => s,
        Some(dr) => match dr.direction {
            DropDirection::Highest => s.subrange(0, s.len() - dr.value),
            DropDirection::Lowest => s.subrange(dr.value as int, s.len() as int),
        },
    }
}

/// What a drop clause discards of the rolls, ascending.
pub open spec fn dropped_rolls(d: Dice, rolls: Seq<u32>) -> Seq<u32> {
    let s = sorted_rolls(rolls);
    match d.drop {
        None => Seq::<u32>::empty(),
        Some(dr) => match dr.direction {
            DropDirection::Highest => s.subrange(s.len() - dr.value, s.len() as int),
            DropDirection::Lowest => s.subrange(0, dr.value as int),
        },
    }
}

impl Dice {
    /// How many rolls the drop clause discards.
    pub open spec fn drop_count(&self) -> nat {
        match self.drop {
            None => 0,
            Some(d) => d.value as nat,
        }
    }

    /// A message where the drop clause discards as many rolls as there are, or more.
    pub fn validate(&self) -> (r: Option<String>)
        ensures
            r is None <==> self.drop_fits(),
            r matches Some(m) ==> m@ == drop_too_large(),
    {
        if let Some(drop) = &self.drop {
            if drop.value >= self.count {
                Some(String::from_str("the drop is too large for this many rolls"))
            } else {
                None
            }
        } else {
            None
        }
    }

    /// `count` values drawn from `1..=max`, in the order drawn.
    pub fn roll(&self, rng: &mut ThreadRng) -> (r: Vec<u32>)
        requires
            self.max >= 1,
        ensures
            r@.len() == self.count,
            forall|i: int| 0 <= i < r@.len() ==> 1 <= #[trigger] r@[i] <= self.max,
    {
        let mut rolls: Vec<u32> = Vec::new();
        let mut i: u32 = 0;
        while i < self.count
            invariant
                self.max >= 1,
                i <= self.count,
                rolls@.len() == i,
                forall|k: int| 0 <= k < rolls@.len() ==> 1 <= #[trigger] rolls@[k] <= self.max,
            decreases self.count - i,
        {
            let v = draw(rng, 1, self.max as u64 + 1);
            rolls.push(v as u32);
            i = i + 1;
        }
        rolls
    }
}

pub proof fn lemma_leq_total()
    ensures
        total_ordering(|a: u32, b: u32| leq(a, b)),
{
}

pub proof fn lemma_sorted_rolls(rolls: Seq<u32>)
    ensures
        ascending(sorted_rolls(rolls)),
        sorted_rolls(rolls).to_multiset() == rolls.to_multiset(),
        sorted_rolls(rolls).len() == rolls.len(),
{
    lemma_leq_total();
    rolls.lemma_sort_by_ensures(|a: u32, b: u32| leq(a, b));
    let s = sorted_rolls(rolls);
    let ord = |a: u32, b: u32| leq(a, b);
    assert(sorted_by(s, ord));
    assert forall|i: int, j: int| 0 <= i < j < s.len() implies s[i] <= s[j] by {
        assert(ord(s[i], s[j]));
    }
    assert(s.to_multiset().len() == rolls.to_multiset().len());
}

/// The rolls in ascending order.
fn sort_ascending(rolls: &Vec<u32>) -> (r: Vec<u32>)
    ensures
        r@ == sorted_rolls(rolls@),
{
    let mut sorted: Vec<u32> = Vec::new();
    let mut i: usize = 0;
    while i < rolls.len()
        invariant
            i <= rolls@.len(),
            ascending(sorted@),
            sorted@.to_multiset() == rolls@.take(i as int).to_multiset(),
        decreases rolls@.len() - i,
    {
        let x = rolls[i];
        let mut pos: usize = 0;
        while pos < sorted.len() && sorted[pos] <= x
            invariant
                pos <= sorted@.len(),
                forall|k: int| 0 <= k < pos ==> sorted@[k] <= x,
            decreases sorted@.len() - pos,
        {
            pos = pos + 1;
        }
        let ghost before = sorted@;
        sorted.insert(pos, x);
        proof {
            assert(rolls@.take(i + 1) =~= rolls@.take(i as int).push(x));
            assert forall|a: int, b: int| 0 <= a < b < sorted@.len() implies sorted@[a]
                <= sorted@[b] by {
                if b < pos {
                } else if b == pos {
                } else if a < pos {
                    assert(before[a] <= x);
                    assert(x < before[pos as int] || pos == before.len());
                } else if a == pos {
                    assert(before[pos as int] > x);
                    assert(before[pos as int] <= before[b - 1]);
                } else {
                }
            }
        }
        i = i + 1;
    }
    proof {
        assert(rolls@.take(rolls@.len() as int) =~= rolls@);
        lemma_leq_total();
        lemma_sorted_rolls(rolls@);
        assert(sorted_by(sorted@, |a: u32, b: u32| leq(a, b)));
        assert(sorted_by(sorted_rolls(rolls@), |a: u32, b: u32| leq(a, b)));
        vstd::seq_lib::lemma_sorted_unique(
            sorted@,
            sorted_rolls(rolls@),
            |a: u32, b: u32| leq(a, b),
        );
    }
    sorted
}

pub proof fn lemma_sorted_rolls_in_range(rolls: Seq<u32>, low: u32, high: u32)
    requires
        forall|i: int| 0 <= i < rolls.len() ==> low <= #[trigger] rolls[i] <= high,
    ensures
        forall|i: int|
            0 <= i < sorted_rolls(rolls).len() ==> low <= #[trigger] sorted_rolls(rolls)[i] <= high,
{
    lemma_sorted_rolls(rolls);
    let s = sorted_rolls(rolls);
    assert forall|i: int| 0 <= i < s.len() implies low <= #[trigger] s[i] <= high by {
        assert(s.contains(s[i]));
        assert(s.to_multiset().count(s[i]) > 0);
        assert(rolls.contains(s[i]));
    }
}

/// A drop clause of `k` over `n` rolls keeps `n - k` of them, ascending, and discards the
/// other `k`. Dropping the highest, no kept roll is above a discarded one; dropping the
/// lowest, none is below one. Kept and discarded rolls together are the rolls.
pub proof fn lemma_drop_keeps_extremes(d: Dice, rolls: Seq<u32>)
    requires
        d.drop_count() <= rolls.len(),
    ensures
        kept_rolls(d, rolls).len() == rolls.len() - d.drop_count(),
        dropped_rolls(d, rolls).len() == d.drop_count(),
        ascending(kept_rolls(d, rolls)),
        (kept_rolls(d, rolls) + dropped_rolls(d, rolls)).to_multiset() == rolls.to_multiset(),
        d.drop matches Some(dr) && dr.direction == DropDirection::Highest ==> forall|i: int, j: int|
            0 <= i < kept_rolls(d, rolls).len() && 0 <= j < dropped_rolls(d, rolls).len()
                ==> #[trigger] kept_rolls(d, rolls)[i] <= #[trigger] dropped_rolls(d, rolls)[j],
        d.drop matches Some(dr) && dr.direction == DropDirection::Lowest ==> forall|i: int, j: int|
            0 <= i < dropped_rolls(d, rolls).len() && 0 <= j < kept_rolls(d, rolls).len()
                ==> #[trigger] dropped_rolls(d, rolls)[i] <= #[trigger] kept_rolls(d, rolls)[j],
{
    lemma_sorted_rolls(rolls);
    let s = sorted_rolls(rolls);
    let kept = kept_rolls(d, rolls);
    let dropped = dropped_rolls(d, rolls);
    match d.drop {
        None => {
            assert(kept + dropped =~= s);
        },
        Some(dr) => match dr.direction {
            DropDirection::Highest => {
                assert(kept + dropped =~= s);
            },
            DropDirection::Lowest => {
                assert(dropped + kept =~= s);
                vstd::seq_lib::lemma_multiset_commutative(kept, dropped);
                vstd::seq_lib::lemma_multiset_commutative(dropped, kept);
            },
        },
    }
}

impl Dice {
    /// The rolls in ascending order, parted into those kept and those the drop clause discards.
    pub fn split_rolls(&self, rolls: &Vec<u32>) -> (r: (Vec<u32>, Vec<u32>))
        requires
            self.drop_count() <= rolls@.len(),
        ensures
            r.0@ == kept_rolls(*self, rolls@),
            r.1@ == dropped_rolls(*self, rolls@),
    {
        let mut sorted = sort_ascending(rolls);
        proof {
            lemma_sorted_rolls(rolls@);
        }
        match self.drop {
            None => (sorted, Vec::new()),
            Some(drop) => match drop.direction {
                DropDirection::Highest => {
                    let dropped = sorted.split_off(sorted.len() - drop.value as usize);
                    (sorted, dropped)
                },
                DropDirection::Lowest => {
                    let kept = sorted.split_off(drop.value as usize);
                    (kept, sorted)
                },
            },
        }
    }

    /// Rolls the dice and keeps what the drop clause leaves, ascending.
    pub fn generate(&self, rng: &mut ThreadRng) -> (r: Vec<u32>)
        requires
            self.max >= 1,
            self.drop_count() <= self.count,
        ensures
            r@.len() == self.count - self.drop_count(),
            ascending(r@),
            forall|i: int| 0 <= i < r@.len() ==> 1 <= #[trigger] r@[i] <= self.max,
    {
        let rolls = self.roll(rng);
        let (kept, _) = self.split_rolls(&rolls);
        proof {
            lemma_drop_keeps_extremes(*self, rolls@);
            lemma_sorted_rolls(rolls@);
            lemma_sorted_rolls_in_range(rolls@, 1, self.max);
            let s = sorted_rolls(rolls@);
            assert forall|i: int| 0 <= i < kept@.len() implies 1 <= #[trigger] kept@[i]
                <= self.max by {
                match self.drop {
                    Some(dr) => match dr.direction {
                        DropDirection::Lowest => {
                            assert(kept@[i] == s[i + dr.value]);
                        },
                        DropDirection::Highest => {
                            assert(kept@[i] == s[i]);
                        },
                    },
                    None => {
                        assert(kept@[i] == s[i]);
                    },
                }
            }
        }
        kept
    }
}

} // verus!
