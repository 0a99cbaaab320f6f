//! Evaluation of a parsed expression into a report of its rolls and totals.
use vstd::prelude::*;
use vstd::string::StringExecFns;
use rand::rngs::ThreadRng;
use crate::data::{Args, Component, Dice, Sign, Term};
use crate::dice::{drop_too_large, dropped_rolls, kept_rolls};
use crate::display::{dice_text, push_char, push_signed_decimal, push_decimal, decimal, signed_decimal};

verus! {

pub open spec fn seq_sum(s: Seq<u32>) -> int
    decreases s.len(),
{
    if s.len() == 0 {
        0
    } else {
        seq_sum(s.drop_last()) + s.last()
    }
}

pub open spec fn multiplier(s: Sign) -> int {
    match s {
        Sign::Positive => 1,
        Sign::Negative => -1,
    }
}

/// A term of dice whose drop clause discards every roll.
pub open spec fn unfit(t: Term) -> bool {
    match t.component {
        Component::Dice(d) => !d.drop_fits(),
        Component::Bonus(_) => false,
    }
}

/// The position of the first unfit term, if any.
pub open spec fn first_unfit(terms: Seq<Term>) -> Option<int>
    decreases terms.len(),
{
    if terms.len() == 0 {
        None
    } else {
        match first_unfit(terms.drop_last()) {
            Some(j) => Some(j),
            None => if unfit(terms.last()) {
                Some(terms.len() - 1)
            } else {
                None
            },
        }
    }
}

/// Values separated by `, `.
pub open spec fn join_values(s: Seq<u32>) -> Seq<char>
    decreases s.len(),
{
    if s.len() == 0 {
        Seq::empty()
    } else if s.len() == 1 {
        decimal(s[0] as nat)
    } else {
        join_values(s.drop_last()) + ", "@ + decimal(s.last() as nat)
    }
}

/// Lines separated by line breaks.
pub open spec fn join_lines(lines: Seq<Seq<char>>) -> Seq<char>
    decreases lines.len(),
{
    if lines.len() == 0 {
        Seq::empty()
    } else if lines.len() == 1 {
        lines[0]
    } else {
        join_lines(lines.drop_last()) + seq!['\n'] + lines.last()
    }
}

/// The line of one term of dice: its notation, the discarded rolls struck through, then the
/// kept rolls in bold.
pub open spec fn dice_line(d: Dice, rolls: Seq<u32>) -> Seq<char> {
    dice_text(d) + ": [~~"@ + join_values(dropped_rolls(d, rolls)) + "~~, **"@ + join_values(
        kept_rolls(d, rolls),
    ) + "**]"@
}

/// One line per term of dice, in order; `rolls[i]` holds the rolls of term `i`.
pub open spec fn dice_lines(terms: Seq<Term>, rolls: Seq<Seq<u32>>) -> Seq<Seq<char>>
    decreases terms.len(),
{
    if terms.len() == 0 {
        Seq::empty()
    } else {
        let before = dice_lines(terms.drop_last(), rolls);
        match terms.last().component {
            Component::Dice(d) => before.push(dice_line(d, rolls[terms.len() - 1])),
            Component::Bonus(_) => before,
        }
    }
}

/// The signed sum of the kept rolls of every term of dice and of every bonus.
pub open spec fn total(terms: Seq<Term>, rolls: Seq<Seq<u32>>) -> int
    decreases terms.len(),
{
    if terms.len() == 0 {
        0
    } else {
        let t = terms.last();
        let value = match t.component {
            Component::Dice(d) => seq_sum(kept_rolls(d, rolls[terms.len() - 1])),
            Component::Bonus(b) => b as int,
        };
        total(terms.drop_last(), rolls) + multiplier(t.sign) * value
    }
}

/// The signed sum of the bonuses alone.
pub open spec fn bonus_total(terms: Seq<Term>) -> int
    decreases terms.len(),
{
    if terms.len() == 0 {
        0
    } else {
        let t = terms.last();
        let value = match t.component {
            Component::Dice(_) => 0,
            Component::Bonus(b) => b as int,
        };
        bonus_total(terms.drop_last()) + multiplier(t.sign) * value
    }
}

pub open spec fn bonus_line(b: int) -> Seq<char> {
    "Total bonus: "@ + signed_decimal(b)
}

pub open spec fn sum_line(s: int) -> Seq<char> {
    "**Sum: "@ + signed_decimal(s) + "**"@
}

/// The report of an unfit term: its notation, with a `-` where it is subtracted, and why.
pub open spec fn error_text(t: Term) -> Seq<char> {
    let sign = match t.sign {
        Sign::Positive => Seq::<char>::empty(),
        Sign::Negative => seq!['-'],
    };
    match t.component {
        Component::Dice(d) => "Error validating dice "@ + sign + dice_text(d) + ": "@
            + drop_too_large(),
        Component::Bonus(_) => Seq::empty(),
    }
}

/// The report on `terms` with the given rolls: the error of the first unfit term where
/// there is one; else the lines of the dice, a line of the bonus total where it is positive,
/// and the line of the sum.
pub open spec fn report(terms: Seq<Term>, rolls: Seq<Seq<u32>>) -> Seq<char> {
    match first_unfit(terms) {
        Some(j) => error_text(terms[j]),
        None => {
            let b = bonus_total(terms);
            let sum = sum_line(total(terms, rolls));
            let tail = if b > 0 {
                seq![bonus_line(b), sum]
            } else {
                seq![sum]
            };
            join_lines(dice_lines(terms, rolls) + tail)
        },
    }
}

/// Rolls of the right number for a term: `count` of them where it is dice that fit.
pub open spec fn roll_sized(t: Term, rolls: Seq<u32>) -> bool {
    match t.component {
        Component::Dice(d) => d.drop_fits() ==> rolls.len() == d.count,
        Component::Bonus(_) => true,
    }
}

/// Rolls that the dice of a term could give: `count` values in `1..=max`, where they fit.
pub open spec fn roll_fits(t: Term, rolls: Seq<u32>) -> bool {
    &&& roll_sized(t, rolls)
    &&& match t.component {
        Component::Dice(d) => d.drop_fits() ==> forall|k: int|
            0 <= k < rolls.len() ==> 1 <= #[trigger] rolls[k] <= d.max,
        Component::Bonus(_) => true,
    }
}

pub open spec fn rolls_sized(terms: Seq<Term>, rolls: Seq<Seq<u32>>) -> bool {
    &&& rolls.len() == terms.len()
    &&& forall|i: int| 0 <= i < terms.len() ==> roll_sized(#[trigger] terms[i], rolls[i])
}

pub open spec fn rolls_fit(terms: Seq<Term>, rolls: Seq<Seq<u32>>) -> bool {
    &&& rolls.len() == terms.len()
    &&& forall|i: int| 0 <= i < terms.len() ==> roll_fits(#[trigger] terms[i], rolls[i])
}

pub open spec fn rolls_view(rolls: Seq<Vec<u32>>) -> Seq<Seq<u32>> {
    rolls.map_values(|v: Vec<u32>| v@)
}

pub proof fn lemma_first_unfit_extends(terms: Seq<Term>, k: int)
    requires
        0 <= k <= terms.len(),
    ensures
        first_unfit(terms.take(k)) matches Some(j) ==> first_unfit(terms) == Some(j),
        first_unfit(terms) is None ==> first_unfit(terms.take(k)) is None,
    decreases terms.len(),
{
    if k < terms.len() {
        lemma_first_unfit_extends(terms.drop_last(), k);
        assert(terms.drop_last().take(k) =~= terms.take(k));
    } else {
        assert(terms.take(k) =~= terms);
    }
}

pub proof fn lemma_join_lines_push(lines: Seq<Seq<char>>, line: Seq<char>)
    ensures
        join_lines(lines.push(line)) == if lines.len() == 0 {
            line
        } else {
            join_lines(lines) + seq!['\n'] + line
        },
{
    assert(lines.push(line).drop_last() =~= lines);
}

/// With bonuses alone, the sum is the bonus total, and the report is the line of that total
/// where it is positive, then the line of the sum; with a total of zero or less, the line of
/// the sum alone.
pub proof fn lemma_bonus_only_report(terms: Seq<Term>, rolls: Seq<Seq<u32>>)
    requires
        forall|i: int| 0 <= i < terms.len() ==> (#[trigger] terms[i]).component is Bonus,
    ensures
        total(terms, rolls) == bonus_total(terms),
        report(terms, rolls) == if bonus_total(terms) > 0 {
            bonus_line(bonus_total(terms)) + seq!['\n'] + sum_line(bonus_total(terms))
        } else {
            sum_line(bonus_total(terms))
        },
{
    lemma_bonus_only_prefix(terms, rolls);
    let b = bonus_total(terms);
    if b > 0 {
        lemma_join_lines_push(seq![bonus_line(b)], sum_line(b));
        assert(seq![bonus_line(b)].push(sum_line(b)) =~= seq![bonus_line(b), sum_line(b)]);
        assert(Seq::<Seq<char>>::empty() + seq![bonus_line(b), sum_line(b)] =~= seq![
            bonus_line(b),
            sum_line(b),
        ]);
    } else {
        assert(Seq::<Seq<char>>::empty() + seq![sum_line(b)] =~= seq![sum_line(b)]);
    }
}

proof fn lemma_bonus_only_prefix(terms: Seq<Term>, rolls: Seq<Seq<u32>>)
    requires
        forall|i: int| 0 <= i < terms.len() ==> (#[trigger] terms[i]).component is Bonus,
    ensures
        total(terms, rolls) == bonus_total(terms),
        first_unfit(terms) is None,
        dice_lines(terms, rolls) == Seq::<Seq<char>>::empty(),
    decreases terms.len(),
{
    if terms.len() > 0 {
        let front = terms.drop_last();
        assert forall|i: int| 0 <= i < front.len() implies (#[trigger] front[i]).component is Bonus by {
            assert(front[i] == terms[i]);
        }
        lemma_bonus_only_prefix(front, rolls);
        assert(terms.last() == terms[terms.len() - 1]);
    }
}

/// Appends the values separated by `, `.
fn push_values(out: &mut String, values: &Vec<u32>)
    ensures
        final(out)@ == old(out)@ + join_values(values@),
{
    let mut i: usize = 0;
    while i < values.len()
        invariant
            i <= values@.len(),
            out@ == old(out)@ + join_values(values@.take(i as int)),
        decreases values@.len() - i,
    {
        proof {
            assert(values@.take(i + 1).drop_last() =~= values@.take(i as int));
        }
        if i > 0 {
            out.append(", ");
        }
        push_decimal(out, values[i] as u128);
        proof {
            if i == 0 {
                assert(join_values(values@.take(1)) == decimal(values@[0] as nat));
            }
            assert(out@ =~= old(out)@ + join_values(values@.take(i + 1)));
        }
        i = i + 1;
    }
    proof {
        assert(values@.take(values@.len() as int) =~= values@);
    }
}

fn sum_values(values: &Vec<u32>) -> (r: u64)
    requires
        values@.len() <= u32::MAX,
    ensures
        r == seq_sum(values@),
{
    let mut acc: u64 = 0;
    let mut i: usize = 0;
    while i < values.len()
        invariant
            i <= values@.len() <= u32::MAX,
            acc == seq_sum(values@.take(i as int)),
            acc <= i * 0xffff_ffff,
        decreases values@.len() - i,
    {
        proof {
            assert(values@.take(i + 1).drop_last() =~= values@.take(i as int));
        }
        acc = acc + values[i] as u64;
        i = i + 1;
    }
    proof {
        assert(values@.take(values@.len() as int) =~= values@);
    }
    acc
}

impl Args {
    /// The report on the expression, where `rolls[i]` holds the rolls of term `i`.
    pub fn report(&self, rolls: &Vec<Vec<u32>>) -> (r: String)
        requires
            rolls_sized(self@, rolls_view(rolls@)),
            self@.len() <= isize::MAX,
        ensures
            r@ == report(self@, rolls_view(rolls@)),
    {
        let ghost terms = self@;
        let ghost rv = rolls_view(rolls@);
        let mut narrative = String::new();
        let mut has_lines = false;
        let mut sum: i128 = 0;
        let mut total_bonus: i128 = 0;
        let mut i: usize = 0;
        while i < self.terms.len()
            invariant
                terms == self@,
                rv == rolls_view(rolls@),
                rolls_sized(terms, rv),
                terms.len() <= isize::MAX,
                i <= terms.len(),
                first_unfit(terms.take(i as int)) is None,
                narrative@ == join_lines(dice_lines(terms.take(i as int), rv)),
                has_lines == (dice_lines(terms.take(i as int), rv).len() > 0),
                sum == total(terms.take(i as int), rv),
                total_bonus == bonus_total(terms.take(i as int)),
                -(i * 0x1_0000_0000_0000_0000) <= sum <= i * 0x1_0000_0000_0000_0000,
                -(i * 0x1_0000_0000_0000_0000) <= total_bonus <= i * 0x1_0000_0000_0000_0000,
            decreases terms.len() - i,
        {
            let term = self.terms[i];
            let ghost prefix = terms.take(i + 1);
            proof {
                assert(prefix.drop_last() =~= terms.take(i as int));
                assert(prefix.last() == term);
                assert(roll_sized(terms[i as int], rv[i as int]));
            }
            match term.component {
                Component::Dice(dice) => {
                    if let Some(message) = dice.validate() {
                        let mut out = String::from_str("Error validating dice ");
                        match term.sign {
                            Sign::Positive => {},
                            Sign::Negative => push_char(&mut out, '-'),
                        }
                        out.append(dice.to_string().as_str());
                        out.append(": ");
                        out.append(message.as_str());
                        proof {
                            lemma_first_unfit_extends(terms, i + 1);
                            assert(first_unfit(prefix) == Some(i as int));
                            assert(out@ =~= error_text(term));
                        }
                        return out;
                    }
                    let (kept, dropped) = dice.split_rolls(&rolls[i]);
                    proof {
                        crate::dice::lemma_drop_keeps_extremes(dice, rv[i as int]);
                        lemma_join_lines_push(
                            dice_lines(terms.take(i as int), rv),
                            dice_line(dice, rv[i as int]),
                        );
                    }
                    let ghost before = narrative@;
                    if has_lines {
                        push_char(&mut narrative, '\n');
                    }
                    narrative.append(dice.to_string().as_str());
                    narrative.append(": [~~");
                    push_values(&mut narrative, &dropped);
                    narrative.append("~~, **");
                    push_values(&mut narrative, &kept);
                    narrative.append("**]");
                    proof {
                        if has_lines {
                            assert(narrative@ =~= before + seq!['\n'] + dice_line(
                                dice,
                                rv[i as int],
                            ));
                        } else {
                            assert(narrative@ =~= dice_line(dice, rv[i as int]));
                        }
                    }
                    has_lines = true;
                    let value = sum_values(&kept);
                    match term.sign {
                        Sign::Positive => sum = sum + value as i128,
                        Sign::Negative => sum = sum - value as i128,
                    }
                },
                Component::Bonus(bonus) => {
                    match term.sign {
                        Sign::Positive => {
                            sum = sum + bonus as i128;
                            total_bonus = total_bonus + bonus as i128;
                        },
                        Sign::Negative => {
                            sum = sum - bonus as i128;
                            total_bonus = total_bonus - bonus as i128;
                        },
                    }
                },
            }
            i = i + 1;
        }
        proof {
            assert(terms.take(terms.len() as int) =~= terms);
        }
        let ghost lines = dice_lines(terms, rv);
        let mut out = narrative;
        if has_lines {
            push_char(&mut out, '\n');
        }
        let ghost with_bonus = out@;
        if total_bonus > 0 {
            out.append("Total bonus: ");
            push_signed_decimal(&mut out, total_bonus);
            push_char(&mut out, '\n');
        }
        out.append("**Sum: ");
        push_signed_decimal(&mut out, sum);
        out.append("**");
        proof {
            let b = bonus_line(total_bonus as int);
            let sl = sum_line(sum as int);
            if total_bonus > 0 {
                lemma_join_lines_push(lines, b);
                lemma_join_lines_push(lines.push(b), sl);
                assert(lines + seq![b, sl] =~= lines.push(b).push(sl));
            } else {
                lemma_join_lines_push(lines, sl);
                assert(lines + seq![sl] =~= lines.push(sl));
            }
            assert(out@ =~= report(terms, rv));
        }
        out
    }

    /// Rolls the dice of every term that fits and reports on the expression: the report holds
    /// of some rolls that the dice could give.
    pub fn evaluate(&self) -> (r: String)
        requires
            self.wf(),
            self@.len() <= isize::MAX,
        ensures
            exists|rolls: Seq<Seq<u32>>| rolls_fit(self@, rolls) && r@ == report(self@, rolls),
    {
        let mut rng: ThreadRng = rand::thread_rng();
        let mut rolls: Vec<Vec<u32>> = Vec::new();
        let mut i: usize = 0;
        while i < self.terms.len()
            invariant
                self.wf(),
                i <= self@.len(),
                rolls@.len() == i,
                forall|j: int| 0 <= j < i ==> roll_fits(#[trigger] self@[j], rolls@[j]@),
            decreases self@.len() - i,
        {
            let term = self.terms[i];
            let mut these: Vec<u32> = Vec::new();
            if let Component::Dice(dice) = term.component {
                if dice.validate().is_none() {
                    proof {
                        assert(dice.wf());
                    }
                    these = dice.roll(&mut rng);
                }
            }
            rolls.push(these);
            i = i + 1;
        }
        let r = self.report(&rolls);
        proof {
            let rv = rolls_view(rolls@);
            assert(rolls_fit(self@, rv));
        }
        r
    }
}

} // verus!
