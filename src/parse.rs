//! The grammar of dice expressions, as spec functions over characters, and its parsers.
use vstd::prelude::*;
use crate::cursor::{Cursor, skip_white_space, white_space};
use crate::display::{decimal, digit_char};
use crate::data::{terms_wf, Args, Bonus, Component, Dice, Drop, DropDirection, Sign, Term};

verus! {

pub open spec fn is_digit(c: char) -> bool {
    '0' <= c <= '9'
}

pub open spec fn digit_value(c: char) -> nat {
    (c as int - '0' as int) as nat
}

/// The value of a string of decimal digits, most significant first.
pub open spec fn numeral_value(digits: Seq<char>) -> nat
    decreases digits.len(),
{
    if digits.len() == 0 {
        0
    } else {
        numeral_value(digits.drop_last()) * 10 + digit_value(digits.last())
    }
}

/// The position just past the run of digits that starts at `at`.
pub open spec fn digits_end(text: Seq<char>, at: int) -> int
    decreases text.len() - at,
{
    if 0 <= at < text.len() && is_digit(text[at]) {
        digits_end(text, at + 1)
    } else {
        at
    }
}

/// An unsigned integer at `at`: a maximal run of digits that does not start with `0` and
/// whose value fits in 32 bits. Every failure is reported at `at`.
pub open spec fn uint_at(text: Seq<char>, at: int) -> Result<(int, u32), int> {
    let end = digits_end(text, at);
    let value = numeral_value(text.subrange(at, end));
    if 0 <= at < text.len() && is_digit(text[at]) && text[at] != '0' && value <= u32::MAX {
        Ok((end, value as u32))
    } else {
        Err(at)
    }
}

/// A drop clause after its `d`: a modifier, `+` or `-`, then an unsigned integer.
pub open spec fn drop_at(text: Seq<char>, at: int) -> Result<(int, Drop), int> {
    if 0 <= at < text.len() && (text[at] == '+' || text[at] == '-') {
        match uint_at(text, at + 1) {
            Ok((end, value)) => Ok(
                (
                    end,
                    Drop {
                        direction: if text[at] == '+' {
                            DropDirection::Highest
                        } else {
                            DropDirection::Lowest
                        },
                        value,
                    },
                ),
            ),
            Err(e) => Err(e),
        }
    } else {
        Err(at)
    }
}

/// `[count] 'd' max ['d' modifier value]`, with a count of one where none is read.
pub open spec fn dice_at(text: Seq<char>, at: int) -> Result<(int, Dice), int> {
    let (d_at, count) = match uint_at(text, at) {
        Ok((end, n)) => (end, n),
        Err(_) => (at, 1u32),
    };
    if !(0 <= d_at < text.len() && text[d_at] == 'd') {
        Err(d_at)
    } else {
        match uint_at(text, d_at + 1) {
            Err(e) => Err(e),
            Ok((end, max)) => if end < text.len() && text[end] == 'd' {
                match drop_at(text, end + 1) {
                    Ok((after, drop)) => Ok((after, Dice { count, max, drop: Some(drop) })),
                    Err(e) => Err(e),
                }
            } else {
                Ok((end, Dice { count, max, drop: None }))
            },
        }
    }
}

/// Dice where they can be read, else a bonus, else a failure at `at`.
pub open spec fn component_at(text: Seq<char>, at: int) -> Result<(int, Component), int> {
    match dice_at(text, at) {
        Ok((end, d)) => Ok((end, Component::Dice(d))),
        Err(_) => match uint_at(text, at) {
            Ok((end, b)) => Ok((end, Component::Bonus(b))),
            Err(_) => Err(at),
        },
    }
}

pub open spec fn sign_of(c: char) -> Sign {
    if c == '+' {
        Sign::Positive
    } else {
        Sign::Negative
    }
}

/// The terms after the first: each a sign and a component, with white space around the
/// sign, up to the end of the text.
pub open spec fn more_terms_at(text: Seq<char>, at: int) -> Result<Seq<Term>, int>
    decreases text.len() - at,
{
    let s = skip_white_space(text, at);
    if !(0 <= s < text.len()) {
        Ok(seq![])
    } else if text[s] != '+' && text[s] != '-' {
        Err(s)
    } else {
        let start = skip_white_space(text, s + 1);
        match component_at(text, start) {
            Err(e) => Err(e),
            Ok((end, c)) => {
                proof {
                    lemma_skip_white_space_bounds(text, at);
                    lemma_skip_white_space_bounds(text, s + 1);
                    lemma_component_advances(text, start);
                }
                match more_terms_at(text, end) {
                    Ok(rest) => Ok(seq![Term { component: c, sign: sign_of(text[s]) }] + rest),
                    Err(e) => Err(e),
                }
            },
        }
    }
}

/// A whole expression from `at` to the end of the text; its first term is positive.
pub open spec fn args_at(text: Seq<char>, at: int) -> Result<(int, Seq<Term>), int> {
    match component_at(text, at) {
        Err(e) => Err(e),
        Ok((end, c)) => match more_terms_at(text, end) {
            Ok(rest) => Ok(
                (text.len() as int, seq![Term { component: c, sign: Sign::Positive }] + rest),
            ),
            Err(e) => Err(e),
        },
    }
}

pub proof fn lemma_skip_white_space_bounds(text: Seq<char>, at: int)
    ensures
        at <= skip_white_space(text, at),
        0 <= at <= text.len() ==> skip_white_space(text, at) <= text.len(),
        0 <= at ==> {
            let s = skip_white_space(text, at);
            s >= text.len() || !white_space(text[s])
        },
    decreases text.len() - at,
{
    if 0 <= at < text.len() && white_space(text[at]) {
        lemma_skip_white_space_bounds(text, at + 1);
    }
}

pub proof fn lemma_digits_end_bounds(text: Seq<char>, at: int)
    ensures
        at <= digits_end(text, at),
        0 <= at <= text.len() ==> digits_end(text, at) <= text.len(),
        forall|k: int| at <= k < digits_end(text, at) ==> is_digit(#[trigger] text[k]),
        0 <= at ==> {
            let e = digits_end(text, at);
            e >= text.len() || !is_digit(text[e])
        },
    decreases text.len() - at,
{
    if 0 <= at < text.len() && is_digit(text[at]) {
        lemma_digits_end_bounds(text, at + 1);
    }
}

pub proof fn lemma_uint_advances(text: Seq<char>, at: int)
    ensures
        uint_at(text, at) matches Ok((end, v)) ==> at < end <= text.len() && v > 0,
{
    lemma_digits_end_bounds(text, at);
    if uint_at(text, at) is Ok {
        lemma_digits_end_bounds(text, at + 1);
        assert(digits_end(text, at) == digits_end(text, at + 1));
        lemma_numeral_prefix_monotone(text.subrange(at, digits_end(text, at)), 1);
        let s = text.subrange(at, digits_end(text, at));
        assert(s.subrange(0, 1).drop_last() =~= Seq::<char>::empty());
        assert(s.subrange(0, 1).last() == text[at]);
    }
}

/// A longer prefix of a digit string has at least the value of a shorter one.
pub proof fn lemma_numeral_prefix_monotone(digits: Seq<char>, k: int)
    requires
        0 <= k <= digits.len(),
    ensures
        numeral_value(digits.subrange(0, k)) <= numeral_value(digits),
    decreases digits.len(),
{
    if k < digits.len() {
        lemma_numeral_prefix_monotone(digits.drop_last(), k);
        assert(digits.drop_last().subrange(0, k) =~= digits.subrange(0, k));
    } else {
        assert(digits.subrange(0, k) =~= digits);
    }
}

pub proof fn lemma_component_advances(text: Seq<char>, at: int)
    ensures
        component_at(text, at) matches Ok((end, _)) ==> at < end <= text.len(),
{
    lemma_uint_advances(text, at);
    match uint_at(text, at) {
        Ok((end, _)) => {
            lemma_uint_advances(text, end + 1);
        },
        Err(_) => {
            lemma_uint_advances(text, at + 1);
        },
    }
    match dice_at(text, at) {
        Ok((end, d)) => {
            let d_at = match uint_at(text, at) {
                Ok((e, _)) => e,
                Err(_) => at,
            };
            if let Ok((e, _)) = uint_at(text, d_at + 1) {
                lemma_uint_advances(text, d_at + 1);
                lemma_uint_advances(text, e + 2);
            }
        },
        Err(_) => {},
    }
}

pub proof fn lemma_all_digits_end(digits: Seq<char>, at: int)
    requires
        0 <= at <= digits.len(),
        forall|i: int| 0 <= i < digits.len() ==> is_digit(#[trigger] digits[i]),
    ensures
        digits_end(digits, at) == digits.len(),
    decreases digits.len() - at,
{
    if at < digits.len() {
        lemma_all_digits_end(digits, at + 1);
    }
}

/// A numeral without a leading zero that fits in 32 bits reads as one integer, and that
/// integer renders as the same numeral.
pub proof fn lemma_numeral_round_trip(digits: Seq<char>)
    requires
        digits.len() >= 1,
        forall|i: int| 0 <= i < digits.len() ==> is_digit(#[trigger] digits[i]),
        digits[0] != '0',
        numeral_value(digits) <= u32::MAX,
    ensures
        uint_at(digits, 0) == Ok::<(int, u32), int>(
            (digits.len() as int, numeral_value(digits) as u32),
        ),
        decimal(numeral_value(digits)) == digits,
    decreases digits.len(),
{
    lemma_all_digits_end(digits, 0);
    assert(digits.subrange(0, digits.len() as int) =~= digits);
    let d = digits.last();
    assert(digit_char(digit_value(d)) == d);
    if digits.len() == 1 {
        assert(digits.drop_last() =~= Seq::<char>::empty());
        assert(numeral_value(digits.drop_last()) == 0);
        assert(decimal(numeral_value(digits)) =~= digits);
    } else {
        let front = digits.drop_last();
        lemma_numeral_prefix_monotone(digits, 1);
        lemma_numeral_prefix_monotone(front, 1);
        let first = front.subrange(0, 1);
        assert(first.drop_last() =~= Seq::<char>::empty());
        assert(numeral_value(first.drop_last()) == 0);
        assert(numeral_value(first) == digit_value(first.last()));
        assert(numeral_value(front) >= 1);
        lemma_numeral_round_trip(front);
        let n = numeral_value(digits);
        assert(n / 10 == numeral_value(front));
        assert(n % 10 == digit_value(d));
        assert(decimal(n) =~= digits);
    }
}

/// A `0` where an integer is expected fails at once: zero itself never parses.
pub proof fn lemma_zero_rejected(text: Seq<char>, at: int)
    requires
        0 <= at < text.len(),
        text[at] == '0',
    ensures
        uint_at(text, at) == Err::<(int, u32), int>(at),
{
}

/// Past the first term and any white space, a character that is neither `+` nor `-` makes
/// the whole parse fail at that character's offset.
pub proof fn lemma_trailing_text_rejected(text: Seq<char>, at: int)
    requires
        component_at(text, at) is Ok,
        ({
            let end = component_at(text, at)->Ok_0.0;
            let k = skip_white_space(text, end);
            &&& 0 <= k < text.len()
            &&& text[k] != '+'
            &&& text[k] != '-'
        }),
    ensures
        args_at(text, at) == Err::<(int, Seq<Term>), int>(
            skip_white_space(text, component_at(text, at)->Ok_0.0),
        ),
{
}

pub proof fn lemma_component_wf(text: Seq<char>, at: int)
    ensures
        component_at(text, at) matches Ok((_, Component::Dice(d))) ==> d.wf(),
{
    lemma_uint_advances(text, at);
    let d_at = match uint_at(text, at) {
        Ok((e, _)) => e,
        Err(_) => at,
    };
    lemma_uint_advances(text, d_at + 1);
}

proof fn lemma_more_terms_wf(text: Seq<char>, at: int)
    ensures
        more_terms_at(text, at) matches Ok(rest) ==> forall|i: int|
            0 <= i < rest.len() ==> match #[trigger] rest[i].component {
                Component::Dice(d) => d.wf(),
                Component::Bonus(_) => true,
            },
    decreases text.len() - at,
{
    let s = skip_white_space(text, at);
    lemma_skip_white_space_bounds(text, at);
    if 0 <= s < text.len() && (text[s] == '+' || text[s] == '-') {
        let start = skip_white_space(text, s + 1);
        lemma_skip_white_space_bounds(text, s + 1);
        lemma_component_advances(text, start);
        lemma_component_wf(text, start);
        if let Ok((end, c)) = component_at(text, start) {
            lemma_more_terms_wf(text, end);
            if let Ok(rest) = more_terms_at(text, end) {
                let all = seq![Term { component: c, sign: sign_of(text[s]) }] + rest;
                assert forall|i: int| 0 <= i < all.len() implies match #[trigger] all[i].component {
                    Component::Dice(d) => d.wf(),
                    Component::Bonus(_) => true,
                } by {
                    if i > 0 {
                        assert(all[i] == rest[i - 1]);
                    }
                }
            }
        }
    }
}

/// A parsed expression has at least one term, and every die in it has a count and at least
/// one face: what evaluation asks of it.
pub proof fn lemma_parsed_args_wf(text: Seq<char>, at: int)
    ensures
        args_at(text, at) matches Ok((_, terms)) ==> terms_wf(terms),
{
    lemma_component_wf(text, at);
    if let Ok((end, c)) = component_at(text, at) {
        lemma_more_terms_wf(text, end);
        if let Ok(rest) = more_terms_at(text, end) {
            let all = seq![Term { component: c, sign: Sign::Positive }] + rest;
            assert forall|i: int| 0 <= i < all.len() implies match #[trigger] all[i].component {
                Component::Dice(d) => d.wf(),
                Component::Bonus(_) => true,
            } by {
                if i > 0 {
                    assert(all[i] == rest[i - 1]);
                }
            }
        }
    }
}

/// Reads a value of `Self` at a cursor: the cursor past it, or the offset of the failure.
pub trait Parse: Sized + View {
    /// What `parse` reads at `at` of `text`: the end and the value, or the failing offset.
    spec fn parse_spec(text: Seq<char>, at: int) -> Result<(int, Self::V), int>;

    fn parse<'a>(cursor: Cursor<'a>) -> (r: Result<(Cursor<'a>, Self), usize>)
        ensures
            match r {
                Ok((next, value)) => {
                    &&& next.value == cursor.value
                    &&& Self::parse_spec(cursor.text(), cursor.index as int) == Ok::<
                        (int, Self::V),
                        int,
                    >((next.index as int, value@))
                },
                Err(at) => Self::parse_spec(cursor.text(), cursor.index as int) == Err::<
                    (int, Self::V),
                    int,
                >(at as int),
            },
    ;
}

fn digit_of(c: char) -> (r: Option<u32>)
    ensures
        r == if is_digit(c) {
            Some(digit_value(c) as u32)
        } else {
            None::<u32>
        },
{
    if '0' <= c && c <= '9' {
        Some((c as u32) - ('0' as u32))
    } else {
        None
    }
}

impl Parse for u32 {
    open spec fn parse_spec(text: Seq<char>, at: int) -> Result<(int, u32), int> {
        uint_at(text, at)
    }

    fn parse<'a>(cursor: Cursor<'a>) -> (r: Result<(Cursor<'a>, u32), usize>) {
        let ghost text = cursor.text();
        let ghost start = cursor.index as int;
        let (mut next, ch) = cursor.next()?;
        let mut value: u32 = match digit_of(ch) {
            Some(d) if d > 0 => d,
            _ => {
                return Err(cursor.index);
            },
        };
        proof {
            lemma_digits_end_bounds(text, start);
            lemma_digits_end_bounds(text, start + 1);
            assert(digits_end(text, start) == digits_end(text, start + 1));
            let one = text.subrange(start, start + 1);
            assert(one.drop_last() =~= Seq::<char>::empty());
            assert(one.last() == text[start]);
            assert(numeral_value(one.drop_last()) == 0);
            assert(numeral_value(one) == digit_value(text[start]));
        }
        loop
            invariant
                text == cursor.text(),
                start == cursor.index,
                next.value == cursor.value,
                start < next.index <= digits_end(text, start) <= text.len(),
                digits_end(text, next.index as int) == digits_end(text, start),
                value as nat == numeral_value(text.subrange(start, next.index as int)),
                is_digit(text[start]),
                text[start] != '0',
            ensures
                next.index >= text.len() || !is_digit(text[next.index as int]),
            decreases text.len() - next.index,
        {
            let ghost here = next.index as int;
            match next.next() {
                Ok((after, ch)) => match digit_of(ch) {
                    Some(d) => {
                        proof {
                            assert(text == next.text());
                            assert(is_digit(text[here]));
                            lemma_digits_end_bounds(text, here + 1);
                            assert(digits_end(text, here) == digits_end(text, here + 1));
                            assert(text.subrange(start, here + 1).drop_last() =~= text.subrange(
                                start,
                                here,
                            ));
                        }
                        let wide: u64 = value as u64 * 10 + d as u64;
                        if wide > u32::MAX as u64 {
                            proof {
                                let all = text.subrange(start, digits_end(text, start));
                                lemma_numeral_prefix_monotone(all, here + 1 - start);
                                assert(all.subrange(0, here + 1 - start) =~= text.subrange(
                                    start,
                                    here + 1,
                                ));
                            }
                            return Err(cursor.index);
                        }
                        value = wide as u32;
                        next = after;
                    },
                    None => {
                        break ;
                    },
                },
                Err(_) => {
                    break ;
                },
            }
        }
        proof {
            assert(digits_end(text, next.index as int) == next.index);
        }
        Ok((next, value))
    }
}

impl Parse for Dice {
    open spec fn parse_spec(text: Seq<char>, at: int) -> Result<(int, Dice), int> {
        dice_at(text, at)
    }

    fn parse<'a>(cursor: Cursor<'a>) -> (r: Result<(Cursor<'a>, Dice), usize>) {
        let mut at = cursor;
        let mut count: u32 = 1;
        if let Ok((next, n)) = u32::parse(cursor) {
            at = next;
            count = n;
        }
        let at = at.expect('d')?;
        let (at, max) = u32::parse(at)?;
        let mut end = at;
        let mut drop: Option<Drop> = None;
        if let Ok((after_d, ch)) = at.next() {
            if ch == 'd' {
                let (after_sign, modifier) = after_d.next()?;
                let direction = if modifier == '+' {
                    DropDirection::Highest
                } else if modifier == '-' {
                    DropDirection::Lowest
                } else {
                    return Err(after_d.index);
                };
                let (after, value) = u32::parse(after_sign)?;
                end = after;
                drop = Some(Drop { direction, value });
            }
        }
        Ok((end, Dice { count, max, drop }))
    }
}

impl Parse for Component {
    open spec fn parse_spec(text: Seq<char>, at: int) -> Result<(int, Component), int> {
        component_at(text, at)
    }

    fn parse<'a>(cursor: Cursor<'a>) -> (r: Result<(Cursor<'a>, Component), usize>) {
        match Dice::parse(cursor) {
            Ok((next, dice)) => Ok((next, Component::Dice(dice))),
            Err(_) => match Bonus::parse(cursor) {
                Ok((next, bonus)) => Ok((next, Component::Bonus(bonus))),
                Err(_) => Err(cursor.index),
            },
        }
    }
}

impl Parse for Args {
    open spec fn parse_spec(text: Seq<char>, at: int) -> Result<(int, Seq<Term>), int> {
        args_at(text, at)
    }

    fn parse<'a>(cursor: Cursor<'a>) -> (r: Result<(Cursor<'a>, Args), usize>) {
        let ghost text = cursor.text();
        let ghost start = cursor.index as int;
        let (mut here, first) = Component::parse(cursor)?;
        let mut terms: Vec<Term> = vec![Term { sign: Sign::Positive, component: first }];
        proof {
            lemma_component_advances(text, start);
            assert(terms@ =~= seq![Term { component: first, sign: Sign::Positive }]);
        }
        loop
            invariant
                here.value == cursor.value,
                text == cursor.text(),
                start == cursor.index,
                here.index <= text.len(),
                match more_terms_at(text, here.index as int) {
                    Ok(rest) => args_at(text, start) == Ok::<(int, Seq<Term>), int>(
                        (text.len() as int, terms@ + rest),
                    ),
                    Err(e) => args_at(text, start) == Err::<(int, Seq<Term>), int>(e),
                },
            decreases text.len() - here.index,
        {
            let ghost before = here.index as int;
            proof {
                lemma_skip_white_space_bounds(text, before);
            }
            here.flush_whitespace();
            if let Ok((next, ch)) = here.next() {
                let sign = match ch {
                    '+' => Sign::Positive,
                    '-' => Sign::Negative,
                    _ => {
                        return Err(here.index);
                    },
                };
                here = next;
                proof {
                    lemma_skip_white_space_bounds(text, here.index as int);
                }
                here.flush_whitespace();
                let ghost term_start = here.index as int;
                let (next, component) = Component::parse(here)?;
                proof {
                    lemma_component_advances(text, term_start);
                }
                here = next;
                let ghost prefix = terms@;
                let term = Term { sign, component };
                terms.push(term);
                proof {
                    assert(sign == sign_of(ch));
                    if let Ok(rest) = more_terms_at(text, here.index as int) {
                        assert(prefix + (seq![term] + rest) =~= terms@ + rest);
                    }
                }
            } else {
                proof {
                    assert(terms@ + Seq::<Term>::empty() =~= terms@);
                }
                return Ok((here, Args { terms }));
            }
        }
    }
}

} // verus!
