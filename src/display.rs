//! Rendering of the syntax tree back to dice notation.
use vstd::prelude::*;
use vstd::string::StringExecFns;
use crate::data::{Component, Dice, Drop, DropDirection, Sign, Term};

verus! {

pub open spec fn digit_char(d: nat) -> char {
    (d + 48) as char
}

/// The decimal numeral of `n`, without leading zeros.
pub open spec fn decimal(n: nat) -> Seq<char>
    decreases n,
{
    if n < 10 {
        seq![digit_char(n)]
    } else {
        decimal(n / 10) + seq![digit_char(n % 10)]
    }
}

/// The decimal numeral of `n`, with a `-` in front where it is negative.
pub open spec fn signed_decimal(n: int) -> Seq<char> {
    if n < 0 {
        seq!['-'] + decimal((-n) as nat)
    } else {
        decimal(n as nat)
    }
}

pub open spec fn direction_char(d: DropDirection) -> char {
    match d {
        DropDirection::Highest => '+',
        DropDirection::Lowest => '-',
    }
}

pub open spec fn sign_char(s: Sign) -> char {
    match s {
        Sign::Positive => '+',
        Sign::Negative => '-',
    }
}

pub open spec fn drop_text(d: Drop) -> Seq<char> {
    seq![direction_char(d.direction)] + decimal(d.value as nat)
}

/// `[count]d<max>[d<modifier><value>]`, the count left out where it is one.
pub open spec fn dice_text(d: Dice) -> Seq<char> {
    let count = if d.count == 1 {
        Seq::<char>::empty()
    } else {
        decimal(d.count as nat)
    };
    let drop = match d.drop {
        None => Seq::<char>::empty(),
        Some(dr) => seq!['d'] + drop_text(dr),
    };
    count + seq!['d'] + decimal(d.max as nat) + drop
}

pub open spec fn component_text(c: Component) -> Seq<char> {
    match c {
        Component::Dice(d) => dice_text(d),
        Component::Bonus(b) => decimal(b as nat),
    }
}

pub open spec fn term_text(t: Term) -> Seq<char> {
    seq![sign_char(t.sign)] + component_text(t.component)
}

/// Relies on `String::push`: appends one character to the end of the string.
#[verifier::external_body]
pub(crate) fn push_char(out: &mut String, c: char)
    ensures
        final(out)@ == old(out)@.push(c),
{
    out.push(c);
}

/// Appends the decimal numeral of `n`.
pub(crate) fn push_decimal(out: &mut String, n: u128)
    ensures
        final(out)@ == old(out)@ + decimal(n as nat),
    decreases n,
{
    if n >= 10 {
        push_decimal(out, n / 10);
    }
    let d: u8 = (n % 10) as u8;
    push_char(out, (d + 48) as char);
    proof {
        if n < 10 {
            assert(old(out)@ + decimal(n as nat) =~= old(out)@.push(digit_char(n as nat)));
        } else {
            assert(old(out)@ + decimal(n as nat) =~= old(out)@ + decimal((n / 10) as nat)
                + seq![digit_char((n % 10) as nat)]);
        }
    }
}

/// Appends the decimal numeral of `n`, with its sign where it is negative.
pub(crate) fn push_signed_decimal(out: &mut String, n: i128)
    ensures
        final(out)@ == old(out)@ + signed_decimal(n as int),
{
    if n < 0 {
        push_char(out, '-');
        let magnitude: u128 = if n == i128::MIN {
            0x8000_0000_0000_0000_0000_0000_0000_0000u128
        } else {
            (-n) as u128
        };
        push_decimal(out, magnitude);
        proof {
            assert(old(out)@ + signed_decimal(n as int) =~= old(out)@.push('-') + decimal(
                magnitude as nat,
            ));
        }
    } else {
        push_decimal(out, n as u128);
    }
}

impl DropDirection {
    /// `+` for the highest rolls, `-` for the lowest.
    pub fn to_string(&self) -> (r: String)
        ensures
            r@ == seq![direction_char(*self)],
    {
        let mut out = String::new();
        match self {
            DropDirection::Highest => push_char(&mut out, '+'),
            DropDirection::Lowest => push_char(&mut out, '-'),
        }
        out
    }
}

impl Drop {
    pub fn to_string(&self) -> (r: String)
        ensures
            r@ == drop_text(*self),
    {
        let mut out = self.direction.to_string();
        push_decimal(&mut out, self.value as u128);
        out
    }
}

impl Dice {
    pub fn to_string(&self) -> (r: String)
        ensures
            r@ == dice_text(*self),
    {
        let mut out = String::new();
        if self.count != 1 {
            push_decimal(&mut out, self.count as u128);
        }
        push_char(&mut out, 'd');
        push_decimal(&mut out, self.max as u128);
        if let Some(drop) = self.drop {
            push_char(&mut out, 'd');
            out.append(drop.to_string().as_str());
        }
        proof {
            let count = if self.count == 1 {
                Seq::<char>::empty()
            } else {
                decimal(self.count as nat)
            };
            let drop = match self.drop {
                None => Seq::<char>::empty(),
                Some(dr) => seq!['d'] + drop_text(dr),
            };
            assert(out@ =~= count + seq!['d'] + decimal(self.max as nat) + drop);
        }
        out
    }
}

impl Component {
    pub fn to_string(&self) -> (r: String)
        ensures
            r@ == component_text(*self),
    {
        match self {
            Component::Dice(dice) => dice.to_string(),
            Component::Bonus(bonus) => {
                let mut out = String::new();
                push_decimal(&mut out, *bonus as u128);
                proof {
                    assert(out@ =~= decimal(*bonus as nat));
                }
                out
            },
        }
    }
}

impl Sign {
    pub fn to_string(&self) -> (r: String)
        ensures
            r@ == seq![sign_char(*self)],
    {
        let mut out = String::new();
        match self {
            Sign::Positive => push_char(&mut out, '+'),
            Sign::Negative => push_char(&mut out, '-'),
        }
        out
    }
}

impl Term {
    /// The sign, then the component.
    pub fn to_string(&self) -> (r: String)
        ensures
            r@ == term_text(*self),
    {
        let mut out = self.sign.to_string();
        out.append(self.component.to_string().as_str());
        out
    }
}

} // verus!
