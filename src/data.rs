//! The syntax tree of a dice expression.
use vstd::prelude::*;

verus! {

/// Which end of a sorted set of rolls a drop clause discards.
#[derive(Clone, Copy, Debug, PartialEq, Eq, Structural)]
pub enum DropDirection {
    Highest,
    Lowest,
}

/// How many rolls to discard, and from which end.
#[derive(Clone, Copy, Debug, PartialEq, Eq, Structural)]
pub struct Drop {
    pub direction: DropDirection,
    pub value: u32,
}

/// `count` dice with `max` faces each, with an optional drop clause.
#[derive(Clone, Copy, Debug, PartialEq, Eq, Structural)]
pub struct Dice {
    pub count: u32,
    pub max: u32,
    pub drop: Option<Drop>,
}

/// A flat modifier.
pub type Bonus = u32;

/// One element of an expression, without its sign.
#[derive(Clone, Copy, Debug, PartialEq, Eq, Structural)]
pub enum Component {
    Dice(Dice),
    Bonus(Bonus),
}

#[derive(Clone, Copy, Debug, PartialEq, Eq, Structural)]
pub enum Sign {
    Positive,
    Negative,
}

/// One signed element of an expression.
#[derive(Clone, Copy, Debug, PartialEq, Eq, Structural)]
pub struct Term {
    pub component: Component,
    pub sign: Sign,
}

/// A whole expression: its terms in reading order.
#[derive(Clone, Debug)]
pub struct Args {
    pub terms: Vec<Term>,
}

impl Dice {
    /// Both numbers positive, as the grammar reads them.
    pub open spec fn wf(&self) -> bool {
        self.count >= 1 && self.max >= 1
    }

    /// The drop clause, if any, keeps at least one roll.
    pub open spec fn drop_fits(&self) -> bool {
        match self.drop {
            None => true,
            Some(d) => d.value < self.count,
        }
    }
}

impl View for Dice {
    type V = Dice;

    open spec fn view(&self) -> Dice {
        *self
    }
}

impl View for Component {
    type V = Component;

    open spec fn view(&self) -> Component {
        *self
    }
}

impl View for Args {
    type V = Seq<Term>;

    open spec fn view(&self) -> Seq<Term> {
        self.terms@
    }
}

/// At least one term, and every die with at least one face.
pub open spec fn terms_wf(terms: Seq<Term>) -> bool {
    &&& terms.len() >= 1
    &&& forall|i: int|
        0 <= i < terms.len() ==> match #[trigger] terms[i].component {
            Component::Dice(d) => d.wf(),
            Component::Bonus(_) => true,
        }
}

impl Args {
    pub open spec fn wf(&self) -> bool {
        terms_wf(self@)
    }
}

} // verus!
