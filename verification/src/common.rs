//! Value types shared by the lexer and the parser: directions, axes,
//! and the instruction tree that a parse produces.

use vstd::prelude::*;

verus! {

/// Sign polarity applied to the operand of a move or duplicate
/// instruction: `Pos` keeps a magnitude positive, `Neg` negates it.
#[derive(Debug, Copy, Clone, PartialEq, Eq, Structural)]
pub enum Direction {
    Pos,
    Neg,
}

impl Direction {
    /// The signed value this direction gives to a magnitude: the absolute
    /// value of `mov` under `Pos`, its negation under `Neg`.
    pub open spec fn spec_apply(self, mov: int) -> int {
        let mag = if mov >= 0 {
            mov
        } else {
            -mov
        };
        if self is Pos {
            mag
        } else {
            -mag
        }
    }

    /// Applies this direction's sign to `mov`.
    pub fn apply(&self, mov: i32) -> (r: i32)
        requires
            mov != i32::MIN,
        ensures
            r as int == self.spec_apply(mov as int),
    {
        let mag: i32 = if mov >= 0 {
            mov
        } else {
            -mov
        };
        match self {
            Direction::Pos => mag,
            Direction::Neg => -mag,
        }
    }
}

impl From<bool> for Direction {
    /// `true` names the positive direction, `false` the negative one.
    fn from(a: bool) -> (r: Direction) {
        if a {
            Direction::Pos
        } else {
            Direction::Neg
        }
    }
}

impl vstd::std_specs::convert::FromSpecImpl<bool> for Direction {
    open spec fn obeys_from_spec() -> bool {
        true
    }

    open spec fn from_spec(a: bool) -> Direction {
        if a {
            Direction::Pos
        } else {
            Direction::Neg
        }
    }
}

/// One of the ten addressable axes, numbered 0 through 9.
#[derive(Debug, Copy, Clone, PartialEq, Eq, Structural)]
pub enum Axis {
    Zero,
    One,
    Two,
    Three,
    Four,
    Five,
    Six,
    Seven,
    Eight,
    Nine,
}

/// The axis named by the decimal digit `d`; meaningful only for `d < 10`.
pub open spec fn axis_for(d: u8) -> Axis {
    if d == 0 {
        Axis::Zero
    } else if d == 1 {
        Axis::One
    } else if d == 2 {
        Axis::Two
    } else if d == 3 {
        Axis::Three
    } else if d == 4 {
        Axis::Four
    } else if d == 5 {
        Axis::Five
    } else if d == 6 {
        Axis::Six
    } else if d == 7 {
        Axis::Seven
    } else if d == 8 {
        Axis::Eight
    } else {
        Axis::Nine
    }
}

impl Axis {
    /// The digit this axis stands for.
    pub open spec fn as_u8(self) -> u8 {
        match self {
            Axis::Zero => 0,
            Axis::One => 1,
            Axis::Two => 2,
            Axis::Three => 3,
            Axis::Four => 4,
            Axis::Five => 5,
            Axis::Six => 6,
            Axis::Seven => 7,
            Axis::Eight => 8,
            Axis::Nine => 9,
        }
    }

    /// Converts a decimal digit to its axis. A value of 10 or more is a
    /// contract violation on the caller's part and yields `None` rather
    /// than aborting; the lexer only ever produces digits below 10.
    pub fn from_digit(d: u8) -> (r: Option<Axis>)
        ensures
            d < 10 ==> r == Some(axis_for(d)),
            d >= 10 ==> r is None,
    {
        match d {
            0 => Some(Axis::Zero),
            1 => Some(Axis::One),
            2 => Some(Axis::Two),
            3 => Some(Axis::Three),
            4 => Some(Axis::Four),
            5 => Some(Axis::Five),
            6 => Some(Axis::Six),
            7 => Some(Axis::Seven),
            8 => Some(Axis::Eight),
            9 => Some(Axis::Nine),
            _ => None,
        }
    }
}

/// One node of the parsed program tree: either a primitive operation or a
/// loop wrapping a nested instruction sequence. A loop exclusively owns its
/// body; the tree has no sharing and no cycles.
#[derive(Debug, PartialEq)]
pub enum Instruction {
    Move(Direction, Axis),
    Duplicate(Direction, Axis),
    Undo,
    Kill,
    PlacePortal,
    JumpPortal,
    Inc,
    Dec,
    NoOp,
    Read,
    Write,
    Loop(Vec<Instruction>),
}

/// The complete parsed result: an ordered sequence of top-level instructions.
pub type Program = Vec<Instruction>;

} // verus!
