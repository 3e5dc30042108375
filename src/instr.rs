use vstd::prelude::*;
use vstd::math::abs;
use crate::rng::{SimRng, draw_below};

verus! {

/// Number of opcodes in the instruction alphabet.
pub const INSTRUCTION_COUNT: u8 = 16;

/// The primitive operations that a brain program is built from.
#[derive(Clone, Copy, Debug, PartialEq, Eq, Structural)]
pub enum Ins {
    Nop,
    Add,
    Sub,
    Mul,
    Div,
    Mod,
    Grt,
    Les,
    Eql,
    Neq,
    And,
    Or,
    Exp,
    Sin,
    Cos,
    Sqt,
}

/// Integer quotient rounded toward zero.
pub open spec fn quotient(a: int, b: int) -> int {
    let q = (abs(a) / abs(b)) as int;
    if (a < 0) == (b < 0) {
        q
    } else {
        -q
    }
}

/// Integer remainder that takes the sign of the dividend.
pub open spec fn remainder(a: int, b: int) -> int {
    let r = (abs(a) % abs(b)) as int;
    if a < 0 {
        -r
    } else {
        r
    }
}

pub open spec fn bool_value(c: bool) -> i64 {
    if c {
        1
    } else {
        0
    }
}

impl Ins {
    /// The opcodes whose meaning is defined over floating-point numbers.
    pub open spec fn is_float_spec(&self) -> bool {
        *self == Ins::Exp || *self == Ins::Sin || *self == Ins::Cos || *self == Ins::Sqt
    }

    #[verifier::when_used_as_spec(is_float_spec)]
    pub fn is_float(&self) -> (r: bool)
        ensures
            r == self.is_float_spec(),
    {
        match self {
            Ins::Exp | Ins::Sin | Ins::Cos | Ins::Sqt => true,
            _ => false,
        }
    }

    /// The opcode at position `k` of the alphabet, in declaration order.
    pub open spec fn index_spec(k: u8) -> Ins {
        if k == 0 {
            Ins::Nop
        } else if k == 1 {
            Ins::Add
        } else if k == 2 {
            Ins::Sub
        } else if k == 3 {
            Ins::Mul
        } else if k == 4 {
            Ins::Div
        } else if k == 5 {
            Ins::Mod
        } else if k == 6 {
            Ins::Grt
        } else if k == 7 {
            Ins::Les
        } else if k == 8 {
            Ins::Eql
        } else if k == 9 {
            Ins::Neq
        } else if k == 10 {
            Ins::And
        } else if k == 11 {
            Ins::Or
        } else if k == 12 {
            Ins::Exp
        } else if k == 13 {
            Ins::Sin
        } else if k == 14 {
            Ins::Cos
        } else {
            Ins::Sqt
        }
    }

    /// Opcode for a drawn index; every index below the alphabet size names a
    /// real opcode, so a uniform draw never yields an out-of-range value.
    pub fn from_index(k: u8) -> (r: Ins)
        requires
            k < INSTRUCTION_COUNT,
        ensures
            r == Ins::index_spec(k),
    {
        match k {
            0 => Ins::Nop,
            1 => Ins::Add,
            2 => Ins::Sub,
            3 => Ins::Mul,
            4 => Ins::Div,
            5 => Ins::Mod,
            6 => Ins::Grt,
            7 => Ins::Les,
            8 => Ins::Eql,
            9 => Ins::Neq,
            10 => Ins::And,
            11 => Ins::Or,
            12 => Ins::Exp,
            13 => Ins::Sin,
            14 => Ins::Cos,
            _ => Ins::Sqt,
        }
    }
}

/// What an integer opcode computes on `a` and `b`.
pub open spec fn apply(ins: Ins, a: i64, b: i64) -> i64
    recommends
        !ins.is_float_spec(),
{
    match ins {
        Ins::Nop => a,
        Ins::Add => vstd::wrapping::i64_specs::wrapping_add(a, b),
        Ins::Sub => vstd::wrapping::i64_specs::wrapping_sub(a, b),
        Ins::Mul => vstd::wrapping::i64_specs::wrapping_mul(a, b),
        Ins::Div => if b == 0 || (a == i64::MIN && b == -1) {
            0
        } else {
            quotient(a as int, b as int) as i64
        },
        Ins::Mod => if b == 0 {
            0
        } else {
            remainder(a as int, b as int) as i64
        },
        Ins::Grt => bool_value(a > b),
        Ins::Les => bool_value(a < b),
        Ins::Eql => bool_value(a == b),
        Ins::Neq => bool_value(a != b),
        Ins::And => bool_value(a != 0 && b != 0),
        Ins::Or => bool_value(a != 0 || b != 0),
        _ => 0,
    }
}

/// Division and remainder by zero are defined, and give zero.
pub proof fn protected_division(a: i64)
    ensures
        apply(Ins::Div, a, 0) == 0,
        apply(Ins::Mod, a, 0) == 0,
{
}

/// A uniformly drawn opcode; never anything outside the alphabet.
pub fn random_instruction(rng: &mut SimRng) -> (r: Ins)
    ensures
        exists|k: u8| k < INSTRUCTION_COUNT && r == Ins::index_spec(k),
{
    let k = draw_below(rng, INSTRUCTION_COUNT as u64) as u8;
    Ins::from_index(k)
}

proof fn lemma_quotient_bounds(a: i64, b: i64)
    ensures
        b != 0 && !(a == i64::MIN && b == -1) ==> i64::MIN <= quotient(a as int, b as int)
            <= i64::MAX,
        b == -1 ==> quotient(a as int, b as int) == -(a as int),
        b != 0 ==> abs(a as int) / abs(b as int) <= abs(a as int),
{
    if b != 0 {
        let x = abs(a as int) as int;
        let d = abs(b as int) as int;
        vstd::arithmetic::div_mod::lemma_div_basics(x);
        vstd::arithmetic::div_mod::lemma_div_is_ordered_by_denominator(x, 1, d);
        if d >= 2 {
            vstd::arithmetic::div_mod::lemma_div_is_ordered_by_denominator(x, 2, d);
            assert(x / 2 <= 0x4000_0000_0000_0000);
        }
    }
}

/// Evaluates an integer opcode. Addition, subtraction and multiplication
/// wrap; division and remainder by zero give 0; comparisons and logic give
/// 1 or 0. The floating-point opcodes are evaluated by the brain's host.
pub fn processor(ins: &Ins, a: i64, b: i64) -> (r: i64)
    requires
        !ins.is_float_spec(),
    ensures
        r == apply(*ins, a, b),
{
    match *ins {
        Ins::Nop => a,
        Ins::Add => a.wrapping_add(b),
        Ins::Sub => a.wrapping_sub(b),
        Ins::Mul => a.wrapping_mul(b),
        Ins::Div => {
            proof {
                lemma_quotient_bounds(a, b);
            }
            match a.checked_div(b) {
                Some(v) => v,
                None => 0,
            }
        },
        Ins::Mod => {
            if b == 0 {
                0
            } else if b == -1 {
                proof {
                    assert(abs(a as int) % 1 == 0);
                }
                0
            } else {
                match a.checked_rem(b) {
                    Some(v) => v,
                    None => 0,
                }
            }
        },
        Ins::Grt => if a > b {
            1
        } else {
            0
        },
        Ins::Les => if a < b {
            1
        } else {
            0
        },
        Ins::Eql => if a == b {
            1
        } else {
            0
        },
        Ins::Neq => if a != b {
            1
        } else {
            0
        },
        Ins::And => if a != 0 && b != 0 {
            1
        } else {
            0
        },
        Ins::Or => if a != 0 || b != 0 {
            1
        } else {
            0
        },
        _ => 0,
    }
}

} // verus!
