//! The expression tree of the dice-notation language, with its two
//! capabilities: evaluation (rolling the dice) and canonical rendering.
use vstd::prelude::*;

use crate::numerals::{dec_digits, dec_int, push_i32, push_u32};
use vstd::string::StringExecFns;

verus! {

/// An arithmetic expression over scalars and die rolls.
///
/// `Add` and `Subtract` own their children exclusively; the parser only ever
/// builds left-associative chains whose right child is a leaf.
pub enum Expr {
    /// A fixed signed integer.
    Scalar { value: i32 },
    /// `count` independent uniform rolls of a die with `sides` sides, summed.
    DieRoll { count: u32, sides: u32 },
    /// The sum of two subexpressions.
    Add { lhs: Box<Expr>, rhs: Box<Expr> },
    /// The difference of two subexpressions.
    Subtract { lhs: Box<Expr>, rhs: Box<Expr> },
}

/// The two failure classes of the parser.
#[derive(Clone, Copy, Debug, PartialEq, Eq, Structural)]
pub enum ParseErrorKind {
    /// The input does not begin with an operand, or an operator is neither
    /// `+` nor `-`.
    InvalidRollDefinition,
    /// An operator was read but no operand follows it.
    MissingOperand,
}

/// A parse failure; carries no position information.
#[derive(Clone, Copy, Debug, PartialEq, Eq, Structural)]
pub struct ParseError {
    pub kind: ParseErrorKind,
}

impl ParseError {
    /// A human-readable description of the failure.
    pub fn message(&self) -> (r: &'static str)
        ensures
            self.kind is InvalidRollDefinition ==> r@ == "Invalid roll definition"@,
            self.kind is MissingOperand ==> r@ == "Missing operand"@,
    {
        match self.kind {
            ParseErrorKind::InvalidRollDefinition => "Invalid roll definition",
            ParseErrorKind::MissingOperand => "Missing operand",
        }
    }
}

/// The `InvalidRollDefinition` failure value.
#[verifier::allow_in_spec]
pub fn invalid_roll_definition() -> ParseError
    returns
        (ParseError { kind: ParseErrorKind::InvalidRollDefinition }),
{
    ParseError { kind: ParseErrorKind::InvalidRollDefinition }
}

/// The `MissingOperand` failure value.
#[verifier::allow_in_spec]
pub fn missing_operand() -> ParseError
    returns
        (ParseError { kind: ParseErrorKind::MissingOperand }),
{
    ParseError { kind: ParseErrorKind::MissingOperand }
}

/// The capability interface of an expression: compute its value by rolling
/// its dice anew. `Expr` implements it; `Expr::evaluate` carries the same
/// contract.
pub trait Expression {
    /// The value of one fresh evaluation.
    fn get_value(&self) -> i32;
}

impl Expr {
    /// True of trees that contain no die roll: their value is fixed.
    pub open spec fn dice_free(self) -> bool
        decreases self,
    {
        match self {
            Expr::Scalar { .. } => true,
            Expr::DieRoll { .. } => false,
            Expr::Add { lhs, rhs } => lhs.dice_free() && rhs.dice_free(),
            Expr::Subtract { lhs, rhs } => lhs.dice_free() && rhs.dice_free(),
        }
    }

    /// The least value an evaluation can yield, as an unbounded integer.
    /// A die with at least one side contributes at least 1 per roll; a die
    /// with zero sides is degenerate and contributes 0.
    pub open spec fn min_value(self) -> int
        decreases self,
    {
        match self {
            Expr::Scalar { value } => value as int,
            Expr::DieRoll { count, sides } => if sides == 0 {
                0
            } else {
                count as int
            },
            Expr::Add { lhs, rhs } => lhs.min_value() + rhs.min_value(),
            Expr::Subtract { lhs, rhs } => lhs.min_value() - rhs.max_value(),
        }
    }

    /// The greatest value an evaluation can yield, as an unbounded integer.
    pub open spec fn max_value(self) -> int
        decreases self,
    {
        match self {
            Expr::Scalar { value } => value as int,
            Expr::DieRoll { count, sides } => if sides == 0 {
                0
            } else {
                count as int * sides as int
            },
            Expr::Add { lhs, rhs } => lhs.max_value() + rhs.max_value(),
            Expr::Subtract { lhs, rhs } => lhs.max_value() - rhs.min_value(),
        }
    }

    /// True when every subtree's value range fits in `i32`, so that
    /// evaluation never truncates.
    pub open spec fn in_bounds(self) -> bool
        decreases self,
    {
        &&& i32::MIN <= self.min_value()
        &&& self.max_value() <= i32::MAX
        &&& match self {
            Expr::Add { lhs, rhs } => lhs.in_bounds() && rhs.in_bounds(),
            Expr::Subtract { lhs, rhs } => lhs.in_bounds() && rhs.in_bounds(),
            _ => true,
        }
    }

    /// True of the leaves of the grammar: a single operand.
    pub open spec fn is_leaf(self) -> bool {
        self is Scalar || self is DieRoll
    }

    /// The shape the parser produces: a left-associative chain, every
    /// compound node's right child a leaf.
    pub open spec fn wf_chain(self) -> bool
        decreases self,
    {
        match self {
            Expr::Add { lhs, rhs } => lhs.wf_chain() && rhs.is_leaf(),
            Expr::Subtract { lhs, rhs } => lhs.wf_chain() && rhs.is_leaf(),
            _ => true,
        }
    }

    /// True when every scalar in the tree is non-negative. The parser can
    /// produce a negative scalar only from a digit run past `u32::MAX`
    /// (its value wraps, then reads as signed); every other tree it builds
    /// satisfies this.
    pub open spec fn scalars_nonneg(self) -> bool
        decreases self,
    {
        match self {
            Expr::Scalar { value } => value >= 0,
            Expr::DieRoll { .. } => true,
            Expr::Add { lhs, rhs } => lhs.scalars_nonneg() && rhs.scalars_nonneg(),
            Expr::Subtract { lhs, rhs } => lhs.scalars_nonneg() && rhs.scalars_nonneg(),
        }
    }

    /// The value of a dice-free tree, with the two's-complement wrapping
    /// that evaluation applies on overflow. Die rolls (never taken on
    /// dice-free trees) count as 0.
    pub open spec fn fixed_value(self) -> i32
        decreases self,
    {
        match self {
            Expr::Scalar { value } => value,
            Expr::DieRoll { .. } => 0,
            Expr::Add { lhs, rhs } => vstd::wrapping::i32_specs::wrapping_add(
                lhs.fixed_value(),
                rhs.fixed_value(),
            ),
            Expr::Subtract { lhs, rhs } => vstd::wrapping::i32_specs::wrapping_sub(
                lhs.fixed_value(),
                rhs.fixed_value(),
            ),
        }
    }
}

impl Expr {
    /// The canonical text of the tree: defaults written out, single spaces
    /// around operators, a die with count 1 written without its count.
    pub open spec fn render_spec(self) -> Seq<char>
        decreases self,
    {
        match self {
            Expr::Scalar { value } => dec_int(value as int),
            Expr::DieRoll { count, sides } => if count == 1 {
                seq!['d'] + dec_digits(sides as nat)
            } else {
                dec_digits(count as nat) + seq!['d'] + dec_digits(sides as nat)
            },
            Expr::Add { lhs, rhs } => lhs.render_spec() + seq![' ', '+', ' ']
                + rhs.render_spec(),
            Expr::Subtract { lhs, rhs } => lhs.render_spec() + seq![' ', '-', ' ']
                + rhs.render_spec(),
        }
    }

    /// Render the tree to its canonical text. Rendering is deterministic
    /// and never rolls dice.
    pub fn render(&self) -> (out: String)
        ensures
            out@ == self.render_spec(),
    {
        let mut out = String::new();
        self.push_render(&mut out);
        proof {
            assert(out@ =~= self.render_spec());
        }
        out
    }

    /// Append the canonical text of the tree to `out`.
    fn push_render(&self, out: &mut String)
        ensures
            final(out)@ == old(out)@ + self.render_spec(),
        decreases *self,
    {
        match self {
            Expr::Scalar { value } => {
                push_i32(out, *value);
            },
            Expr::DieRoll { count, sides } => {
                proof {
                    reveal_strlit("d");
                }
                if *count != 1 {
                    push_u32(out, *count);
                }
                out.append("d");
                push_u32(out, *sides);
                proof {
                    assert(out@ =~= old(out)@ + self.render_spec());
                }
            },
            Expr::Add { lhs, rhs } => {
                proof {
                    reveal_strlit(" + ");
                }
                lhs.push_render(out);
                out.append(" + ");
                rhs.push_render(out);
                proof {
                    assert(out@ =~= old(out)@ + self.render_spec());
                }
            },
            Expr::Subtract { lhs, rhs } => {
                proof {
                    reveal_strlit(" - ");
                }
                lhs.push_render(out);
                out.append(" - ");
                rhs.push_render(out);
                proof {
                    assert(out@ =~= old(out)@ + self.render_spec());
                }
            },
        }
    }
}

impl Expression for Expr {
    fn get_value(&self) -> (r: i32)
        ensures
            self.in_bounds() ==> self.min_value() <= r as int <= self.max_value(),
            self.dice_free() ==> r == self.fixed_value(),
    {
        self.evaluate()
    }
}

/// Evaluation of a dice-free tree is deterministic: any two results — each
/// equal to the tree's fixed value, as `evaluate` ensures — are the same.
/// A tree holding a die roll carries no such promise; two evaluations of it
/// may differ, by design.
pub proof fn lemma_dice_free_deterministic(e: Expr, r1: i32, r2: i32)
    requires
        e.dice_free(),
        r1 == e.fixed_value(),
        r2 == e.fixed_value(),
    ensures
        r1 == r2,
{
}

/// Relies on rand::random: draws a value from the thread-local generator.
/// Nothing is promised of the result; callers must hold for every outcome.
#[verifier::external_body]
fn random_u32() -> u32 {
    rand::random::<u32>()
}

/// One die roll: a uniform sample from `[1, sides]`. A die with zero sides
/// is degenerate; it yields 0 rather than dividing by zero.
fn roll_die(sides: u32) -> (r: u32)
    ensures
        sides >= 1 ==> 1 <= r <= sides,
        sides == 0 ==> r == 0,
{
    if sides == 0 {
        0
    } else {
        (random_u32() % sides) + 1
    }
}

impl Expr {
    /// Evaluate the tree, rolling each die anew. Every call re-rolls, so two
    /// calls on a tree with dice may differ; on a dice-free tree the result
    /// is the tree's fixed value. When every subtree's range fits in `i32`
    /// the result lies between `min_value` and `max_value`; outside that the
    /// result wraps.
    pub fn evaluate(&self) -> (r: i32)
        ensures
            self.in_bounds() ==> self.min_value() <= r as int <= self.max_value(),
            self.dice_free() ==> r == self.fixed_value(),
        decreases *self,
    {
        match self {
            Expr::Scalar { value } => *value,
            Expr::DieRoll { count, sides } => roll_dice_sum(*count, *sides),
            Expr::Add { lhs, rhs } => {
                let a = lhs.evaluate();
                let b = rhs.evaluate();
                a.wrapping_add(b)
            },
            Expr::Subtract { lhs, rhs } => {
                let a = lhs.evaluate();
                let b = rhs.evaluate();
                a.wrapping_sub(b)
            },
        }
    }
}

/// Sum `count` fresh rolls of a die with `sides` sides, as the evaluation of
/// a die-roll node: within `[count, count * sides]` whenever that interval
/// fits in `i32`, and 0 for a zero-sided die.
fn roll_dice_sum(count: u32, sides: u32) -> (r: i32)
    ensures
        sides >= 1 && count as int * sides as int <= i32::MAX ==> count as int <= r as int
            <= count as int * sides as int,
        sides == 0 ==> r == 0,
{
    let mut sum: u64 = 0;
    let mut i: u32 = 0;
    while i < count
        invariant
            i <= count,
            sides >= 1 ==> i as int <= sum as int <= i as int * sides as int,
            sides == 0 ==> sum == 0,
        decreases count - i,
    {
        proof {
            assert(i as int * sides as int + sides as int == (i + 1) as int * sides as int)
                by (nonlinear_arith);
            assert((i + 1) as int * sides as int <= u32::MAX as int * u32::MAX as int)
                by (nonlinear_arith)
                requires
                    i + 1 <= u32::MAX,
                    sides <= u32::MAX,
            ;
        }
        sum = sum + roll_die(sides) as u64;
        i = i + 1;
    }
    proof {
        if sides >= 1 && count as int * sides as int <= i32::MAX {
            assert(sum <= i32::MAX as u64);
        }
    }
    if sum <= i32::MAX as u64 {
        sum as i32
    } else {
        u32_to_i32((sum % 0x1_0000_0000u64) as u32)
    }
}

/// Reinterpret an unsigned 32-bit value as signed, two's complement.
pub open spec fn spec_u32_to_i32(v: u32) -> i32 {
    if v < 0x8000_0000 {
        v as i32
    } else {
        (v as int - 0x1_0000_0000) as i32
    }
}

/// The executable counterpart of `spec_u32_to_i32`.
pub fn u32_to_i32(v: u32) -> (r: i32)
    ensures
        r == spec_u32_to_i32(v),
{
    if v < 0x8000_0000 {
        v as i32
    } else {
        ((v as i64) - 0x1_0000_0000i64) as i32
    }
}

} // verus!
