//! The parser of the dice-notation grammar: a single left-to-right scan with
//! one-character lookahead, producing a left-associative chain of operands.
//!
//! `spec_roll` is the grammar itself, written as spec functions over the
//! character sequence; `roll` is the executable scanner, proved to return
//! exactly what `spec_roll` says.
use vstd::prelude::*;

use crate::ast::{invalid_roll_definition, missing_operand, spec_u32_to_i32, u32_to_i32, Expr, ParseError};
use crate::numerals::{digit_val, digits_num, is_digit};
use vstd::arithmetic::div_mod::{lemma_add_mod_noop, lemma_mul_mod_noop_left};
use vstd::string::StrSliceExecFns;

verus! {

/// True of the characters the grammar treats as whitespace: the Unicode
/// White_Space set, as `char::is_whitespace` classifies it.
pub open spec fn is_space(c: char) -> bool {
    ||| c == '\u{0009}'
    ||| c == '\u{000A}'
    ||| c == '\u{000B}'
    ||| c == '\u{000C}'
    ||| c == '\u{000D}'
    ||| c == '\u{0020}'
    ||| c == '\u{0085}'
    ||| c == '\u{00A0}'
    ||| c == '\u{1680}'
    ||| c == '\u{2000}'
    ||| c == '\u{2001}'
    ||| c == '\u{2002}'
    ||| c == '\u{2003}'
    ||| c == '\u{2004}'
    ||| c == '\u{2005}'
    ||| c == '\u{2006}'
    ||| c == '\u{2007}'
    ||| c == '\u{2008}'
    ||| c == '\u{2009}'
    ||| c == '\u{200A}'
    ||| c == '\u{2028}'
    ||| c == '\u{2029}'
    ||| c == '\u{202F}'
    ||| c == '\u{205F}'
    ||| c == '\u{3000}'
}

/// The first index at or after `i` that holds no whitespace.
pub open spec fn skip_ws(s: Seq<char>, i: int) -> int
    recommends
        0 <= i <= s.len(),
    decreases s.len() - i,
{
    if i < s.len() && is_space(s[i]) {
        skip_ws(s, i + 1)
    } else {
        i
    }
}

/// The first index at or after `i` that holds no digit.
pub open spec fn digit_end(s: Seq<char>, i: int) -> int
    recommends
        0 <= i <= s.len(),
    decreases s.len() - i,
{
    if i < s.len() && is_digit(s[i]) {
        digit_end(s, i + 1)
    } else {
        i
    }
}

pub proof fn lemma_skip_ws_bounds(s: Seq<char>, i: int)
    requires
        0 <= i <= s.len(),
    ensures
        i <= skip_ws(s, i) <= s.len(),
    decreases s.len() - i,
{
    if i < s.len() && is_space(s[i]) {
        lemma_skip_ws_bounds(s, i + 1);
    }
}

pub proof fn lemma_digit_end_bounds(s: Seq<char>, i: int)
    requires
        0 <= i <= s.len(),
    ensures
        i <= digit_end(s, i) <= s.len(),
    decreases s.len() - i,
{
    if i < s.len() && is_digit(s[i]) {
        lemma_digit_end_bounds(s, i + 1);
    }
}

/// Read an optional run of digits starting at `i`: its value as a `u32`
/// (wrapping past 32 bits, as repeated multiply-and-add does) and the index
/// after the run, or `default` with the cursor unmoved when no digit stands
/// at `i`.
pub open spec fn spec_read_u32(s: Seq<char>, i: int, default: u32) -> (u32, int)
    recommends
        0 <= i <= s.len(),
{
    let j = digit_end(s, i);
    if j == i {
        (default, i)
    } else {
        ((digits_num(s.subrange(i, j)) % 0x1_0000_0000) as u32, j)
    }
}

/// Read one operand starting at `i`: a die roll (optional count, `d`,
/// optional sides) or a scalar (digits alone). `None` when the character at
/// `i` opens neither.
pub open spec fn spec_read_operand(s: Seq<char>, i: int) -> Option<(Expr, int)>
    recommends
        0 <= i <= s.len(),
{
    if i >= s.len() || (!is_digit(s[i]) && s[i] != 'd') {
        None
    } else {
        let (count, j) = spec_read_u32(s, i, 1);
        if j < s.len() && s[j] == 'd' {
            let (sides, k) = spec_read_u32(s, j + 1, 6);
            Some((Expr::DieRoll { count, sides }, k))
        } else {
            Some((Expr::Scalar { value: spec_u32_to_i32(count) }, j))
        }
    }
}

pub proof fn lemma_read_operand_bounds(s: Seq<char>, i: int)
    requires
        0 <= i <= s.len(),
    ensures
        spec_read_operand(s, i) matches Some((e, j)) ==> i < j <= s.len(),
    decreases s.len() - i,
{
    if i < s.len() && (is_digit(s[i]) || s[i] == 'd') {
        lemma_digit_end_bounds(s, i);
        let j = digit_end(s, i);
        if is_digit(s[i]) {
            lemma_digit_end_bounds(s, i + 1);
            assert(j == digit_end(s, i + 1));
        }
        if j < s.len() && s[j] == 'd' {
            lemma_digit_end_bounds(s, j + 1);
        }
    }
}

/// The accumulation loop of the grammar: from index `i`, with `acc` the tree
/// built so far, repeatedly skip whitespace, read one operator character and
/// one operand, and extend the chain to the left.
pub open spec fn spec_parse_loop(s: Seq<char>, i: int, acc: Expr) -> Result<
    Expr,
    ParseError,
>
    decreases s.len() - i,
        when 0 <= i <= s.len()
{
    if i >= s.len() {
        Ok(acc)
    } else {
        let j = skip_ws(s, i);
        if j >= s.len() {
            Ok(acc)
        } else {
            let op = s[j];
            let k = skip_ws(s, j + 1);
            match spec_read_operand(s, k) {
                None => Err(missing_operand()),
                Some((rhs, m)) => if op == '+' {
                    proof {
                        lemma_skip_ws_bounds(s, i);
                        lemma_skip_ws_bounds(s, j + 1);
                        lemma_read_operand_bounds(s, k);
                    }
                    spec_parse_loop(
                        s,
                        m,
                        Expr::Add { lhs: Box::new(acc), rhs: Box::new(rhs) },
                    )
                } else if op == '-' {
                    proof {
                        lemma_skip_ws_bounds(s, i);
                        lemma_skip_ws_bounds(s, j + 1);
                        lemma_read_operand_bounds(s, k);
                    }
                    spec_parse_loop(
                        s,
                        m,
                        Expr::Subtract { lhs: Box::new(acc), rhs: Box::new(rhs) },
                    )
                } else {
                    Err(invalid_roll_definition())
                },
            }
        }
    }
}

/// The whole grammar: skip leading whitespace, read the first operand, then
/// run the accumulation loop. No first operand is `InvalidRollDefinition`.
pub open spec fn spec_roll(s: Seq<char>) -> Result<Expr, ParseError> {
    let i = skip_ws(s, 0);
    match spec_read_operand(s, i) {
        None => Err(invalid_roll_definition()),
        Some((first, j)) => spec_parse_loop(s, j, first),
    }
}

/// Whitespace test, equal to the spec-level classification.
fn is_space_char(c: char) -> (r: bool)
    ensures
        r == is_space(c),
{
    c == '\u{0009}' || c == '\u{000A}' || c == '\u{000B}' || c == '\u{000C}' || c == '\u{000D}'
        || c == '\u{0020}' || c == '\u{0085}' || c == '\u{00A0}' || c == '\u{1680}' || c
        == '\u{2000}' || c == '\u{2001}' || c == '\u{2002}' || c == '\u{2003}' || c == '\u{2004}'
        || c == '\u{2005}' || c == '\u{2006}' || c == '\u{2007}' || c == '\u{2008}' || c
        == '\u{2009}' || c == '\u{200A}' || c == '\u{2028}' || c == '\u{2029}' || c == '\u{202F}'
        || c == '\u{205F}' || c == '\u{3000}'
}

/// Digit test, equal to the spec-level classification.
fn is_digit_char(c: char) -> (r: bool)
    ensures
        r == is_digit(c),
{
    let u = c as u32;
    48 <= u && u <= 57
}

/// Advance the cursor past whitespace.
fn chomp(s: &str, from: usize) -> (r: usize)
    requires
        from <= s@.len(),
    ensures
        r as int == skip_ws(s@, from as int),
        from <= r <= s@.len(),
{
    let n = s.unicode_len();
    let mut i = from;
    while i < n && is_space_char(s.get_char(i))
        invariant
            from <= i <= n,
            n == s@.len(),
            skip_ws(s@, from as int) == skip_ws(s@, i as int),
        decreases n - i,
    {
        i = i + 1;
    }
    i
}

/// Read an optional digit run as a `u32`, wrapping past 32 bits, or
/// `default` when no digit stands at the cursor.
fn read_u32(s: &str, from: usize, default: u32) -> (r: (u32, usize))
    requires
        from <= s@.len(),
    ensures
        (r.0, r.1 as int) == spec_read_u32(s@, from as int, default),
        from <= r.1 <= s@.len(),
{
    let n = s.unicode_len();
    let mut i = from;
    let mut val: u32 = 0;
    while i < n && is_digit_char(s.get_char(i))
        invariant
            from <= i <= n,
            n == s@.len(),
            digit_end(s@, from as int) == digit_end(s@, i as int),
            forall|t: int| from <= t < i ==> is_digit(s@[t]),
            val as nat == digits_num(s@.subrange(from as int, i as int)) % 0x1_0000_0000,
        decreases n - i,
    {
        let c = s.get_char(i);
        let d: u32 = (c as u32) - 48;
        let ghost prefix = s@.subrange(from as int, i as int);
        let ghost whole = s@.subrange(from as int, i as int + 1);
        val = ((((val as u64) * 10) + (d as u64)) % 0x1_0000_0000u64) as u32;
        proof {
            assert(whole.drop_last() =~= prefix);
            assert(whole.last() == s@[i as int]);
            let a = digits_num(prefix) as int;
            let m = 0x1_0000_0000int;
            lemma_mul_mod_noop_left(a, 10, m);
            lemma_add_mod_noop(a * 10, d as int, m);
            assert(digits_num(whole) == a * 10 + d);
            assert(val as int == (a * 10 + d) % m);
        }
        i = i + 1;
    }
    proof {
        assert(digit_end(s@, i as int) == i as int);
    }
    if i == from {
        (default, i)
    } else {
        (val, i)
    }
}

/// Read one operand: a die roll or a scalar, per `spec_read_operand`.
fn read_operand(s: &str, from: usize) -> (r: Option<(Expr, usize)>)
    requires
        from <= s@.len(),
    ensures
        (r matches Some((e, j)) ==> spec_read_operand(s@, from as int) == Some((e, j as int))
            && from < j <= s@.len()),
        r is None ==> spec_read_operand(s@, from as int) is None,
{
    let n = s.unicode_len();
    if from >= n {
        return None;
    }
    let c = s.get_char(from);
    if !is_digit_char(c) && c != 'd' {
        return None;
    }
    let (count, i) = read_u32(s, from, 1);
    if i < n && s.get_char(i) == 'd' {
        let (sides, j) = read_u32(s, i + 1, 6);
        Some((Expr::DieRoll { count, sides }, j))
    } else {
        proof {
            if i == from {
                lemma_digit_end_bounds(s@, from as int + 1);
                assert(digit_end(s@, from as int) == from as int);
                assert(!is_digit(s@[from as int]));
            }
        }
        Some((Expr::Scalar { value: u32_to_i32(count) }, i))
    }
}

/// Parse a textual roll definition into an expression tree.
///
/// Returns exactly what the grammar (`spec_roll`) prescribes; on success the
/// tree is a left-associative chain whose right children are leaves. Inputs
/// holding no first operand — empty, all whitespace, or opening with
/// anything but a digit or `d` — fail with `InvalidRollDefinition`; an
/// operator with nothing after it fails with `MissingOperand`.
pub fn roll(roll_def: &str) -> (r: Result<Expr, ParseError>)
    ensures
        r == spec_roll(roll_def@),
        r matches Ok(e) ==> e.wf_chain(),
        skip_ws(roll_def@, 0) == roll_def@.len() ==> r == Err::<Expr, ParseError>(
            invalid_roll_definition(),
        ),
        ({
            let i = skip_ws(roll_def@, 0);
            i < roll_def@.len() && !is_digit(roll_def@[i]) && roll_def@[i] != 'd'
        }) ==> r == Err::<Expr, ParseError>(invalid_roll_definition()),
{
    let ghost s = roll_def@;
    let n = roll_def.unicode_len();
    let start = chomp(roll_def, 0);
    let first = read_operand(roll_def, start);
    let (mut acc, mut i) = match first {
        None => {
            return Err(invalid_roll_definition());
        },
        Some(p) => p,
    };
    proof {
        assert(acc.wf_chain());
    }
    while i < n
        invariant
            i <= n,
            n == s.len(),
            s == roll_def@,
            acc.wf_chain(),
            spec_roll(s) == spec_parse_loop(s, i as int, acc),
        decreases n - i,
    {
        let j = chomp(roll_def, i);
        if j == n {
            return Ok(acc);
        }
        let op = roll_def.get_char(j);
        let k = chomp(roll_def, j + 1);
        match read_operand(roll_def, k) {
            None => {
                return Err(missing_operand());
            },
            Some((rhs, m)) => {
                if op == '+' {
                    acc = Expr::Add { lhs: Box::new(acc), rhs: Box::new(rhs) };
                } else if op == '-' {
                    acc = Expr::Subtract { lhs: Box::new(acc), rhs: Box::new(rhs) };
                } else {
                    return Err(invalid_roll_definition());
                }
                i = m;
            },
        }
    }
    Ok(acc)
}

} // verus!
