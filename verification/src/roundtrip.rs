//! The canonicalization law: parsing the canonical rendering of a
//! parser-shaped tree gives that tree back, so rendering is an idempotent
//! canonical form.
use vstd::prelude::*;

use crate::ast::{spec_u32_to_i32, Expr, ParseError};
use crate::numerals::{dec_digits, digit_char, digit_val, digits_num, is_digit};
use crate::parser::{
    digit_end, is_space, lemma_read_operand_bounds, lemma_skip_ws_bounds, skip_ws,
    spec_parse_loop, spec_read_operand, spec_read_u32, spec_roll,
};

verus! {

/// A decimal numeral is at least one character, all of them digits.
proof fn lemma_dec_digits_shape(n: nat)
    ensures
        dec_digits(n).len() >= 1,
        forall|t: int| 0 <= t < dec_digits(n).len() ==> is_digit(#[trigger] dec_digits(n)[t]),
    decreases n,
{
    if n >= 10 {
        lemma_dec_digits_shape(n / 10);
    }
}

/// The digit character of a value below ten reads back as that value.
proof fn lemma_digit_val_char(d: nat)
    requires
        d < 10,
    ensures
        digit_val(digit_char(d)) == d,
{
    if d == 0 {
        assert(digit_val('0') == 0);
    } else if d == 1 {
        assert(digit_val('1') == 1);
    } else if d == 2 {
        assert(digit_val('2') == 2);
    } else if d == 3 {
        assert(digit_val('3') == 3);
    } else if d == 4 {
        assert(digit_val('4') == 4);
    } else if d == 5 {
        assert(digit_val('5') == 5);
    } else if d == 6 {
        assert(digit_val('6') == 6);
    } else if d == 7 {
        assert(digit_val('7') == 7);
    } else if d == 8 {
        assert(digit_val('8') == 8);
    } else {
        assert(digit_val('9') == 9);
    }
}

/// Reading back the numeral of `n` yields `n`.
proof fn lemma_digits_num_dec_digits(n: nat)
    ensures
        digits_num(dec_digits(n)) == n,
    decreases n,
{
    if n < 10 {
        lemma_digit_val_char(n);
        assert(dec_digits(n) == seq![digit_char(n)]);
        assert(dec_digits(n).drop_last() =~= Seq::<char>::empty());
        assert(digits_num(Seq::<char>::empty()) == 0);
        assert(digits_num(dec_digits(n)) == 0 * 10 + digit_val(digit_char(n)));
    } else {
        lemma_digits_num_dec_digits(n / 10);
        lemma_digit_val_char(n % 10);
        assert(dec_digits(n) == dec_digits(n / 10).push(digit_char(n % 10)));
        assert(dec_digits(n).drop_last() =~= dec_digits(n / 10));
        assert(dec_digits(n).last() == digit_char(n % 10));
        assert(digits_num(dec_digits(n)) == (n / 10) * 10 + (n % 10));
        assert((n / 10) * 10 + (n % 10) == n) by {
            vstd::arithmetic::div_mod::lemma_fundamental_div_mod(n as int, 10);
        }
    }
}

/// A digit character is not whitespace, not a letter `d`, and not a sign.
proof fn lemma_digit_not_special(c: char)
    requires
        is_digit(c),
    ensures
        !is_space(c),
        c != 'd',
        c != '+',
        c != '-',
{
}

/// Where `s[i..j)` holds digits and `j` holds none (or is the end), the
/// digit run starting at `i` ends exactly at `j`.
proof fn lemma_digit_end_of_run(s: Seq<char>, i: int, j: int)
    requires
        0 <= i <= j <= s.len(),
        forall|t: int| i <= t < j ==> is_digit(#[trigger] s[t]),
        j == s.len() || !is_digit(s[j]),
    ensures
        digit_end(s, i) == j,
    decreases j - i,
{
    if i < j {
        lemma_digit_end_of_run(s, i + 1, j);
    }
}

/// Whitespace skipping stops at once on a non-space character.
proof fn lemma_skip_ws_stop(s: Seq<char>, i: int)
    requires
        0 <= i <= s.len(),
        i == s.len() || !is_space(s[i]),
    ensures
        skip_ws(s, i) == i,
{
}

/// Where `s[i..j)` is the numeral of `n` (below `u32::MAX + 1`) and `j`
/// holds no digit, the digit-run read at `i` yields `n` with the cursor at
/// `j`.
proof fn lemma_read_u32_of_numeral(s: Seq<char>, i: int, j: int, n: u32, default: u32)
    requires
        0 <= i <= j <= s.len(),
        s.subrange(i, j) == dec_digits(n as nat),
        j == s.len() || !is_digit(s[j]),
    ensures
        spec_read_u32(s, i, default) == (n, j),
{
    lemma_dec_digits_shape(n as nat);
    assert forall|t: int| i <= t < j implies is_digit(#[trigger] s[t]) by {
        assert(s[t] == s.subrange(i, j)[t - i]);
    }
    lemma_digit_end_of_run(s, i, j);
    assert(j > i);
    lemma_digits_num_dec_digits(n as nat);
    assert(digits_num(s.subrange(i, j)) == n as nat);
    assert(n as nat % 0x1_0000_0000 == n as nat);
}

/// The canonical text of a leaf reads back as that leaf, wherever it stands:
/// if `s` holds the leaf's rendering at `i` and the character after it (if
/// any) is neither a digit nor `d`, the operand read at `i` is the leaf,
/// with the cursor just past it.
proof fn lemma_read_operand_of_leaf(s: Seq<char>, i: int, e: Expr)
    requires
        e.is_leaf(),
        e.scalars_nonneg(),
        0 <= i,
        i + e.render_spec().len() <= s.len(),
        s.subrange(i, i + e.render_spec().len() as int) == e.render_spec(),
        i + e.render_spec().len() == s.len() || (!is_digit(s[i + e.render_spec().len()]) && s[i
            + e.render_spec().len()] != 'd'),
    ensures
        spec_read_operand(s, i) == Some((e, i + e.render_spec().len() as int)),
{
    let r = e.render_spec();
    let j = i + r.len() as int;
    match e {
        Expr::Scalar { value } => {
            let n = value as nat;
            assert(r == dec_digits(n));
            lemma_dec_digits_shape(n);
            assert(s[i] == r[0]);
            lemma_read_u32_of_numeral(s, i, j, value as u32, 1);
            assert(spec_u32_to_i32(value as u32) == value);
        },
        Expr::DieRoll { count, sides } => {
            let cdigits: Seq<char> = if count == 1 {
                Seq::empty()
            } else {
                dec_digits(count as nat)
            };
            let sdigits = dec_digits(sides as nat);
            assert(r =~= cdigits + seq!['d'] + sdigits);
            lemma_dec_digits_shape(sides as nat);
            let dpos = i + cdigits.len() as int;
            assert(s[dpos] == r[cdigits.len() as int]);
            assert(s[dpos] == 'd');
            if count == 1 {
                assert(s[i] == 'd');
                assert(!is_digit('d'));
                assert(digit_end(s, i) == i);
                assert(spec_read_u32(s, i, 1) == (1u32, i));
            } else {
                lemma_dec_digits_shape(count as nat);
                assert(s[i] == r[0]);
                assert(is_digit(s[i]));
                assert(s.subrange(i, dpos) =~= dec_digits(count as nat)) by {
                    assert forall|t: int| 0 <= t < cdigits.len() implies s.subrange(i, dpos)[t]
                        == dec_digits(count as nat)[t] by {
                        assert(s.subrange(i, dpos)[t] == s[i + t]);
                        assert(s[i + t] == r[t]);
                    }
                }
                assert(!is_digit('d'));
                lemma_read_u32_of_numeral(s, i, dpos, count, 1);
            }
            assert(s.subrange(dpos + 1, j) =~= sdigits) by {
                assert forall|t: int| 0 <= t < sdigits.len() implies s.subrange(dpos + 1, j)[t]
                    == sdigits[t] by {
                    assert(s.subrange(dpos + 1, j)[t] == s[dpos + 1 + t]);
                    assert(s[dpos + 1 + t] == r[cdigits.len() + 1 + t]);
                }
            }
            lemma_read_u32_of_numeral(s, dpos + 1, j, sides, 6);
        },
        _ => {},
    }
}

/// The leftmost leaf of a chain.
spec fn chain_head(e: Expr) -> Expr
    decreases e,
{
    match e {
        Expr::Add { lhs, .. } => chain_head(*lhs),
        Expr::Subtract { lhs, .. } => chain_head(*lhs),
        _ => e,
    }
}

/// The operators and right-hand leaves of a chain, leftmost first.
spec fn chain_ops(e: Expr) -> Seq<(char, Expr)>
    decreases e,
{
    match e {
        Expr::Add { lhs, rhs } => chain_ops(*lhs).push(('+', *rhs)),
        Expr::Subtract { lhs, rhs } => chain_ops(*lhs).push(('-', *rhs)),
        _ => Seq::empty(),
    }
}

/// The node an operator character builds.
spec fn node_of(op: char, l: Expr, r: Expr) -> Expr {
    if op == '+' {
        Expr::Add { lhs: Box::new(l), rhs: Box::new(r) }
    } else {
        Expr::Subtract { lhs: Box::new(l), rhs: Box::new(r) }
    }
}

/// Fold a list of operator/leaf pairs onto an accumulated tree, leftmost
/// first — the very order the parser's loop applies them.
spec fn rebuild(acc: Expr, ops: Seq<(char, Expr)>) -> Expr
    decreases ops.len(),
{
    if ops.len() == 0 {
        acc
    } else {
        rebuild(node_of(ops[0].0, acc, ops[0].1), ops.drop_first())
    }
}

/// The rendering of a chain's tail: ` op leaf` for each pair.
spec fn ops_render(ops: Seq<(char, Expr)>) -> Seq<char>
    decreases ops.len(),
{
    if ops.len() == 0 {
        Seq::empty()
    } else {
        seq![' ', ops[0].0, ' '] + ops[0].1.render_spec() + ops_render(ops.drop_first())
    }
}

/// Every pair holds a `+` or `-` operator and a leaf without negative
/// scalars.
spec fn ops_wf(ops: Seq<(char, Expr)>) -> bool {
    forall|k: int|
        0 <= k < ops.len() ==> ((#[trigger] ops[k]).0 == '+' || ops[k].0 == '-')
            && ops[k].1.is_leaf() && ops[k].1.scalars_nonneg()
}

proof fn lemma_rebuild_push(acc: Expr, ops: Seq<(char, Expr)>, p: (char, Expr))
    ensures
        rebuild(acc, ops.push(p)) == node_of(p.0, rebuild(acc, ops), p.1),
    decreases ops.len(),
{
    if ops.len() == 0 {
        assert(ops.push(p).drop_first() =~= Seq::<(char, Expr)>::empty());
        assert(ops.push(p)[0] == p);
        assert(rebuild(node_of(p.0, acc, p.1), ops.push(p).drop_first()) == node_of(
            p.0,
            acc,
            p.1,
        ));
        assert(rebuild(acc, ops) == acc);
    } else {
        assert(ops.push(p).drop_first() =~= ops.drop_first().push(p));
        assert(ops.push(p)[0] == ops[0]);
        lemma_rebuild_push(node_of(ops[0].0, acc, ops[0].1), ops.drop_first(), p);
        assert(rebuild(acc, ops) == rebuild(node_of(ops[0].0, acc, ops[0].1), ops.drop_first()));
    }
}

proof fn lemma_ops_render_push(ops: Seq<(char, Expr)>, p: (char, Expr))
    ensures
        ops_render(ops.push(p)) == ops_render(ops) + seq![' ', p.0, ' '] + p.1.render_spec(),
    decreases ops.len(),
{
    if ops.len() == 0 {
        assert(ops.push(p).drop_first() =~= Seq::<(char, Expr)>::empty());
        assert(ops.push(p)[0] == p);
        assert(ops_render(ops) == Seq::<char>::empty());
        assert(ops_render(ops.push(p).drop_first()) == Seq::<char>::empty());
        assert(ops_render(ops.push(p)) =~= ops_render(ops) + seq![' ', p.0, ' ']
            + p.1.render_spec());
    } else {
        assert(ops.push(p).drop_first() =~= ops.drop_first().push(p));
        assert(ops.push(p)[0] == ops[0]);
        lemma_ops_render_push(ops.drop_first(), p);
        assert(ops_render(ops.push(p)) =~= ops_render(ops) + seq![' ', p.0, ' ']
            + p.1.render_spec());
    }
}

/// A parser-shaped tree splits into its leftmost leaf and its list of
/// operator/leaf pairs; the rendering splits the same way.
proof fn lemma_chain_decompose(e: Expr)
    requires
        e.wf_chain(),
        e.scalars_nonneg(),
    ensures
        chain_head(e).is_leaf(),
        chain_head(e).scalars_nonneg(),
        ops_wf(chain_ops(e)),
        rebuild(chain_head(e), chain_ops(e)) == e,
        e.render_spec() == chain_head(e).render_spec() + ops_render(chain_ops(e)),
    decreases e,
{
    match e {
        Expr::Add { lhs, rhs } => {
            lemma_chain_decompose(*lhs);
            lemma_rebuild_push(chain_head(e), chain_ops(*lhs), ('+', *rhs));
            lemma_ops_render_push(chain_ops(*lhs), ('+', *rhs));
            assert(ops_wf(chain_ops(e))) by {
                assert(forall|k: int|
                    0 <= k < chain_ops(*lhs).len() ==> chain_ops(e)[k] == chain_ops(*lhs)[k]);
                assert(chain_ops(e)[chain_ops(*lhs).len() as int] == ('+', *rhs));
            }
            assert(e.render_spec() =~= chain_head(e).render_spec() + ops_render(chain_ops(e)));
        },
        Expr::Subtract { lhs, rhs } => {
            lemma_chain_decompose(*lhs);
            lemma_rebuild_push(chain_head(e), chain_ops(*lhs), ('-', *rhs));
            lemma_ops_render_push(chain_ops(*lhs), ('-', *rhs));
            assert(ops_wf(chain_ops(e))) by {
                assert(forall|k: int|
                    0 <= k < chain_ops(*lhs).len() ==> chain_ops(e)[k] == chain_ops(*lhs)[k]);
                assert(chain_ops(e)[chain_ops(*lhs).len() as int] == ('-', *rhs));
            }
            assert(e.render_spec() =~= chain_head(e).render_spec() + ops_render(chain_ops(e)));
        },
        _ => {
            assert(e.render_spec() =~= chain_head(e).render_spec() + ops_render(chain_ops(e)));
        },
    }
}

/// Where the rest of the input from `i` is exactly the rendering of an
/// operator/leaf list, the parser's loop folds that list onto `acc`.
proof fn lemma_parse_loop_of_ops(
    s: Seq<char>,
    i: int,
    acc: Expr,
    ops: Seq<(char, Expr)>,
)
    requires
        0 <= i <= s.len(),
        s.subrange(i, s.len() as int) == ops_render(ops),
        ops_wf(ops),
    ensures
        spec_parse_loop(s, i, acc) == Ok::<Expr, ParseError>(rebuild(acc, ops)),
    decreases ops.len(),
{
    if ops.len() == 0 {
        assert(s.len() - i == ops_render(ops).len());
        assert(i == s.len());
    } else {
        let op = ops[0].0;
        let leaf = ops[0].1;
        let rest = ops.drop_first();
        let llen = leaf.render_spec().len() as int;
        let m = i + 3 + llen;
        assert(ops_render(ops) == seq![' ', op, ' '] + leaf.render_spec() + ops_render(rest));
        assert(s.len() - i == 3 + llen + ops_render(rest).len());
        assert forall|t: int| i <= t < s.len() implies s[t] == ops_render(ops)[t - i] by {
            assert(s.subrange(i, s.len() as int)[t - i] == s[t]);
        }
        assert(s[i] == ' ');
        assert(s[i + 1] == op);
        assert(s[i + 2] == ' ');
        assert(is_space(' '));
        assert(!is_space('+') && !is_space('-') && !is_space('d'));
        assert(skip_ws(s, i) == skip_ws(s, i + 1));
        assert(skip_ws(s, i + 1) == i + 1);
        // The leaf's first character is a digit or `d`, so no whitespace.
        assert(s[i + 3] == leaf.render_spec()[0]);
        match leaf {
            Expr::Scalar { value } => {
                lemma_dec_digits_shape(value as nat);
                lemma_digit_not_special(leaf.render_spec()[0]);
            },
            Expr::DieRoll { count, sides } => {
                if count == 1 {
                    assert(leaf.render_spec()[0] == 'd');
                } else {
                    lemma_dec_digits_shape(count as nat);
                    assert(leaf.render_spec()[0] == dec_digits(count as nat)[0]);
                    lemma_digit_not_special(leaf.render_spec()[0]);
                }
            },
            _ => {
                assert(false);
            },
        }
        assert(skip_ws(s, i + 2) == skip_ws(s, i + 3));
        assert(skip_ws(s, i + 3) == i + 3);
        assert(s.subrange(i + 3, m) =~= leaf.render_spec()) by {
            assert forall|t: int| 0 <= t < llen implies s.subrange(i + 3, m)[t]
                == leaf.render_spec()[t] by {
                assert(s.subrange(i + 3, m)[t] == s[i + 3 + t]);
                assert(ops_render(ops)[3 + t] == leaf.render_spec()[t]);
            }
        }
        if m == s.len() {
            assert(ops_render(rest).len() == 0);
        } else {
            assert(s[m] == ops_render(rest)[0]);
            assert(ops_render(rest).len() > 0);
            assert(rest.len() > 0);
            assert(ops_render(rest) == seq![' ', rest[0].0, ' '] + rest[0].1.render_spec()
                + ops_render(rest.drop_first()));
            assert(s[m] == ' ');
            assert(!is_digit(' ') && ' ' != 'd');
        }
        lemma_read_operand_of_leaf(s, i + 3, leaf);
        assert(spec_read_operand(s, i + 3) == Some((leaf, m)));
        assert(s.subrange(m, s.len() as int) =~= ops_render(rest)) by {
            assert forall|t: int| 0 <= t < s.len() - m implies s.subrange(m, s.len() as int)[t]
                == ops_render(rest)[t] by {
                assert(s.subrange(m, s.len() as int)[t] == s[m + t]);
                assert(ops_render(ops)[3 + llen + t] == ops_render(rest)[t]);
            }
        }
        lemma_parse_loop_of_ops(s, m, node_of(op, acc, leaf), rest);
        assert(rebuild(acc, ops) == rebuild(node_of(op, acc, leaf), rest));
        assert(spec_parse_loop(s, i, acc) == spec_parse_loop(s, m, node_of(op, acc, leaf)));
    }
}

/// Every tree the accumulation loop returns is a left chain, provided the
/// accumulator is one.
proof fn lemma_parse_loop_wf(s: Seq<char>, i: int, acc: Expr)
    requires
        0 <= i <= s.len(),
        acc.wf_chain(),
    ensures
        spec_parse_loop(s, i, acc) matches Ok(e) ==> e.wf_chain(),
    decreases s.len() - i,
{
    if i < s.len() {
        let j = skip_ws(s, i);
        lemma_skip_ws_bounds(s, i);
        if j < s.len() {
            let op = s[j];
            let k = skip_ws(s, j + 1);
            lemma_skip_ws_bounds(s, j + 1);
            match spec_read_operand(s, k) {
                None => {},
                Some((rhs, m)) => {
                    lemma_read_operand_bounds(s, k);
                    assert(rhs.is_leaf());
                    if op == '+' {
                        lemma_parse_loop_wf(
                            s,
                            m,
                            Expr::Add { lhs: Box::new(acc), rhs: Box::new(rhs) },
                        );
                    } else if op == '-' {
                        lemma_parse_loop_wf(
                            s,
                            m,
                            Expr::Subtract { lhs: Box::new(acc), rhs: Box::new(rhs) },
                        );
                    }
                },
            }
        }
    }
}

/// Every tree the parser returns is a left-associative chain.
pub proof fn lemma_parse_chain(s: Seq<char>)
    ensures
        spec_roll(s) matches Ok(e) ==> e.wf_chain(),
{
    let i = skip_ws(s, 0);
    lemma_skip_ws_bounds(s, 0);
    match spec_read_operand(s, i) {
        None => {},
        Some((first, j)) => {
            lemma_read_operand_bounds(s, i);
            assert(first.is_leaf());
            lemma_parse_loop_wf(s, j, first);
        },
    }
}

/// Rendering, then parsing, is the identity on parser-shaped trees without
/// negative scalars: the canonical text reads back as the very same tree.
pub proof fn lemma_render_parse_identity(e: Expr)
    requires
        e.wf_chain(),
        e.scalars_nonneg(),
    ensures
        spec_roll(e.render_spec()) == Ok::<Expr, ParseError>(e),
{
    lemma_chain_decompose(e);
    let s = e.render_spec();
    let head = chain_head(e);
    let ops = chain_ops(e);
    let hlen = head.render_spec().len() as int;
    assert(s == head.render_spec() + ops_render(ops));
    match head {
        Expr::Scalar { value } => {
            lemma_dec_digits_shape(value as nat);
            lemma_digit_not_special(head.render_spec()[0]);
        },
        Expr::DieRoll { count, sides } => {
            if count == 1 {
                assert(head.render_spec()[0] == 'd');
                assert(!is_space('d'));
            } else {
                lemma_dec_digits_shape(count as nat);
                assert(head.render_spec()[0] == dec_digits(count as nat)[0]);
                lemma_digit_not_special(head.render_spec()[0]);
            }
        },
        _ => {
            assert(false);
        },
    }
    assert(s[0] == head.render_spec()[0]);
    lemma_skip_ws_stop(s, 0);
    assert(s.subrange(0, hlen) =~= head.render_spec()) by {
        assert forall|t: int| 0 <= t < hlen implies s.subrange(0, hlen)[t]
            == head.render_spec()[t] by {
            assert(s.subrange(0, hlen)[t] == s[t]);
        }
    }
    if hlen == s.len() {
        assert(ops_render(ops).len() == 0);
    } else {
        assert(s[hlen] == ops_render(ops)[0]);
        assert(ops_render(ops).len() > 0);
        assert(ops.len() > 0);
        assert(ops_render(ops) == seq![' ', ops[0].0, ' '] + ops[0].1.render_spec()
            + ops_render(ops.drop_first()));
        assert(s[hlen] == ' ');
        assert(!is_digit(' ') && ' ' != 'd');
    }
    lemma_read_operand_of_leaf(s, 0, head);
    assert(s.subrange(hlen, s.len() as int) =~= ops_render(ops)) by {
        assert forall|t: int| 0 <= t < s.len() - hlen implies s.subrange(hlen, s.len() as int)[t]
            == ops_render(ops)[t] by {
            assert(s.subrange(hlen, s.len() as int)[t] == s[hlen + t]);
        }
    }
    lemma_parse_loop_of_ops(s, hlen, head, ops);
}

/// Canonicalization is idempotent: when parsing succeeds with a tree free of
/// negative scalars — every input whose digit runs stay within `u32` — the
/// rendered canonical form re-parses to that same tree, so rendering it
/// again gives the same text.
pub proof fn lemma_roundtrip(s: Seq<char>, e: Expr)
    requires
        spec_roll(s) == Ok::<Expr, ParseError>(e),
        e.scalars_nonneg(),
    ensures
        spec_roll(e.render_spec()) == Ok::<Expr, ParseError>(e),
{
    lemma_parse_chain(s);
    lemma_render_parse_identity(e);
}

} // verus!
