//! Reverse Polish notation: the shunting-yard conversion from infix tokens,
//! and the evaluation of the result on a stack.
use vstd::prelude::*;
use crate::lexer::{SpecToken, Token, views};
use crate::number::{
    larger, magnitude, product, quotient, raise, remainder, smaller, square_root, Num, NumError, SCALE,
};
use crate::value::{fit, SpecValue, Value};
use crate::text::{chars_of, message, spells};

verus! {

/// The output and the operator stack of the conversion (top last).
pub type RpnState = (Seq<SpecToken>, Seq<SpecToken>);

/// Binding strength of an operator.
pub open spec fn precedence(op: char) -> int {
    if op == '+' || op == '-' {
        1
    } else if op == '*' || op == '/' || op == '%' {
        2
    } else {
        0
    }
}

/// A comma moves operators to the output until a left parenthesis is on
/// top of the stack (it stays); `None` when there is none.
pub open spec fn unwind_to_paren(out: Seq<SpecToken>, ops: Seq<SpecToken>) -> Option<RpnState>
    decreases ops.len(),
{
    if ops.len() == 0 {
        None
    } else if ops.last() is LeftParen {
        Some((out, ops))
    } else {
        unwind_to_paren(out.push(ops.last()), ops.drop_last())
    }
}

/// Before an operator `op` is pushed, the operators of at least its
/// precedence and the functions on top of the stack move to the output.
pub open spec fn unwind_operators(out: Seq<SpecToken>, ops: Seq<SpecToken>, op: char) -> RpnState
    decreases ops.len(),
{
    if ops.len() == 0 {
        (out, ops)
    } else {
        match ops.last() {
            SpecToken::Operator(t) => if precedence(t) >= precedence(op) {
                unwind_operators(out.push(ops.last()), ops.drop_last(), op)
            } else {
                (out, ops)
            },
            SpecToken::Function(_) => unwind_operators(out.push(ops.last()), ops.drop_last(), op),
            _ => (out, ops),
        }
    }
}

/// A right parenthesis moves operators to the output until a left
/// parenthesis, which is dropped; `None` when there is none.
pub open spec fn close_paren(out: Seq<SpecToken>, ops: Seq<SpecToken>) -> Option<RpnState>
    decreases ops.len(),
{
    if ops.len() == 0 {
        None
    } else if ops.last() is LeftParen {
        Some((out, ops.drop_last()))
    } else {
        close_paren(out.push(ops.last()), ops.drop_last())
    }
}

/// After a right parenthesis, a function on top of the stack moves to the
/// output.
pub open spec fn after_close(out: Seq<SpecToken>, ops: Seq<SpecToken>) -> RpnState {
    if ops.len() > 0 && ops.last() is Function {
        (out.push(ops.last()), ops.drop_last())
    } else {
        (out, ops)
    }
}

/// One token of the conversion.
pub open spec fn rpn_step(st: RpnState, t: SpecToken) -> Result<RpnState, Seq<char>> {
    let out = st.0;
    let ops = st.1;
    match t {
        SpecToken::Number(_) => Ok((out.push(t), ops)),
        SpecToken::Function(_) => Ok((out, ops.push(t))),
        SpecToken::Comma => match unwind_to_paren(out, ops) {
            None => Err("Comma misplaced or mismatched parentheses"@),
            Some(st2) => Ok(st2),
        },
        SpecToken::Operator(op) => {
            let st2 = unwind_operators(out, ops, op);
            Ok((st2.0, st2.1.push(t)))
        },
        SpecToken::LeftParen => Ok((out, ops.push(t))),
        SpecToken::RightParen => match close_paren(out, ops) {
            None => Err("Mismatched parentheses"@),
            Some(st2) => Ok(after_close(st2.0, st2.1)),
        },
    }
}

/// The state after the first `n` tokens.
pub open spec fn rpn_prefix(tokens: Seq<SpecToken>, n: int) -> Result<RpnState, Seq<char>>
    decreases n,
{
    if n <= 0 {
        Ok((Seq::empty(), Seq::empty()))
    } else {
        match rpn_prefix(tokens, n - 1) {
            Err(e) => Err(e),
            Ok(st) => rpn_step(st, tokens[n - 1]),
        }
    }
}

/// At the end, the stack moves to the output from its top; a left
/// parenthesis left on it is an error.
pub open spec fn flush(out: Seq<SpecToken>, ops: Seq<SpecToken>) -> Result<Seq<SpecToken>, Seq<char>>
    decreases ops.len(),
{
    if ops.len() == 0 {
        Ok(out)
    } else if ops.last() is LeftParen {
        Err("Mismatched parentheses"@)
    } else {
        flush(out.push(ops.last()), ops.drop_last())
    }
}

/// The tokens in reverse Polish notation, or the error met.
pub open spec fn rpn_of(tokens: Seq<SpecToken>) -> Result<Seq<SpecToken>, Seq<char>> {
    match rpn_prefix(tokens, tokens.len() as int) {
        Err(e) => Err(e),
        Ok(st) => flush(st.0, st.1),
    }
}

/// A copy of a token.
pub fn copy_token(t: &Token) -> (r: Token)
    ensures
        r@ == t@,
{
    match t {
        Token::Number(n) => Token::Number(n.copy()),
        Token::Operator(c) => Token::Operator(*c),
        Token::Function(s) => Token::Function(s.clone()),
        Token::LeftParen => Token::LeftParen,
        Token::RightParen => Token::RightParen,
        Token::Comma => Token::Comma,
    }
}

proof fn lemma_views_push(v: Seq<Token>, t: Token)
    ensures
        views(v.push(t)) == views(v).push(t@),
{
    assert(views(v.push(t)) =~= views(v).push(t@));
}

proof fn lemma_views_pop(v: Seq<Token>)
    requires
        v.len() > 0,
    ensures
        views(v.drop_last()) == views(v).drop_last(),
        views(v).last() == v.last()@,
{
    assert(views(v.drop_last()) =~= views(v).drop_last());
}

fn top_is_left_paren(ops: &Vec<Token>) -> (r: bool)
    requires
        ops.len() > 0,
    ensures
        r == (views(ops@).last() is LeftParen),
{
    match &ops[ops.len() - 1] {
        Token::LeftParen => true,
        _ => false,
    }
}

/// Moves the top of `ops` to the end of `out`.
fn move_top(out: &mut Vec<Token>, ops: &mut Vec<Token>)
    requires
        old(ops).len() > 0,
    ensures
        views(final(out)@) == views(old(out)@).push(views(old(ops)@).last()),
        views(final(ops)@) == views(old(ops)@).drop_last(),
        final(ops)@.len() == old(ops)@.len() - 1,
{
    let t = ops.pop().unwrap();
    proof {
        lemma_views_pop(old(ops)@);
        lemma_views_push(old(out)@, t);
    }
    out.push(t);
}

/// Converts infix tokens to reverse Polish notation (shunting-yard).
pub fn to_rpn(tokens: Vec<Token>) -> (r: Result<Vec<Token>, String>)
    ensures
        match r {
            Ok(o) => rpn_of(views(tokens@)) == Ok::<Seq<SpecToken>, Seq<char>>(views(o@)),
            Err(e) => rpn_of(views(tokens@)) == Err::<Seq<SpecToken>, Seq<char>>(e@),
        },
{
    let ghost ts = views(tokens@);
    let mut output: Vec<Token> = Vec::new();
    let mut operators: Vec<Token> = Vec::new();
    let mut k: usize = 0;
    assert(views(output@) =~= Seq::<SpecToken>::empty());
    assert(views(operators@) =~= Seq::<SpecToken>::empty());
    while k < tokens.len()
        invariant
            k <= tokens.len(),
            ts == views(tokens@),
            rpn_prefix(ts, k as int) == Ok::<RpnState, Seq<char>>(
                (views(output@), views(operators@)),
            ),
        decreases tokens.len() - k,
    {
        let token = copy_token(&tokens[k]);
        assert(ts[k as int] == token@);
        match token {
            Token::Number(_) => {
                proof {
                    lemma_views_push(output@, token);
                }
                output.push(token);
            },
            Token::Function(_) => {
                proof {
                    lemma_views_push(operators@, token);
                }
                operators.push(token);
            },
            Token::Comma => {
                let mut found = false;
                while operators.len() > 0
                    invariant_except_break
                        unwind_to_paren(views(output@), views(operators@)) == unwind_to_paren(
                            output_after(ts, k as int),
                            stack_after(ts, k as int),
                        ),
                        !found,
                    ensures
                        found ==> unwind_to_paren(
                            output_after(ts, k as int),
                            stack_after(ts, k as int),
                        ) == Some::<RpnState>((views(output@), views(operators@))),
                        !found ==> unwind_to_paren(
                            output_after(ts, k as int),
                            stack_after(ts, k as int),
                        ) is None,
                    decreases operators.len(),
                {
                    if top_is_left_paren(&operators) {
                        found = true;
                        break;
                    }
                    move_top(&mut output, &mut operators);
                }
                if !found {
                    let e = message("Comma misplaced or mismatched parentheses", &Vec::new());
                    proof {
                        assert(e@ =~= "Comma misplaced or mismatched parentheses"@);
                        lemma_prefix_err(ts, k + 1, ts.len() as int);
                    }
                    return Err(e);
                }
            },
            Token::Operator(op) => {
                let ghost out0 = views(output@);
                let ghost ops0 = views(operators@);
                loop
                    invariant_except_break
                        unwind_operators(views(output@), views(operators@), op)
                            == unwind_operators(out0, ops0, op),
                    ensures
                        (views(output@), views(operators@)) == unwind_operators(out0, ops0, op),
                    decreases operators.len(),
                {
                    if operators.len() == 0 {
                        break;
                    }
                    let moves = match &operators[operators.len() - 1] {
                        Token::Operator(top_op) => precedence_of(*top_op) >= precedence_of(op),
                        Token::Function(_) => true,
                        _ => false,
                    };
                    if !moves {
                        break;
                    }
                    move_top(&mut output, &mut operators);
                }
                proof {
                    lemma_views_push(operators@, Token::Operator(op));
                }
                operators.push(Token::Operator(op));
            },
            Token::LeftParen => {
                proof {
                    lemma_views_push(operators@, Token::LeftParen);
                }
                operators.push(Token::LeftParen);
            },
            Token::RightParen => {
                let mut found = false;
                loop
                    invariant_except_break
                        close_paren(views(output@), views(operators@)) == close_paren(
                            output_after(ts, k as int),
                            stack_after(ts, k as int),
                        ),
                        !found,
                    ensures
                        found ==> close_paren(
                            output_after(ts, k as int),
                            stack_after(ts, k as int),
                        ) == Some::<RpnState>((views(output@), views(operators@))),
                        !found ==> close_paren(
                            output_after(ts, k as int),
                            stack_after(ts, k as int),
                        ) is None,
                    decreases operators.len(),
                {
                    if operators.len() == 0 {
                        break;
                    }
                    let ghost before_pop = operators@;
                    let top = operators.pop().unwrap();
                    proof {
                        lemma_views_pop(before_pop);
                        assert(before_pop.drop_last() == operators@);
                    }
                    match top {
                        Token::LeftParen => {
                            found = true;
                            break;
                        },
                        _ => {
                            proof {
                                lemma_views_push(output@, top);
                            }
                            output.push(top);
                        },
                    }
                }
                if !found {
                    let e = message("Mismatched parentheses", &Vec::new());
                    proof {
                        assert(e@ =~= "Mismatched parentheses"@);
                        lemma_prefix_err(ts, k + 1, ts.len() as int);
                    }
                    return Err(e);
                }
                if operators.len() > 0 {
                    let is_function = match &operators[operators.len() - 1] {
                        Token::Function(_) => true,
                        _ => false,
                    };
                    if is_function {
                        move_top(&mut output, &mut operators);
                    }
                }
            },
        }
        k = k + 1;
    }
    let ghost out_end = views(output@);
    let ghost ops_end = views(operators@);
    assert(rpn_of(views(tokens@)) == flush(out_end, ops_end));
    loop
        invariant_except_break
            flush(views(output@), views(operators@)) == flush(out_end, ops_end),
            rpn_of(views(tokens@)) == flush(out_end, ops_end),
        ensures
            flush(out_end, ops_end) == Ok::<Seq<SpecToken>, Seq<char>>(views(output@)),
        decreases operators.len(),
    {
        if operators.len() == 0 {
            break;
        }
        if top_is_left_paren(&operators) {
            let e = message("Mismatched parentheses", &Vec::new());
            assert(e@ =~= "Mismatched parentheses"@);
            return Err(e);
        }
        move_top(&mut output, &mut operators);
    }
    Ok(output)
}

/// The output of the conversion after the first `n` tokens.
pub open spec fn output_after(ts: Seq<SpecToken>, n: int) -> Seq<SpecToken> {
    match rpn_prefix(ts, n) {
        Ok(st) => st.0,
        Err(_) => Seq::empty(),
    }
}

/// The operator stack of the conversion after the first `n` tokens.
pub open spec fn stack_after(ts: Seq<SpecToken>, n: int) -> Seq<SpecToken> {
    match rpn_prefix(ts, n) {
        Ok(st) => st.1,
        Err(_) => Seq::empty(),
    }
}

proof fn lemma_prefix_err(ts: Seq<SpecToken>, m: int, n: int)
    requires
        0 <= m <= n,
        rpn_prefix(ts, m) is Err,
    ensures
        rpn_prefix(ts, n) == rpn_prefix(ts, m),
    decreases n - m,
{
    if m < n {
        lemma_prefix_err(ts, m, n - 1);
    }
}

/// `precedence` for executable code.
pub fn precedence_of(op: char) -> (r: i32)
    ensures
        r as int == precedence(op),
{
    if op == '+' || op == '-' {
        1
    } else if op == '*' || op == '/' || op == '%' {
        2
    } else {
        0
    }
}

/// The values of a stack.
pub open spec fn values(v: Seq<Value>) -> Seq<SpecValue> {
    v.map_values(|n: Value| n@)
}

/// One of the five operators.
pub open spec fn known_operator(op: char) -> bool {
    op == '+' || op == '-' || op == '*' || op == '/' || op == '%'
}

/// A value with its sign turned.
pub open spec fn negation(v: SpecValue) -> SpecValue {
    match v {
        SpecValue::Finite(x) => SpecValue::Finite(-x),
        SpecValue::Infinite(negative) => SpecValue::Infinite(!negative),
        SpecValue::NaN => SpecValue::NaN,
    }
}

/// The sum of two values: infinities of opposite signs give not a number.
pub open spec fn sum_value(a: SpecValue, b: SpecValue) -> SpecValue {
    match (a, b) {
        (SpecValue::Finite(x), SpecValue::Finite(y)) => fit(x + y),
        (SpecValue::Infinite(p), SpecValue::Infinite(q)) => if p == q {
            a
        } else {
            SpecValue::NaN
        },
        (SpecValue::Infinite(_), SpecValue::Finite(_)) => a,
        (SpecValue::Finite(_), SpecValue::Infinite(_)) => b,
        _ => SpecValue::NaN,
    }
}

/// The product of two values: an infinity times zero is not a number.
pub open spec fn product_value(a: SpecValue, b: SpecValue) -> SpecValue {
    match (a, b) {
        (SpecValue::Finite(x), SpecValue::Finite(y)) => fit(product(x, y)),
        (SpecValue::Infinite(p), SpecValue::Infinite(q)) => SpecValue::Infinite(p != q),
        (SpecValue::Infinite(p), SpecValue::Finite(y)) => if y == 0 {
            SpecValue::NaN
        } else {
            SpecValue::Infinite(p != (y < 0))
        },
        (SpecValue::Finite(x), SpecValue::Infinite(q)) => if x == 0 {
            SpecValue::NaN
        } else {
            SpecValue::Infinite(q != (x < 0))
        },
        _ => SpecValue::NaN,
    }
}

/// The quotient of two values, the divisor not zero: infinity over
/// infinity is not a number, a number over infinity is zero.
pub open spec fn quotient_value(a: SpecValue, b: SpecValue) -> SpecValue {
    match (a, b) {
        (SpecValue::Finite(x), SpecValue::Finite(y)) => fit(quotient(x, y)),
        (SpecValue::Infinite(p), SpecValue::Finite(y)) => SpecValue::Infinite(p != (y < 0)),
        (SpecValue::Finite(_), SpecValue::Infinite(_)) => SpecValue::Finite(0),
        _ => SpecValue::NaN,
    }
}

/// The remainder of two values: by zero, or of an infinity, it is not a
/// number; by an infinity it is the dividend.
pub open spec fn remainder_value(a: SpecValue, b: SpecValue) -> SpecValue {
    match (a, b) {
        (SpecValue::Finite(x), SpecValue::Finite(y)) => if y == 0 {
            SpecValue::NaN
        } else {
            SpecValue::Finite(remainder(x, y))
        },
        (SpecValue::Finite(_), SpecValue::Infinite(_)) => a,
        _ => SpecValue::NaN,
    }
}

/// A binary operator applied to two values: a zero divisor of `/` is an
/// error, everything else a value.
pub open spec fn apply_operator(op: char, left: SpecValue, right: SpecValue) -> Result<SpecValue, Seq<char>> {
    if !known_operator(op) {
        Err("Unknown operator"@)
    } else if op == '/' && right == SpecValue::Finite(0) {
        Err("Division by zero"@)
    } else if op == '+' {
        Ok(sum_value(left, right))
    } else if op == '-' {
        Ok(sum_value(left, negation(right)))
    } else if op == '*' {
        Ok(product_value(left, right))
    } else if op == '/' {
        Ok(quotient_value(left, right))
    } else {
        Ok(remainder_value(left, right))
    }
}

/// An exponent, in units, that is an odd whole number.
pub open spec fn odd_whole(y: int) -> bool {
    magnitude(y) % (SCALE as int) == 0 && (magnitude(y) / (SCALE as int)) % 2 == 1
}

/// `pow` on two values, as a double-precision float has it: any base to the
/// power zero, and one to any power, is one; not a number otherwise gives
/// not a number; an infinite exponent gives an infinity or zero as the base
/// is beyond one or within it; an infinite base gives an infinity or zero
/// as the exponent is positive or negative; a negative base to a fractional
/// power is not a number; other powers are those of `raise`, and one that
/// is too large, or a zero to a negative power, is infinite, negative for a
/// negative base to an odd power.
pub open spec fn pow_value(b: SpecValue, e: SpecValue) -> SpecValue {
    if e == SpecValue::Finite(0) || b == SpecValue::Finite(SCALE as int) {
        SpecValue::Finite(SCALE as int)
    } else {
        match (b, e) {
            (SpecValue::Finite(x), SpecValue::Infinite(n)) => if magnitude(x) == SCALE as int {
                SpecValue::Finite(SCALE as int)
            } else if (magnitude(x) > SCALE as int) != n {
                SpecValue::Infinite(false)
            } else {
                SpecValue::Finite(0)
            },
            (SpecValue::Infinite(_), SpecValue::Infinite(n)) => if n {
                SpecValue::Finite(0)
            } else {
                SpecValue::Infinite(false)
            },
            (SpecValue::Infinite(m), SpecValue::Finite(y)) => if y < 0 {
                SpecValue::Finite(0)
            } else {
                SpecValue::Infinite(m && odd_whole(y))
            },
            (SpecValue::Finite(x), SpecValue::Finite(y)) => if x < 0 && magnitude(y) % (SCALE as int) != 0 {
                SpecValue::NaN
            } else {
                match raise(x, y) {
                    Ok(p) => SpecValue::Finite(p),
                    Err(NumError::FractionalExponent) => SpecValue::NaN,
                    Err(_) => SpecValue::Infinite(x < 0 && odd_whole(y)),
                }
            },
            _ => SpecValue::NaN,
        }
    }
}

/// `a` comes before `b` in the order of values that are numbers, from the
/// negative infinity to the positive one.
pub open spec fn before(a: SpecValue, b: SpecValue) -> bool {
    match (a, b) {
        (SpecValue::Finite(x), SpecValue::Finite(y)) => x < y,
        (SpecValue::Infinite(true), SpecValue::Infinite(true)) => false,
        (SpecValue::Infinite(true), _) => true,
        (_, SpecValue::Infinite(false)) => !(a == SpecValue::Infinite(false)),
        _ => false,
    }
}

/// The larger of two values; "not a number" gives way to the other one.
pub open spec fn max_value(a: SpecValue, b: SpecValue) -> SpecValue {
    if a == SpecValue::NaN {
        b
    } else if b == SpecValue::NaN {
        a
    } else if before(a, b) {
        b
    } else {
        a
    }
}

/// The smaller of two values; "not a number" gives way to the other one.
pub open spec fn min_value(a: SpecValue, b: SpecValue) -> SpecValue {
    if a == SpecValue::NaN {
        b
    } else if b == SpecValue::NaN {
        a
    } else if before(b, a) {
        b
    } else {
        a
    }
}

/// The square root of a value; that of a negative number is not a number.
pub open spec fn sqrt_value(a: SpecValue) -> SpecValue {
    match a {
        SpecValue::Finite(x) => if x < 0 {
            SpecValue::NaN
        } else {
            SpecValue::Finite(square_root(x))
        },
        SpecValue::Infinite(negative) => if negative {
            SpecValue::NaN
        } else {
            a
        },
        SpecValue::NaN => SpecValue::NaN,
    }
}

/// The absolute value of a value.
pub open spec fn abs_value(a: SpecValue) -> SpecValue {
    match a {
        SpecValue::Finite(x) => SpecValue::Finite(magnitude(x)),
        SpecValue::Infinite(_) => SpecValue::Infinite(false),
        SpecValue::NaN => SpecValue::NaN,
    }
}

/// The stack with its top `k` values replaced by `v`.
pub open spec fn replace_top(stack: Seq<SpecValue>, k: int, v: SpecValue) -> Seq<SpecValue> {
    stack.take(stack.len() - k).push(v)
}

/// A function applied to the top of the stack.
pub open spec fn apply_function(name: Seq<char>, stack: Seq<SpecValue>) -> Result<Seq<SpecValue>, Seq<char>> {
    let n = stack.len();
    if name == "sqrt"@ {
        if n < 1 {
            Err("sqrt requires 1 argument"@)
        } else {
            Ok(replace_top(stack, 1, sqrt_value(stack.last())))
        }
    } else if name == "abs"@ {
        if n < 1 {
            Err("abs requires 1 argument"@)
        } else {
            Ok(replace_top(stack, 1, abs_value(stack.last())))
        }
    } else if name == "pow"@ {
        if n < 2 {
            Err("pow requires 2 arguments"@)
        } else {
            Ok(replace_top(stack, 2, pow_value(stack[n - 2], stack.last())))
        }
    } else if name == "max"@ {
        if n < 2 {
            Err("max requires at least 2 arguments"@)
        } else {
            Ok(replace_top(stack, 2, max_value(stack[n - 2], stack.last())))
        }
    } else if name == "min"@ {
        if n < 2 {
            Err("min requires at least 2 arguments"@)
        } else {
            Ok(replace_top(stack, 2, min_value(stack[n - 2], stack.last())))
        }
    } else {
        Err("Unknown function: "@ + name)
    }
}

/// One token of the evaluation.
pub open spec fn eval_step(stack: Seq<SpecValue>, t: SpecToken) -> Result<Seq<SpecValue>, Seq<char>> {
    match t {
        SpecToken::Number(v) => Ok(stack.push(v)),
        SpecToken::Operator(op) => if stack.len() < 2 {
            Err("Invalid expression"@)
        } else {
            match apply_operator(op, stack[stack.len() - 2], stack.last()) {
                Ok(v) => Ok(replace_top(stack, 2, v)),
                Err(e) => Err(e),
            }
        },
        SpecToken::Function(name) => apply_function(name, stack),
        _ => Err("Unexpected token during evaluation"@),
    }
}

/// The stack after the first `n` tokens.
pub open spec fn eval_prefix(tokens: Seq<SpecToken>, n: int) -> Result<Seq<SpecValue>, Seq<char>>
    decreases n,
{
    if n <= 0 {
        Ok(Seq::empty())
    } else {
        match eval_prefix(tokens, n - 1) {
            Err(e) => Err(e),
            Ok(st) => eval_step(st, tokens[n - 1]),
        }
    }
}

/// The value of an expression in reverse Polish notation: the one value
/// left on the stack.
pub open spec fn value_of(tokens: Seq<SpecToken>) -> Result<SpecValue, Seq<char>> {
    match eval_prefix(tokens, tokens.len() as int) {
        Err(e) => Err(e),
        Ok(st) => if st.len() != 1 {
            Err("Invalid expression"@)
        } else {
            Ok(st[0])
        },
    }
}

proof fn lemma_eval_err(ts: Seq<SpecToken>, m: int, n: int)
    requires
        0 <= m <= n,
        eval_prefix(ts, m) is Err,
    ensures
        eval_prefix(ts, n) == eval_prefix(ts, m),
    decreases n - m,
{
    if m < n {
        lemma_eval_err(ts, m, n - 1);
    }
}

fn fail(text: &str) -> (r: String)
    ensures
        r@ == text@,
{
    let e = message(text, &Vec::new());
    assert(e@ =~= text@);
    e
}

/// Replaces the top `k` values of the stack by `v`.
fn put_top(stack: &mut Vec<Value>, k: usize, v: Value)
    requires
        k <= old(stack).len(),
    ensures
        values(final(stack)@) == replace_top(values(old(stack)@), k as int, v@),
{
    let mut m: usize = 0;
    while m < k
        invariant
            m <= k,
            k <= old(stack).len(),
            stack@ == old(stack)@.take(old(stack)@.len() - m),
        decreases k - m,
    {
        stack.pop();
        assert(stack@ =~= old(stack)@.take(old(stack)@.len() - (m + 1)));
        m = m + 1;
    }
    let ghost before = stack@;
    stack.push(v);
    assert(values(stack@) =~= replace_top(values(old(stack)@), k as int, v@));
}

/// The value with its sign turned.
fn negate(v: &Value) -> (r: Value)
    ensures
        r@ == negation(v@),
{
    match v {
        Value::Finite(n) => Value::Finite(n.negated()),
        Value::Infinite(negative) => Value::Infinite(!*negative),
        Value::NaN => Value::NaN,
    }
}

fn sum(a: &Value, b: &Value) -> (r: Value)
    ensures
        r@ == sum_value(a@, b@),
{
    match (a, b) {
        (Value::Finite(x), Value::Finite(y)) => {
            let o = x.add(y);
            Value::finite_or(o, x.is_negative())
        },
        (Value::Infinite(p), Value::Infinite(q)) => if *p == *q {
            Value::Infinite(*p)
        } else {
            Value::NaN
        },
        (Value::Infinite(p), Value::Finite(_)) => Value::Infinite(*p),
        (Value::Finite(_), Value::Infinite(q)) => Value::Infinite(*q),
        _ => Value::NaN,
    }
}

fn multiply(a: &Value, b: &Value) -> (r: Value)
    ensures
        r@ == product_value(a@, b@),
{
    match (a, b) {
        (Value::Finite(x), Value::Finite(y)) => {
            let o = x.mul(y);
            Value::finite_or(o, x.is_negative() != y.is_negative())
        },
        (Value::Infinite(p), Value::Infinite(q)) => Value::Infinite(*p != *q),
        (Value::Infinite(p), Value::Finite(y)) => if y.is_zero() {
            Value::NaN
        } else {
            Value::Infinite(*p != y.is_negative())
        },
        (Value::Finite(x), Value::Infinite(q)) => if x.is_zero() {
            Value::NaN
        } else {
            Value::Infinite(*q != x.is_negative())
        },
        _ => Value::NaN,
    }
}

fn divide(a: &Value, b: &Value) -> (r: Value)
    requires
        b@ != SpecValue::Finite(0),
    ensures
        r@ == quotient_value(a@, b@),
{
    match (a, b) {
        (Value::Finite(x), Value::Finite(y)) => {
            let o = x.div(y);
            Value::finite_or(o, x.is_negative() != y.is_negative())
        },
        (Value::Infinite(p), Value::Finite(y)) => Value::Infinite(*p != y.is_negative()),
        (Value::Finite(_), Value::Infinite(_)) => Value::Finite(Num::zero()),
        _ => Value::NaN,
    }
}

fn modulo(a: &Value, b: &Value) -> (r: Value)
    ensures
        r@ == remainder_value(a@, b@),
{
    match (a, b) {
        (Value::Finite(x), Value::Finite(y)) => if y.is_zero() {
            Value::NaN
        } else {
            Value::Finite(x.rem(y))
        },
        (Value::Finite(x), Value::Infinite(_)) => Value::Finite(x.copy()),
        _ => Value::NaN,
    }
}

fn is_value(v: &Value, units: u128) -> (r: bool)
    ensures
        r == (v@ == SpecValue::Finite(units as int)),
{
    match v {
        Value::Finite(n) => {
            let u = Num::from_units(false, units);
            !n.less_than(&u) && !u.less_than(n)
        },
        _ => false,
    }
}

/// Applies a binary operator.
fn operate(op: char, left: &Value, right: &Value) -> (r: Result<Value, String>)
    ensures
        match r {
            Ok(v) => apply_operator(op, left@, right@) == Ok::<SpecValue, Seq<char>>(v@),
            Err(e) => apply_operator(op, left@, right@) == Err::<SpecValue, Seq<char>>(e@),
        },
{
    if !(op == '+' || op == '-' || op == '*' || op == '/' || op == '%') {
        return Err(fail("Unknown operator"));
    }
    if op == '/' && is_value(right, 0) {
        return Err(fail("Division by zero"));
    }
    if op == '+' {
        Ok(sum(left, right))
    } else if op == '-' {
        Ok(sum(left, &negate(right)))
    } else if op == '*' {
        Ok(multiply(left, right))
    } else if op == '/' {
        Ok(divide(left, right))
    } else {
        Ok(modulo(left, right))
    }
}

/// Whether an exponent is an odd whole number (see `odd_whole`).
fn is_odd_whole(y: &Num) -> (r: bool)
    ensures
        r == odd_whole(y@),
{
    let m = y.magnitude_limbs();
    let (whole, frac) = crate::natural::div_small(&m, 1_000_000_000);
    let (hv, bit) = crate::natural::div_small(&whole, 2);
    proof {
        crate::natural::lemma_value_nonneg(whole@, 0);
        vstd::arithmetic::div_mod::lemma_fundamental_div_mod_converse(
            crate::natural::value(m@),
            SCALE as int,
            crate::natural::value(whole@),
            frac as int,
        );
    }
    proof {
        crate::natural::lemma_value_nonneg(hv@, 0);
        vstd::arithmetic::div_mod::lemma_fundamental_div_mod_converse(
            crate::natural::value(whole@),
            2,
            crate::natural::value(hv@),
            bit as int,
        );
    }
    frac == 0 && bit == 1
}

/// Whether the magnitude of a number is above one whole, one whole, or
/// below it: 1, 0, -1.
fn against_one(x: &Num) -> (r: i8)
    ensures
        r == 1 ==> magnitude(x@) > SCALE as int,
        r == 0 ==> magnitude(x@) == SCALE as int,
        r == -1 ==> magnitude(x@) < SCALE as int,
        -1 <= r <= 1,
{
    let a = x.abs();
    let one = Num::one();
    if one.less_than(&a) {
        1
    } else if a.less_than(&one) {
        -1
    } else {
        0
    }
}

/// `pow` on two values (see `pow_value`).
fn power(base: &Value, exponent: &Value) -> (r: Value)
    ensures
        r@ == pow_value(base@, exponent@),
{
    if is_value(exponent, 0) || is_value(base, SCALE) {
        return Value::Finite(Num::one());
    }
    match (base, exponent) {
        (Value::Finite(x), Value::Infinite(n)) => {
            let c = against_one(x);
            if c == 0 {
                Value::Finite(Num::one())
            } else if (c == 1) != *n {
                Value::Infinite(false)
            } else {
                Value::Finite(Num::zero())
            }
        },
        (Value::Infinite(_), Value::Infinite(n)) => if *n {
            Value::Finite(Num::zero())
        } else {
            Value::Infinite(false)
        },
        (Value::Infinite(m), Value::Finite(y)) => if y.is_negative() {
            Value::Finite(Num::zero())
        } else {
            Value::Infinite(*m && is_odd_whole(y))
        },
        (Value::Finite(x), Value::Finite(y)) => {
            let m = y.magnitude_limbs();
            let (wv, frac) = crate::natural::div_small(&m, 1_000_000_000);
            proof {
                crate::natural::lemma_value_nonneg(m@, 0);
            }
            proof {
                crate::natural::lemma_value_nonneg(wv@, 0);
                vstd::arithmetic::div_mod::lemma_fundamental_div_mod_converse(
                    crate::natural::value(m@),
                    SCALE as int,
                    crate::natural::value(wv@),
                    frac as int,
                );
            }
            if x.is_negative() && frac != 0 {
                Value::NaN
            } else {
                match x.pow(y) {
                    Ok(p) => Value::Finite(p),
                    Err(NumError::FractionalExponent) => Value::NaN,
                    Err(_) => Value::Infinite(x.is_negative() && is_odd_whole(y)),
                }
            }
        },
        _ => Value::NaN,
    }
}

/// Applies the function `name` to the top of the stack.
fn call_function(name: &String, stack: &mut Vec<Value>) -> (r: Result<(), String>)
    ensures
        match r {
            Ok(_) => apply_function(name@, values(old(stack)@)) == Ok::<Seq<SpecValue>, Seq<char>>(
                values(final(stack)@),
            ),
            Err(e) => apply_function(name@, values(old(stack)@)) == Err::<Seq<SpecValue>, Seq<char>>(e@),
        },
{
    let nm = chars_of(name.as_str());
    let n = stack.len();
    let ghost vs = values(stack@);
    assert(vs.len() == n);
    if spells(&nm, "sqrt") {
        if n < 1 {
            return Err(fail("sqrt requires 1 argument"));
        }
        assert(vs.last() == stack@[n - 1]@);
        let r = match &stack[n - 1] {
            Value::Finite(a) => if a.is_negative() {
                Value::NaN
            } else {
                Value::Finite(a.sqrt())
            },
            Value::Infinite(negative) => if *negative {
                Value::NaN
            } else {
                Value::Infinite(false)
            },
            Value::NaN => Value::NaN,
        };
        put_top(stack, 1, r);
        Ok(())
    } else if spells(&nm, "abs") {
        if n < 1 {
            return Err(fail("abs requires 1 argument"));
        }
        assert(vs.last() == stack@[n - 1]@);
        let r = match &stack[n - 1] {
            Value::Finite(a) => Value::Finite(a.abs()),
            Value::Infinite(_) => Value::Infinite(false),
            Value::NaN => Value::NaN,
        };
        put_top(stack, 1, r);
        Ok(())
    } else if spells(&nm, "pow") {
        if n < 2 {
            return Err(fail("pow requires 2 arguments"));
        }
        assert(vs.last() == stack@[n - 1]@ && vs[n - 2] == stack@[n - 2]@);
        let p = power(&stack[n - 2], &stack[n - 1]);
        put_top(stack, 2, p);
        Ok(())
    } else if spells(&nm, "max") || spells(&nm, "min") {
        let is_max = spells(&nm, "max");
        if n < 2 {
            if is_max {
                return Err(fail("max requires at least 2 arguments"));
            } else {
                return Err(fail("min requires at least 2 arguments"));
            }
        }
        assert(vs.last() == stack@[n - 1]@ && vs[n - 2] == stack@[n - 2]@);
        let r = if is_max {
            larger_of(&stack[n - 2], &stack[n - 1])
        } else {
            smaller_of(&stack[n - 2], &stack[n - 1])
        };
        put_top(stack, 2, r);
        Ok(())
    } else {
        Err(message("Unknown function: ", &nm))
    }
}

/// Whether `a` comes before `b` (see `before`).
fn comes_before(a: &Value, b: &Value) -> (r: bool)
    ensures
        r == before(a@, b@),
{
    match (a, b) {
        (Value::Finite(x), Value::Finite(y)) => x.less_than(y),
        (Value::Infinite(true), Value::Infinite(true)) => false,
        (Value::Infinite(true), _) => true,
        (Value::Infinite(false), Value::Infinite(false)) => false,
        (_, Value::Infinite(false)) => true,
        _ => false,
    }
}

fn larger_of(a: &Value, b: &Value) -> (r: Value)
    ensures
        r@ == max_value(a@, b@),
{
    if matches!(a, Value::NaN) {
        b.copy()
    } else if matches!(b, Value::NaN) {
        a.copy()
    } else if comes_before(a, b) {
        b.copy()
    } else {
        a.copy()
    }
}

fn smaller_of(a: &Value, b: &Value) -> (r: Value)
    ensures
        r@ == min_value(a@, b@),
{
    if matches!(a, Value::NaN) {
        b.copy()
    } else if matches!(b, Value::NaN) {
        a.copy()
    } else if comes_before(b, a) {
        b.copy()
    } else {
        a.copy()
    }
}

/// Evaluates tokens in reverse Polish notation on a stack.
pub fn evaluate_rpn(tokens: Vec<Token>) -> (r: Result<Value, String>)
    ensures
        match r {
            Ok(v) => value_of(views(tokens@)) == Ok::<SpecValue, Seq<char>>(v@),
            Err(e) => value_of(views(tokens@)) == Err::<SpecValue, Seq<char>>(e@),
        },
{
    let ghost ts = views(tokens@);
    let mut stack: Vec<Value> = Vec::new();
    let mut k: usize = 0;
    assert(values(stack@) =~= Seq::<SpecValue>::empty());
    while k < tokens.len()
        invariant
            k <= tokens.len(),
            ts == views(tokens@),
            eval_prefix(ts, k as int) == Ok::<Seq<SpecValue>, Seq<char>>(values(stack@)),
        decreases tokens.len() - k,
    {
        assert(ts[k as int] == tokens@[k as int]@);
        let n = stack.len();
        let ghost before = stack@;
        assert(values(before).len() == n);
        match &tokens[k] {
            Token::Number(v) => {
                stack.push(v.copy());
                assert(values(stack@) =~= values(before).push(v@));
            },
            Token::Operator(op) => {
                if n < 2 {
                    let e = fail("Invalid expression");
                    proof {
                        lemma_eval_err(ts, k + 1, ts.len() as int);
                    }
                    return Err(e);
                }
                assert(values(before)[n - 1] == stack@[n - 1]@ && values(before)[n - 2] == stack@[n - 2]@);
                match operate(*op, &stack[n - 2], &stack[n - 1]) {
                    Ok(v) => {
                        put_top(&mut stack, 2, v);
                    },
                    Err(e) => {
                        proof {
                            lemma_eval_err(ts, k + 1, ts.len() as int);
                        }
                        return Err(e);
                    },
                }
            },
            Token::Function(name) => {
                match call_function(name, &mut stack) {
                    Ok(_) => {},
                    Err(e) => {
                        proof {
                            lemma_eval_err(ts, k + 1, ts.len() as int);
                        }
                        return Err(e);
                    },
                }
            },
            _ => {
                let e = fail("Unexpected token during evaluation");
                proof {
                    lemma_eval_err(ts, k + 1, ts.len() as int);
                }
                return Err(e);
            },
        }
        k = k + 1;
    }
    if stack.len() != 1 {
        return Err(fail("Invalid expression"));
    }
    Ok(stack[0].copy())
}

} // verus!
