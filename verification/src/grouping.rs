//! How the conversion to reverse Polish notation groups an expression:
//! precedence, association from the left, and parentheses.
use vstd::prelude::*;
use crate::lexer::SpecToken;
use crate::value::SpecValue;
use crate::rpn::{
    after_close, apply_function, apply_operator, close_paren, eval_prefix, eval_step, flush,
    known_operator, precedence, replace_top, rpn_of, rpn_prefix, unwind_operators, value_of, RpnState,
};

verus! {

/// The tokens `a op1 b op2 c`.
pub open spec fn three_numbers(a: SpecValue, b: SpecValue, c: SpecValue, op1: char, op2: char) -> Seq<SpecToken> {
    seq![
        SpecToken::Number(a),
        SpecToken::Operator(op1),
        SpecToken::Number(b),
        SpecToken::Operator(op2),
        SpecToken::Number(c),
    ]
}

#[verifier::rlimit(50)]
proof fn lemma_rpn_three(a: SpecValue, b: SpecValue, c: SpecValue, op1: char, op2: char)
    ensures
        ({
            let ts = three_numbers(a, b, c, op1, op2);
            rpn_of(ts) == Ok::<Seq<SpecToken>, Seq<char>>(
                if precedence(op1) >= precedence(op2) {
                    seq![ts[0], ts[2], ts[1], ts[4], ts[3]]
                } else {
                    seq![ts[0], ts[2], ts[4], ts[3], ts[1]]
                },
            )
        }),
{
    let ts = three_numbers(a, b, c, op1, op2);
    let e = Seq::<SpecToken>::empty();
    assert(rpn_prefix(ts, 0) == Ok::<RpnState, Seq<char>>((e, e)));
    assert(e.push(ts[0]) =~= seq![ts[0]]);
    assert(rpn_prefix(ts, 1) == Ok::<RpnState, Seq<char>>((seq![ts[0]], e)));
    assert(unwind_operators(seq![ts[0]], e, op1) == (seq![ts[0]], e));
    assert(e.push(ts[1]) =~= seq![ts[1]]);
    assert(rpn_prefix(ts, 2) == Ok::<RpnState, Seq<char>>((seq![ts[0]], seq![ts[1]])));
    assert(seq![ts[0]].push(ts[2]) =~= seq![ts[0], ts[2]]);
    assert(rpn_prefix(ts, 3) == Ok::<RpnState, Seq<char>>((seq![ts[0], ts[2]], seq![ts[1]])));
    assert(seq![ts[1]].drop_last() =~= e);
    assert(seq![ts[0], ts[2]].push(ts[1]) =~= seq![ts[0], ts[2], ts[1]]);
    assert(seq![ts[1]].push(ts[3]) =~= seq![ts[1], ts[3]]);
    assert(seq![ts[1], ts[3]].drop_last() =~= seq![ts[1]]);
    if precedence(op1) >= precedence(op2) {
        let o3 = seq![ts[0], ts[2], ts[1]];
        assert(unwind_operators(o3, e, op2) == (o3, e));
        assert(unwind_operators(seq![ts[0], ts[2]], seq![ts[1]], op2) == (o3, e));
        assert(rpn_prefix(ts, 4) == Ok::<RpnState, Seq<char>>((o3, seq![ts[3]])));
        let o4 = seq![ts[0], ts[2], ts[1], ts[4]];
        assert(o3.push(ts[4]) =~= o4);
        assert(rpn_prefix(ts, 5) == Ok::<RpnState, Seq<char>>((o4, seq![ts[3]])));
        let o5 = seq![ts[0], ts[2], ts[1], ts[4], ts[3]];
        assert(o4.push(ts[3]) =~= o5);
        assert(seq![ts[3]].drop_last() =~= e);
        assert(flush(o5, e) == Ok::<Seq<SpecToken>, Seq<char>>(o5));
        assert(flush(o4, seq![ts[3]]) == Ok::<Seq<SpecToken>, Seq<char>>(o5));
    } else {
        let o2 = seq![ts[0], ts[2]];
        assert(unwind_operators(o2, seq![ts[1]], op2) == (o2, seq![ts[1]]));
        assert(rpn_prefix(ts, 4) == Ok::<RpnState, Seq<char>>((o2, seq![ts[1], ts[3]])));
        let o3 = seq![ts[0], ts[2], ts[4]];
        assert(o2.push(ts[4]) =~= o3);
        assert(rpn_prefix(ts, 5) == Ok::<RpnState, Seq<char>>((o3, seq![ts[1], ts[3]])));
        let o4 = seq![ts[0], ts[2], ts[4], ts[3]];
        let o5 = seq![ts[0], ts[2], ts[4], ts[3], ts[1]];
        assert(o3.push(ts[3]) =~= o4);
        assert(o4.push(ts[1]) =~= o5);
        assert(flush(o5, e) == Ok::<Seq<SpecToken>, Seq<char>>(o5));
        assert(flush(o4, seq![ts[1]]) == Ok::<Seq<SpecToken>, Seq<char>>(o5));
        assert(flush(o3, seq![ts[1], ts[3]]) == Ok::<Seq<SpecToken>, Seq<char>>(o5));
    }
}

#[verifier::rlimit(50)]
proof fn lemma_eval_left(x: SpecValue, y: SpecValue, z: SpecValue, op1: char, op2: char)
    ensures
        ({
            let (p, q, r) = (x, y, z);
            let (n0, n1, n2) = (SpecToken::Number(x), SpecToken::Number(y), SpecToken::Number(z));
            let (t1, t2) = (SpecToken::Operator(op1), SpecToken::Operator(op2));
            value_of(seq![n0, n1, t1, n2, t2]) == match apply_operator(op1, p, q) {
                Ok(l) => apply_operator(op2, l, r),
                Err(e) => Err(e),
            }
        }),
{
    let (p, q, r) = (x, y, z);
    let (n0, n1, n2) = (SpecToken::Number(x), SpecToken::Number(y), SpecToken::Number(z));
    let (t1, t2) = (SpecToken::Operator(op1), SpecToken::Operator(op2));
    let st = Seq::<SpecValue>::empty();
    assert(st.push(p) =~= seq![p]);
    assert(seq![p].push(q) =~= seq![p, q]);
    let out = seq![n0, n1, t1, n2, t2];
    assert(eval_prefix(out, 0) == Ok::<Seq<SpecValue>, Seq<char>>(st));
    assert(eval_prefix(out, 1) == Ok::<Seq<SpecValue>, Seq<char>>(seq![p]));
    assert(eval_prefix(out, 2) == Ok::<Seq<SpecValue>, Seq<char>>(seq![p, q]));
    match apply_operator(op1, p, q) {
        Ok(l) => {
            assert(replace_top(seq![p, q], 2, l) =~= seq![l]);
            assert(eval_prefix(out, 3) == Ok::<Seq<SpecValue>, Seq<char>>(seq![l]));
            assert(seq![l].push(r) =~= seq![l, r]);
            assert(eval_prefix(out, 4) == Ok::<Seq<SpecValue>, Seq<char>>(seq![l, r]));
            match apply_operator(op2, l, r) {
                Ok(v) => {
                    assert(replace_top(seq![l, r], 2, v) =~= seq![v]);
                    assert(eval_prefix(out, 5) == Ok::<Seq<SpecValue>, Seq<char>>(seq![v]));
                },
                Err(_) => {
                    assert(eval_prefix(out, 5) is Err);
                },
            }
        },
        Err(_) => {
            assert(eval_prefix(out, 3) is Err);
            lemma_eval_err_here(out, 3, 5);
        },
    }
}

#[verifier::rlimit(50)]
proof fn lemma_eval_right(x: SpecValue, y: SpecValue, z: SpecValue, op1: char, op2: char)
    ensures
        ({
            let (p, q, r) = (x, y, z);
            let (n0, n1, n2) = (SpecToken::Number(x), SpecToken::Number(y), SpecToken::Number(z));
            let (t1, t2) = (SpecToken::Operator(op1), SpecToken::Operator(op2));
            value_of(seq![n0, n1, n2, t2, t1]) == match apply_operator(op2, q, r) {
                Ok(m) => apply_operator(op1, p, m),
                Err(e) => Err(e),
            }
        }),
{
    let (p, q, r) = (x, y, z);
    let (n0, n1, n2) = (SpecToken::Number(x), SpecToken::Number(y), SpecToken::Number(z));
    let (t1, t2) = (SpecToken::Operator(op1), SpecToken::Operator(op2));
    let st = Seq::<SpecValue>::empty();
    assert(st.push(p) =~= seq![p]);
    assert(seq![p].push(q) =~= seq![p, q]);
    let out = seq![n0, n1, n2, t2, t1];
    assert(seq![p, q].push(r) =~= seq![p, q, r]);
    assert(eval_prefix(out, 0) == Ok::<Seq<SpecValue>, Seq<char>>(st));
    assert(eval_prefix(out, 1) == Ok::<Seq<SpecValue>, Seq<char>>(seq![p]));
    assert(eval_prefix(out, 2) == Ok::<Seq<SpecValue>, Seq<char>>(seq![p, q]));
    assert(eval_prefix(out, 3) == Ok::<Seq<SpecValue>, Seq<char>>(seq![p, q, r]));
    match apply_operator(op2, q, r) {
        Ok(m) => {
            assert(replace_top(seq![p, q, r], 2, m) =~= seq![p, m]);
            assert(eval_prefix(out, 4) == Ok::<Seq<SpecValue>, Seq<char>>(seq![p, m]));
            match apply_operator(op1, p, m) {
                Ok(v) => {
                    assert(replace_top(seq![p, m], 2, v) =~= seq![v]);
                    assert(eval_prefix(out, 5) == Ok::<Seq<SpecValue>, Seq<char>>(seq![v]));
                },
                Err(_) => {
                    assert(eval_prefix(out, 5) is Err);
                },
            }
        },
        Err(_) => {
            assert(eval_prefix(out, 4) is Err);
            lemma_eval_err_here(out, 4, 5);
        },
    }
}

/// Of two operators between three numbers, the one of higher precedence
/// binds first, and of equal ones the left one: the conversion keeps the
/// numbers in their order, and the value is that of the grouping.
pub proof fn law_precedence_and_left_association(a: SpecValue, b: SpecValue, c: SpecValue, op1: char, op2: char)
    ensures
        ({
            let ts = three_numbers(a, b, c, op1, op2);
            let (x, y, z) = (a, b, c);
            if precedence(op1) >= precedence(op2) {
                &&& rpn_of(ts) == Ok::<Seq<SpecToken>, Seq<char>>(seq![ts[0], ts[2], ts[1], ts[4], ts[3]])
                &&& value_of(seq![ts[0], ts[2], ts[1], ts[4], ts[3]]) == match apply_operator(op1, x, y) {
                    Ok(l) => apply_operator(op2, l, z),
                    Err(e) => Err(e),
                }
            } else {
                &&& rpn_of(ts) == Ok::<Seq<SpecToken>, Seq<char>>(seq![ts[0], ts[2], ts[4], ts[3], ts[1]])
                &&& value_of(seq![ts[0], ts[2], ts[4], ts[3], ts[1]]) == match apply_operator(op2, y, z) {
                    Ok(m) => apply_operator(op1, x, m),
                    Err(e) => Err(e),
                }
            }
        }),
{
    lemma_rpn_three(a, b, c, op1, op2);
    if precedence(op1) >= precedence(op2) {
        lemma_eval_left(a, b, c, op1, op2);
    } else {
        lemma_eval_right(a, b, c, op1, op2);
    }
}

/// The token of an operator.
pub open spec fn op_token(c: char) -> SpecToken {
    SpecToken::Operator(c)
}

/// The tokens `n0 op1 n1 ... opk nk` of the first `k` operators of `ops`
/// and the numbers of `ns` between them.
pub open spec fn chain_upto(ns: Seq<SpecValue>, ops: Seq<char>, k: nat) -> Seq<SpecToken>
    decreases k,
{
    if k == 0 {
        seq![SpecToken::Number(ns[0])]
    } else {
        chain_upto(ns, ops, (k - 1) as nat) + seq![op_token(ops[k - 1]), SpecToken::Number(ns[k as int])]
    }
}

/// The same chain grouped from the left, in reverse Polish notation:
/// `n0 n1 op1 n2 op2 ... nk opk`.
pub open spec fn left_rpn_upto(ns: Seq<SpecValue>, ops: Seq<char>, k: nat) -> Seq<SpecToken>
    decreases k,
{
    if k == 0 {
        seq![SpecToken::Number(ns[0])]
    } else {
        left_rpn_upto(ns, ops, (k - 1) as nat) + seq![SpecToken::Number(ns[k as int]), op_token(ops[k - 1])]
    }
}

/// The value of the chain grouped from the left, or the first error.
pub open spec fn left_fold_upto(ns: Seq<SpecValue>, ops: Seq<char>, k: nat) -> Result<SpecValue, Seq<char>>
    decreases k,
{
    if k == 0 {
        Ok(ns[0])
    } else {
        match left_fold_upto(ns, ops, (k - 1) as nat) {
            Ok(v) => apply_operator(ops[k - 1], v, ns[k as int]),
            Err(e) => Err(e),
        }
    }
}

proof fn lemma_rpn_prefix_of_concat(a: Seq<SpecToken>, b: Seq<SpecToken>, n: int)
    requires
        0 <= n <= a.len(),
    ensures
        rpn_prefix(a + b, n) == rpn_prefix(a, n),
    decreases n,
{
    if n > 0 {
        lemma_rpn_prefix_of_concat(a, b, n - 1);
        assert((a + b)[n - 1] == a[n - 1]);
    }
}

proof fn lemma_eval_prefix_of_concat(a: Seq<SpecToken>, b: Seq<SpecToken>, n: int)
    requires
        0 <= n <= a.len(),
    ensures
        eval_prefix(a + b, n) == eval_prefix(a, n),
    decreases n,
{
    if n > 0 {
        lemma_eval_prefix_of_concat(a, b, n - 1);
        assert((a + b)[n - 1] == a[n - 1]);
    }
}

proof fn lemma_chain_lengths(ns: Seq<SpecValue>, ops: Seq<char>, k: nat)
    ensures
        chain_upto(ns, ops, k).len() == 2 * k + 1,
        left_rpn_upto(ns, ops, k).len() == 2 * k + 1,
    decreases k,
{
    if k > 0 {
        lemma_chain_lengths(ns, ops, (k - 1) as nat);
    }
}

/// The conversion state after a chain of one precedence: the chain without
/// its last operator grouped from the left, then the last number, with the
/// last operator on the stack.
proof fn lemma_chain_state(ns: Seq<SpecValue>, ops: Seq<char>, k: nat)
    requires
        k <= ops.len(),
        forall|i: int| 0 <= i < ops.len() ==> precedence(#[trigger] ops[i]) == precedence(ops[0]),
    ensures
        ({
            let ts = chain_upto(ns, ops, k);
            rpn_prefix(ts, ts.len() as int) == Ok::<RpnState, Seq<char>>(
                if k == 0 {
                    (seq![SpecToken::Number(ns[0])], Seq::<SpecToken>::empty())
                } else {
                    (
                        left_rpn_upto(ns, ops, (k - 1) as nat).push(SpecToken::Number(ns[k as int])),
                        seq![SpecToken::Operator(ops[k - 1])],
                    )
                },
            )
        }),
    decreases k,
{
    lemma_chain_lengths(ns, ops, k);
    let e = Seq::<SpecToken>::empty();
    let ts = chain_upto(ns, ops, k);
    if k == 0 {
        assert(rpn_prefix(ts, 0) == Ok::<RpnState, Seq<char>>((e, e)));
        assert(e.push(ts[0]) =~= seq![SpecToken::Number(ns[0])]);
    } else {
        let k1 = (k - 1) as nat;
        lemma_chain_state(ns, ops, k1);
        lemma_chain_lengths(ns, ops, k1);
        let head = chain_upto(ns, ops, k1);
        let n = head.len() as int;
        let o = SpecToken::Operator(ops[k - 1]);
        let t = SpecToken::Number(ns[k as int]);
        assert(ts == head + seq![o, t]);
        lemma_rpn_prefix_of_concat(head, seq![o, t], n);
        assert(ts[n] == o);
        assert(ts[n + 1] == t);
        let st = if k1 == 0 {
            (seq![SpecToken::Number(ns[0])], e)
        } else {
            (
                left_rpn_upto(ns, ops, (k1 - 1) as nat).push(SpecToken::Number(ns[k1 as int])),
                seq![SpecToken::Operator(ops[k1 - 1])],
            )
        };
        assert(rpn_prefix(ts, n) == Ok::<RpnState, Seq<char>>(st));
        // the operator before unwinds the one on the stack, of the same precedence
        if k1 == 0 {
            assert(unwind_operators(st.0, st.1, ops[k - 1]) == (st.0, e));
            assert(left_rpn_upto(ns, ops, k1) == st.0);
        } else {
            assert(precedence(ops[k1 - 1]) == precedence(ops[0]));
            assert(precedence(ops[k - 1]) == precedence(ops[0]));
            assert(st.1.drop_last() =~= e);
            let out1 = st.0.push(SpecToken::Operator(ops[k1 - 1]));
            assert(unwind_operators(out1, e, ops[k - 1]) == (out1, e));
            assert(unwind_operators(st.0, st.1, ops[k - 1]) == (out1, e));
            assert(out1 =~= left_rpn_upto(ns, ops, k1));
        }
        assert(e.push(o) =~= seq![o]);
        assert(rpn_prefix(ts, n + 1) == Ok::<RpnState, Seq<char>>((left_rpn_upto(ns, ops, k1), seq![o])));
        assert(rpn_prefix(ts, n + 2) == Ok::<RpnState, Seq<char>>(
            (left_rpn_upto(ns, ops, k1).push(t), seq![o]),
        ));
    }
}

proof fn lemma_two_steps(v: SpecValue, z: SpecValue, op: char)
    ensures
        eval_step(seq![v], SpecToken::Number(z)) == Ok::<Seq<SpecValue>, Seq<char>>(seq![v, z]),
        eval_step(seq![v, z], SpecToken::Operator(op)) == match apply_operator(op, v, z) {
            Ok(w) => Ok::<Seq<SpecValue>, Seq<char>>(seq![w]),
            Err(e) => Err(e),
        },
{
    assert(seq![v].push(z) =~= seq![v, z]);
    match apply_operator(op, v, z) {
        Ok(w) => {
            assert(replace_top(seq![v, z], 2, w) =~= seq![w]);
        },
        Err(_) => {},
    }
}

proof fn lemma_chain_eval(ns: Seq<SpecValue>, ops: Seq<char>, k: nat)
    ensures
        ({
            let r = left_rpn_upto(ns, ops, k);
            eval_prefix(r, r.len() as int) == match left_fold_upto(ns, ops, k) {
                Ok(v) => Ok::<Seq<SpecValue>, Seq<char>>(seq![v]),
                Err(e) => Err(e),
            }
        }),
    decreases k,
{
    lemma_chain_lengths(ns, ops, k);
    let r = left_rpn_upto(ns, ops, k);
    if k == 0 {
        assert(eval_prefix(r, 0) == Ok::<Seq<SpecValue>, Seq<char>>(Seq::empty()));
        assert(Seq::<SpecValue>::empty().push(ns[0]) =~= seq![ns[0]]);
    } else {
        let k1 = (k - 1) as nat;
        lemma_chain_eval(ns, ops, k1);
        lemma_chain_lengths(ns, ops, k1);
        let head = left_rpn_upto(ns, ops, k1);
        let n = head.len() as int;
        let t = SpecToken::Number(ns[k as int]);
        let o = SpecToken::Operator(ops[k - 1]);
        assert(r == head + seq![t, o]);
        lemma_eval_prefix_of_concat(head, seq![t, o], n);
        assert(r[n] == t);
        assert(r[n + 1] == o);
        match left_fold_upto(ns, ops, k1) {
            Ok(v) => {
                let z = ns[k as int];
                lemma_two_steps(v, z, ops[k - 1]);
                assert(eval_prefix(r, n + 1) == Ok::<Seq<SpecValue>, Seq<char>>(seq![v, z]));
            },
            Err(_) => {
                assert(eval_prefix(r, n + 1) is Err);
            },
        }
    }
}

/// A chain `n0 op1 n1 ... opk nk` of operators of one precedence groups
/// from the left, whatever its length: the conversion writes each operator
/// after the number that follows it, and the value is the left fold of the
/// numbers.
pub proof fn law_left_association(ns: Seq<SpecValue>, ops: Seq<char>)
    requires
        ns.len() == ops.len() + 1,
        forall|i: int| 0 <= i < ops.len() ==> precedence(#[trigger] ops[i]) == precedence(ops[0]),
    ensures
        rpn_of(chain_upto(ns, ops, ops.len())) == Ok::<Seq<SpecToken>, Seq<char>>(
            left_rpn_upto(ns, ops, ops.len()),
        ),
        value_of(left_rpn_upto(ns, ops, ops.len())) == left_fold_upto(ns, ops, ops.len()),
{
    let k = ops.len();
    lemma_chain_state(ns, ops, k);
    lemma_chain_lengths(ns, ops, k);
    lemma_chain_eval(ns, ops, k);
    let e = Seq::<SpecToken>::empty();
    if k == 0 {
        assert(left_rpn_upto(ns, ops, k) == seq![SpecToken::Number(ns[0])]);
    } else {
        let out = left_rpn_upto(ns, ops, (k - 1) as nat).push(SpecToken::Number(ns[k as int]));
        let o = SpecToken::Operator(ops[k - 1]);
        assert(seq![o].drop_last() =~= e);
        assert(out.push(o) =~= left_rpn_upto(ns, ops, k));
        assert(flush(out.push(o), e) == Ok::<Seq<SpecToken>, Seq<char>>(out.push(o)));
    }
}

/// The tokens `a op1 ( b op2 c )`.
pub open spec fn grouped_right(a: SpecValue, b: SpecValue, c: SpecValue, op1: char, op2: char) -> Seq<SpecToken> {
    seq![
        SpecToken::Number(a),
        SpecToken::Operator(op1),
        SpecToken::LeftParen,
        SpecToken::Number(b),
        SpecToken::Operator(op2),
        SpecToken::Number(c),
        SpecToken::RightParen,
    ]
}

/// Parentheses group what they hold whatever the precedence: the operator
/// inside goes first, and the value is that of the grouping.
#[verifier::rlimit(50)]
pub proof fn law_parentheses_group(a: SpecValue, b: SpecValue, c: SpecValue, op1: char, op2: char)
    ensures
        ({
            let ts = grouped_right(a, b, c, op1, op2);
            let out = seq![ts[0], ts[3], ts[5], ts[4], ts[1]];
            let (x, y, z) = (a, b, c);
            &&& rpn_of(ts) == Ok::<Seq<SpecToken>, Seq<char>>(out)
            &&& value_of(out) == match apply_operator(op2, y, z) {
                Ok(m) => apply_operator(op1, x, m),
                Err(e) => Err(e),
            }
        }),
{
    let ts = grouped_right(a, b, c, op1, op2);
    let e = Seq::<SpecToken>::empty();
    let (na, o1, lp, nb, o2, nc) = (ts[0], ts[1], ts[2], ts[3], ts[4], ts[5]);
    assert(rpn_prefix(ts, 0) == Ok::<RpnState, Seq<char>>((e, e)));
    assert(e.push(na) =~= seq![na]);
    assert(rpn_prefix(ts, 1) == Ok::<RpnState, Seq<char>>((seq![na], e)));
    assert(unwind_operators(seq![na], e, op1) == (seq![na], e));
    assert(e.push(o1) =~= seq![o1]);
    assert(rpn_prefix(ts, 2) == Ok::<RpnState, Seq<char>>((seq![na], seq![o1])));
    assert(seq![o1].push(lp) =~= seq![o1, lp]);
    assert(rpn_prefix(ts, 3) == Ok::<RpnState, Seq<char>>((seq![na], seq![o1, lp])));
    assert(seq![na].push(nb) =~= seq![na, nb]);
    assert(rpn_prefix(ts, 4) == Ok::<RpnState, Seq<char>>((seq![na, nb], seq![o1, lp])));
    assert(unwind_operators(seq![na, nb], seq![o1, lp], op2) == (seq![na, nb], seq![o1, lp]));
    assert(seq![o1, lp].push(o2) =~= seq![o1, lp, o2]);
    assert(rpn_prefix(ts, 5) == Ok::<RpnState, Seq<char>>((seq![na, nb], seq![o1, lp, o2])));
    assert(seq![na, nb].push(nc) =~= seq![na, nb, nc]);
    assert(rpn_prefix(ts, 6) == Ok::<RpnState, Seq<char>>((seq![na, nb, nc], seq![o1, lp, o2])));
    assert(seq![na, nb, nc].push(o2) =~= seq![na, nb, nc, o2]);
    assert(seq![o1, lp, o2].drop_last() =~= seq![o1, lp]);
    assert(seq![o1, lp].drop_last() =~= seq![o1]);
    assert(close_paren(seq![na, nb, nc, o2], seq![o1, lp]) == Some((seq![na, nb, nc, o2], seq![o1])));
    assert(close_paren(seq![na, nb, nc], seq![o1, lp, o2]) == Some((seq![na, nb, nc, o2], seq![o1])));
    assert(after_close(seq![na, nb, nc, o2], seq![o1]) == (seq![na, nb, nc, o2], seq![o1]));
    assert(rpn_prefix(ts, 7) == Ok::<RpnState, Seq<char>>((seq![na, nb, nc, o2], seq![o1])));
    let out = seq![na, nb, nc, o2, o1];
    assert(seq![na, nb, nc, o2].push(o1) =~= out);
    assert(seq![o1].drop_last() =~= e);
    assert(flush(out, e) == Ok::<Seq<SpecToken>, Seq<char>>(out));
    assert(flush(seq![na, nb, nc, o2], seq![o1]) == Ok::<Seq<SpecToken>, Seq<char>>(out));
    lemma_eval_right(a, b, c, op1, op2);
}

proof fn lemma_eval_err_here(ts: Seq<SpecToken>, m: int, n: int)
    requires
        0 <= m <= n,
        eval_prefix(ts, m) is Err,
    ensures
        eval_prefix(ts, n) == eval_prefix(ts, m),
    decreases n - m,
{
    if m < n {
        lemma_eval_err_here(ts, m, n - 1);
    }
}

/// Arithmetic fails only where a float's does: an operator fails only when
/// it is not one of the five or divides by zero with `/`, and a function
/// only when it is unknown or lacks arguments; every other result, however
/// large, is a value.
pub proof fn law_only_division_by_zero_fails(op: char, left: SpecValue, right: SpecValue, name: Seq<char>, stack: Seq<SpecValue>)
    ensures
        (apply_operator(op, left, right) is Err) == (!known_operator(op) || (op == '/' && right == SpecValue::Finite(0))),
        (apply_function(name, stack) is Err) == (!(name == "sqrt"@ || name == "abs"@ || name == "pow"@ || name == "max"@
            || name == "min"@) || ((name == "sqrt"@ || name == "abs"@) && stack.len() < 1) || ((name == "pow"@
            || name == "max"@ || name == "min"@) && stack.len() < 2)),
{
    reveal_strlit("sqrt");
    reveal_strlit("abs");
    reveal_strlit("pow");
    reveal_strlit("max");
    reveal_strlit("min");
    let (sq, ab, pw, mx, mn) = ("sqrt"@, "abs"@, "pow"@, "max"@, "min"@);
    assert(sq[0] == 's' && ab[0] == 'a' && pw[0] == 'p' && mx[0] == 'm' && mn[0] == 'm');
    assert(mx[1] == 'a' && mn[1] == 'i');
    assert(sq != ab && sq != pw && sq != mx && sq != mn && ab != pw && ab != mx && ab != mn);
    assert(pw != mx && pw != mn && mx != mn);
}

} // verus!
