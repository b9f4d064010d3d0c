//! Properties that span the library's functions.
use vstd::prelude::*;
use crate::lexer::SpecToken;
use crate::value::SpecValue;
use crate::format::{
    decimal_digits, digit_char, expression_format, formatted, formatted_number, grouped,
    grouped_prefix, padded_digits, pow10, rounded, rounding_places, whole_cap, zeros, NumberFormat,
};
use crate::calc::evaluation_with;
use crate::repl::{key_step, well_formed, Key, KeyPress, ReplView, SpecAction};
use crate::lexer::unmarked;
use crate::literal::{
    decimal_syntax, digit_value, digits_value, fraction_digits, literal_value, nine_digits, point_at,
};
use crate::text::{find, lemma_find_facts};
use vstd::arithmetic::div_mod::{lemma_fundamental_div_mod, lemma_fundamental_div_mod_converse, lemma_mod_pos_bound};
use crate::text::{digit, lemma_first_kept_bounds, lemma_last_kept_bounds, first_kept, last_kept_end, trim, whitespace};
use crate::format::{cleaned, format_of, kept, parsed_value, places};
use crate::text::small_letter;
use crate::exponent::{lemma_no_mark, sign_len, unsigned_part};
use crate::repl::{char_type, next_boundary, prev_boundary, skip_class, skip_class_back, skip_space, skip_space_back, CharType};
use crate::rpn::{
    apply_function, close_paren, eval_prefix, eval_step, flush, rpn_of, rpn_prefix, rpn_step,
    unwind_operators, unwind_to_paren, value_of,
};

verus! {

/// A parenthesis or a comma.
pub open spec fn is_bracket(t: SpecToken) -> bool {
    t is LeftParen || t is RightParen || t is Comma
}

/// No parenthesis or comma.
pub open spec fn no_brackets(s: Seq<SpecToken>) -> bool {
    forall|k: int| 0 <= k < s.len() ==> !is_bracket(#[trigger] s[k])
}

/// The values of the numbers among the tokens, in order.
pub open spec fn numbers(s: Seq<SpecToken>) -> Seq<SpecValue>
    decreases s.len(),
{
    if s.len() == 0 {
        Seq::empty()
    } else {
        match s.last() {
            SpecToken::Number(v) => numbers(s.drop_last()).push(v),
            _ => numbers(s.drop_last()),
        }
    }
}

/// How many tokens are not parentheses or commas.
pub open spec fn count_items(s: Seq<SpecToken>) -> int
    decreases s.len(),
{
    if s.len() == 0 {
        0
    } else if is_bracket(s.last()) {
        count_items(s.drop_last())
    } else {
        count_items(s.drop_last()) + 1
    }
}

/// What the operator stack of the conversion may hold.
pub open spec fn stack_token(t: SpecToken) -> bool {
    t is Operator || t is Function || t is LeftParen
}

/// The conversion's state after tokens whose numbers are `nums` and whose
/// tokens other than brackets number `cnt`.
pub open spec fn conversion_inv(out: Seq<SpecToken>, ops: Seq<SpecToken>, nums: Seq<SpecValue>, cnt: int) -> bool {
    &&& no_brackets(out)
    &&& forall|k: int| 0 <= k < ops.len() ==> stack_token(#[trigger] ops[k])
    &&& numbers(out) == nums
    &&& out.len() + count_items(ops) == cnt
}

proof fn lemma_move_top(out: Seq<SpecToken>, ops: Seq<SpecToken>, nums: Seq<SpecValue>, cnt: int)
    requires
        conversion_inv(out, ops, nums, cnt),
        ops.len() > 0,
        !(ops.last() is LeftParen),
    ensures
        conversion_inv(out.push(ops.last()), ops.drop_last(), nums, cnt),
{
    let t = ops.last();
    assert(stack_token(ops[ops.len() - 1]));
    let o2 = out.push(t);
    assert(o2.drop_last() =~= out);
    assert forall|k: int| 0 <= k < o2.len() implies !is_bracket(#[trigger] o2[k]) by {
        if k < out.len() {
            assert(o2[k] == out[k]);
        }
    }
    assert forall|k: int| 0 <= k < ops.drop_last().len() implies stack_token(#[trigger] ops.drop_last()[k]) by {
        assert(ops.drop_last()[k] == ops[k]);
    }
}

proof fn lemma_unwind_to_paren(out: Seq<SpecToken>, ops: Seq<SpecToken>, nums: Seq<SpecValue>, cnt: int)
    requires
        conversion_inv(out, ops, nums, cnt),
    ensures
        unwind_to_paren(out, ops) matches Some(st) ==> conversion_inv(st.0, st.1, nums, cnt),
    decreases ops.len(),
{
    if ops.len() > 0 && !(ops.last() is LeftParen) {
        lemma_move_top(out, ops, nums, cnt);
        lemma_unwind_to_paren(out.push(ops.last()), ops.drop_last(), nums, cnt);
    }
}

proof fn lemma_close_paren(out: Seq<SpecToken>, ops: Seq<SpecToken>, nums: Seq<SpecValue>, cnt: int)
    requires
        conversion_inv(out, ops, nums, cnt),
    ensures
        close_paren(out, ops) matches Some(st) ==> conversion_inv(st.0, st.1, nums, cnt),
    decreases ops.len(),
{
    if ops.len() > 0 {
        if ops.last() is LeftParen {
            assert forall|k: int| 0 <= k < ops.drop_last().len() implies stack_token(#[trigger] ops.drop_last()[k]) by {
                assert(ops.drop_last()[k] == ops[k]);
            }
        } else {
            lemma_move_top(out, ops, nums, cnt);
            lemma_close_paren(out.push(ops.last()), ops.drop_last(), nums, cnt);
        }
    }
}

proof fn lemma_unwind_operators(out: Seq<SpecToken>, ops: Seq<SpecToken>, op: char, nums: Seq<SpecValue>, cnt: int)
    requires
        conversion_inv(out, ops, nums, cnt),
    ensures
        conversion_inv(unwind_operators(out, ops, op).0, unwind_operators(out, ops, op).1, nums, cnt),
    decreases ops.len(),
{
    if ops.len() > 0 {
        match ops.last() {
            SpecToken::Operator(_) => {
                lemma_move_top(out, ops, nums, cnt);
                lemma_unwind_operators(out.push(ops.last()), ops.drop_last(), op, nums, cnt);
            },
            SpecToken::Function(_) => {
                lemma_move_top(out, ops, nums, cnt);
                lemma_unwind_operators(out.push(ops.last()), ops.drop_last(), op, nums, cnt);
            },
            _ => {},
        }
    }
}

proof fn lemma_push_stack(out: Seq<SpecToken>, ops: Seq<SpecToken>, t: SpecToken, nums: Seq<SpecValue>, cnt: int)
    requires
        conversion_inv(out, ops, nums, cnt),
        stack_token(t),
    ensures
        conversion_inv(out, ops.push(t), nums, if t is LeftParen { cnt } else { cnt + 1 }),
{
    let o2 = ops.push(t);
    assert(o2.drop_last() =~= ops);
    assert forall|k: int| 0 <= k < o2.len() implies stack_token(#[trigger] o2[k]) by {
        if k < ops.len() {
            assert(o2[k] == ops[k]);
        }
    }
}

proof fn lemma_step(st: (Seq<SpecToken>, Seq<SpecToken>), t: SpecToken, nums: Seq<SpecValue>, cnt: int)
    requires
        conversion_inv(st.0, st.1, nums, cnt),
    ensures
        rpn_step(st, t) matches Ok(st2) ==> conversion_inv(
            st2.0,
            st2.1,
            match t {
                SpecToken::Number(v) => nums.push(v),
                _ => nums,
            },
            if is_bracket(t) { cnt } else { cnt + 1 },
        ),
{
    let out = st.0;
    let ops = st.1;
    match t {
        SpecToken::Number(v) => {
            let o2 = out.push(t);
            assert(o2.drop_last() =~= out);
            assert forall|k: int| 0 <= k < o2.len() implies !is_bracket(#[trigger] o2[k]) by {
                if k < out.len() {
                    assert(o2[k] == out[k]);
                }
            }
        },
        SpecToken::Function(_) => {
            lemma_push_stack(out, ops, t, nums, cnt);
        },
        SpecToken::Comma => {
            lemma_unwind_to_paren(out, ops, nums, cnt);
        },
        SpecToken::Operator(op) => {
            lemma_unwind_operators(out, ops, op, nums, cnt);
            let st2 = unwind_operators(out, ops, op);
            lemma_push_stack(st2.0, st2.1, t, nums, cnt);
        },
        SpecToken::LeftParen => {
            lemma_push_stack(out, ops, t, nums, cnt);
        },
        SpecToken::RightParen => {
            lemma_close_paren(out, ops, nums, cnt);
            match close_paren(out, ops) {
                Some(st2) => {
                    if st2.1.len() > 0 && st2.1.last() is Function {
                        lemma_move_top(st2.0, st2.1, nums, cnt);
                    }
                },
                None => {},
            }
        },
    }
}

proof fn lemma_prefix(tokens: Seq<SpecToken>, n: int)
    requires
        0 <= n <= tokens.len(),
    ensures
        rpn_prefix(tokens, n) matches Ok(st) ==> conversion_inv(
            st.0,
            st.1,
            numbers(tokens.take(n)),
            count_items(tokens.take(n)),
        ),
    decreases n,
{
    if n == 0 {
        assert(tokens.take(0) =~= Seq::<SpecToken>::empty());
    } else {
        lemma_prefix(tokens, n - 1);
        assert(tokens.take(n).drop_last() =~= tokens.take(n - 1));
        match rpn_prefix(tokens, n - 1) {
            Ok(st) => {
                lemma_step(st, tokens[n - 1], numbers(tokens.take(n - 1)), count_items(tokens.take(n - 1)));
            },
            Err(_) => {},
        }
    }
}

proof fn lemma_flush(out: Seq<SpecToken>, ops: Seq<SpecToken>, nums: Seq<SpecValue>, cnt: int)
    requires
        conversion_inv(out, ops, nums, cnt),
    ensures
        flush(out, ops) matches Ok(o) ==> conversion_inv(o, Seq::empty(), nums, cnt),
    decreases ops.len(),
{
    if ops.len() > 0 && !(ops.last() is LeftParen) {
        lemma_move_top(out, ops, nums, cnt);
        lemma_flush(out.push(ops.last()), ops.drop_last(), nums, cnt);
    }
}

/// The conversion to reverse Polish notation drops the parentheses and
/// commas and keeps every other token: the numbers in their order, and as
/// many tokens as the input has that are not brackets.
pub proof fn law_rpn_keeps_tokens(tokens: Seq<SpecToken>)
    ensures
        rpn_of(tokens) matches Ok(out) ==> {
            &&& no_brackets(out)
            &&& numbers(out) == numbers(tokens)
            &&& out.len() == count_items(tokens)
        },
{
    lemma_prefix(tokens, tokens.len() as int);
    assert(tokens.take(tokens.len() as int) =~= tokens);
    match rpn_prefix(tokens, tokens.len() as int) {
        Ok(st) => {
            lemma_flush(st.0, st.1, numbers(tokens), count_items(tokens));
        },
        Err(_) => {},
    }
}

proof fn lemma_digit_char(n: int)
    requires
        0 <= n < 10,
    ensures
        digit(digit_char(n)),
        digit_value(digit_char(n)) == n,
{
}

proof fn lemma_decimal_digits(n: nat)
    ensures
        decimal_digits(n).len() > 0,
        forall|k: int| 0 <= k < decimal_digits(n).len() ==> digit(#[trigger] decimal_digits(n)[k]),
        digits_value(decimal_digits(n)) == n,
    decreases n,
{
    if n < 10 {
        lemma_digit_char(n as int);
        let d = decimal_digits(n);
        assert(d.drop_last() =~= Seq::<char>::empty());
        assert(digits_value(d.drop_last()) == 0);
        assert(d.last() == digit_char(n as int));
    } else {
        lemma_decimal_digits(n / 10);
        lemma_digit_char((n % 10) as int);
        let d = decimal_digits(n);
        assert(d.drop_last() =~= decimal_digits(n / 10));
        assert(d.last() == digit_char((n % 10) as int));
        assert(digits_value(d) == digits_value(decimal_digits(n / 10)) * 10 + (n % 10));
        assert forall|k: int| 0 <= k < d.len() implies digit(#[trigger] d[k]) by {
            if k < d.len() - 1 {
                assert(d[k] == decimal_digits(n / 10)[k]);
            }
        }
    }
}

proof fn lemma_padded_digits(n: nat, w: nat)
    ensures
        padded_digits(n, w).len() == w,
        forall|k: int| 0 <= k < w ==> digit(#[trigger] padded_digits(n, w)[k]),
    decreases w,
{
    if w > 0 {
        lemma_padded_digits(n / 10, (w - 1) as nat);
        lemma_digit_char((n % 10) as int);
        let d = padded_digits(n, w);
        assert forall|k: int| 0 <= k < w implies digit(#[trigger] d[k]) by {
            if k < w - 1 {
                assert(d[k] == padded_digits(n / 10, (w - 1) as nat)[k]);
            }
        }
    }
}

proof fn lemma_grouped_prefix(ds: Seq<char>, k: int)
    requires
        0 <= k <= ds.len(),
        forall|m: int| 0 <= m < ds.len() ==> digit(#[trigger] ds[m]),
    ensures
        forall|m: int| 0 <= m < grouped_prefix(ds, k).len() ==> digit(#[trigger] grouped_prefix(ds, k)[m])
            || grouped_prefix(ds, k)[m] == ',',
        unmarked(grouped_prefix(ds, k)) == ds.take(k),
        k > 0 ==> grouped_prefix(ds, k).len() > 0 && digit(grouped_prefix(ds, k)[0]),
    decreases k,
{
    if k == 0 {
        assert(ds.take(0) =~= Seq::<char>::empty());
    } else {
        lemma_grouped_prefix(ds, k - 1);
        let prev = grouped_prefix(ds, k - 1);
        let comma = if k - 1 > 0 && (ds.len() - (k - 1)) % 3 == 0 {
            seq![',']
        } else {
            Seq::<char>::empty()
        };
        let g = grouped_prefix(ds, k);
        assert(g == prev + comma + seq![ds[k - 1]]);
        assert forall|m: int| 0 <= m < g.len() implies digit(#[trigger] g[m]) || g[m] == ',' by {
            if m < prev.len() {
                assert(g[m] == prev[m]);
            } else if m < prev.len() + comma.len() {
                assert(g[m] == comma[m - prev.len()]);
            } else {
                assert(g[m] == ds[k - 1]);
            }
        }
        lemma_unmarked_concat(prev + comma, seq![ds[k - 1]]);
        lemma_unmarked_concat(prev, comma);
        assert(unmarked(Seq::<char>::empty()) == Seq::<char>::empty());
        assert(unmarked(comma) =~= Seq::<char>::empty()) by {
            if comma.len() > 0 {
                assert(comma.drop_last() =~= Seq::<char>::empty());
                assert(comma.last() == ',');
            }
        }
        let one = seq![ds[k - 1]];
        assert(one.drop_last() =~= Seq::<char>::empty());
        assert(digit(ds[k - 1]));
        assert(one.last() == ds[k - 1]);
        assert(unmarked(one) =~= Seq::<char>::empty().push(ds[k - 1]));
        assert(unmarked(one) =~= one);
        assert(ds.take(k) =~= ds.take(k - 1).push(ds[k - 1]));
        if k == 1 {
            assert(prev =~= Seq::<char>::empty());
            assert(comma =~= Seq::<char>::empty());
            assert(g[0] == ds[0]);
        } else {
            assert(g[0] == prev[0]);
        }
    }
}

proof fn lemma_unmarked_concat(a: Seq<char>, b: Seq<char>)
    ensures
        unmarked(a + b) == unmarked(a) + unmarked(b),
    decreases b.len(),
{
    if b.len() == 0 {
        assert(a + b =~= a);
        assert(unmarked(a) + unmarked(b) =~= unmarked(a));
    } else {
        lemma_unmarked_concat(a, b.drop_last());
        assert((a + b).drop_last() =~= a + b.drop_last());
        assert((a + b).last() == b.last());
        if b.last() == '$' || b.last() == ',' {
        } else {
            assert(unmarked(a) + unmarked(b.drop_last()).push(b.last()) =~= (unmarked(a)
                + unmarked(b.drop_last())).push(b.last()));
        }
    }
}

/// Thousands separators change no digit: without its separators, a grouped
/// string of digits is the string itself; grouped digits hold only digits
/// and commas.
pub proof fn law_grouping_keeps_digits(ds: Seq<char>)
    requires
        forall|m: int| 0 <= m < ds.len() ==> digit(#[trigger] ds[m]),
    ensures
        unmarked(grouped(ds)) == ds,
        forall|m: int| 0 <= m < grouped(ds).len() ==> digit(#[trigger] grouped(ds)[m]) || grouped(ds)[m]
            == ',',
{
    lemma_grouped_prefix(ds, ds.len() as int);
    assert(ds.take(ds.len() as int) =~= ds);
}

/// Writing a whole number in decimal and reading the digits back gives the
/// number.
pub proof fn law_digits_round_trip(n: nat)
    ensures
        digits_value(decimal_digits(n)) == n,
        forall|k: int| 0 <= k < decimal_digits(n).len() ==> digit(#[trigger] decimal_digits(n)[k]),
{
    lemma_decimal_digits(n);
}

/// A written number follows its format: a `$` exactly when the format has
/// one, a minus sign first exactly when the number is negative, no
/// separators when the format has none, and no point when the format has
/// no decimals; otherwise a point followed by as many digits as the format
/// has decimals.
pub proof fn law_format_followed(v: int, f: NumberFormat)
    ensures
        formatted_number(v, f).contains('$') == f.has_dollar,
        formatted_number(v, f).len() > 0 && ((formatted_number(v, f)[0] == '-') == (v < 0)),
        !f.has_commas ==> !formatted_number(v, f).contains(','),
        f.decimal_places == 0 ==> !formatted_number(v, f).contains('.'),
        f.decimal_places > 0 ==> ({
            let s = formatted_number(v, f);
            let d = f.decimal_places as int;
            &&& s.len() > d
            &&& s[s.len() - d - 1] == '.'
            &&& forall|k: int| s.len() - d <= k < s.len() ==> digit(#[trigger] s[k])
        }),
{
    let r = rounding_places(f);
    let units = rounded(crate::number::magnitude(v), r);
    let whole = if units / pow10(r) > whole_cap() { whole_cap() } else { units / pow10(r) };
    let frac = units % pow10(r);
    let ds = decimal_digits(whole as nat);
    lemma_decimal_digits(whole as nat);
    law_grouping_keeps_digits(ds);
    lemma_padded_digits(frac as nat, r);
    lemma_grouped_prefix(ds, ds.len() as int);
    let num = if f.has_commas { grouped(ds) } else { ds };
    let tail = padded_digits(frac as nat, r) + zeros((f.decimal_places - r) as nat);
    let decimals = if f.decimal_places > 0 {
        seq!['.'] + padded_digits(frac as nat, r) + zeros((f.decimal_places - r) as nat)
    } else {
        Seq::<char>::empty()
    };
    let sign = if v < 0 { seq!['-'] } else { Seq::<char>::empty() };
    let prefix = if f.has_dollar { seq!['$'] } else { Seq::<char>::empty() };
    let s = formatted_number(v, f);
    assert(s == sign + prefix + num + decimals);
    assert(num.len() > 0 && digit(num[0]));
    assert forall|m: int| 0 <= m < num.len() implies digit(#[trigger] num[m]) || num[m] == ',' by {}
    assert forall|m: int| 0 <= m < tail.len() implies digit(#[trigger] tail[m]) by {
        if m >= r {
            assert(tail[m] == '0');
        } else {
            assert(tail[m] == padded_digits(frac as nat, r)[m]);
        }
    }
    if f.decimal_places > 0 {
        assert(decimals =~= seq!['.'] + tail);
    }
    assert forall|m: int| 0 <= m < decimals.len() implies digit(#[trigger] decimals[m]) || decimals[m] == '.' by {
        if m > 0 {
            assert(decimals[m] == tail[m - 1]);
        }
    }
    let head = sign + prefix;
    // where each character of the written value comes from
    assert forall|m: int| 0 <= m < s.len() implies {
        ||| (m < sign.len() && s[m] == '-')
        ||| (sign.len() <= m < head.len() && s[m] == '$')
        ||| (head.len() <= m < head.len() + num.len() && s[m] == num[m - head.len()])
        ||| (head.len() + num.len() <= m && s[m] == decimals[m - head.len() - num.len()])
    } by {
        if m < head.len() {
            assert(s[m] == head[m]);
        } else if m < head.len() + num.len() {
            assert(s[m] == num[m - head.len()]);
        } else {
            assert(s[m] == decimals[m - head.len() - num.len()]);
        }
    }
    if f.has_dollar {
        assert(s[sign.len() as int] == '$');
    }
    if s.contains('$') {
        let m = choose|m: int| 0 <= m < s.len() && s[m] == '$';
        assert(f.has_dollar);
    }
    if v < 0 {
        assert(s[0] == '-');
    } else {
        if f.has_dollar {
            assert(s[0] == '$');
        } else {
            assert(s[0] == num[0]);
        }
    }
    if !f.has_commas && s.contains(',') {
        let m = choose|m: int| 0 <= m < s.len() && s[m] == ',';
        assert(digit(ds[m - head.len()]) || m >= head.len() + num.len());
    }
    if f.decimal_places == 0 && s.contains('.') {
        let m = choose|m: int| 0 <= m < s.len() && s[m] == '.';
        assert(decimals.len() == 0);
    }
    if f.decimal_places > 0 {
        let d = f.decimal_places as int;
        assert(tail.len() == d);
        assert(s[s.len() - d - 1] == decimals[0]);
        assert forall|k: int| s.len() - d <= k < s.len() implies digit(#[trigger] s[k]) by {
            assert(s[k] == decimals[k - head.len() - num.len()]);
        }
    }
}

/// The result of an expression is written in the format of its first
/// number (see `law_format_followed` for what that means).
pub proof fn law_result_in_first_number_format(input: Seq<char>, q: Seq<(Seq<char>, int)>)
    ensures
        evaluation_with(input, q) matches Ok(s) ==> exists|v: SpecValue| s == formatted(
            v,
            expression_format(trim(input)),
        ),
{
    match evaluation_with(input, q) {
        Ok(s) => {
            let t = trim(input);
            match crate::lexer::tokens_of(t, q) {
                Ok(toks) => match rpn_of(toks) {
                    Ok(r) => match crate::rpn::value_of(r) {
                        Ok(v) => {
                            assert(s == formatted(v, expression_format(t)));
                        },
                        Err(_) => {},
                    },
                    Err(_) => {},
                },
                Err(_) => {},
            }
        },
        Err(_) => {},
    }
}

/// A key pressed without modifiers.
pub open spec fn plain(k: Key) -> KeyPress {
    KeyPress { key: k, ctrl: false, alt: false, released: false }
}

/// A key pressed with Control.
pub open spec fn with_ctrl(c: char) -> KeyPress {
    KeyPress { key: Key::Char(c), ctrl: true, alt: false, released: false }
}

/// Typing a character and then pressing Backspace gives back the line and
/// the cursor as they were.
pub proof fn law_type_then_backspace(v: ReplView, c: char, q: Seq<(Seq<char>, int)>)
    requires
        well_formed(v),
    ensures
        key_step(key_step(v, plain(Key::Char(c)), q).0, plain(Key::Backspace), q).0 == v,
{
    let w = key_step(v, plain(Key::Char(c)), q).0;
    assert(w.buffer == v.buffer.insert(v.cursor, c));
    assert(w.buffer.remove(v.cursor) =~= v.buffer);
}

/// Moving left and then right gives back the cursor, when it was not at the
/// start of the line.
pub proof fn law_left_then_right(v: ReplView, q: Seq<(Seq<char>, int)>)
    requires
        well_formed(v),
        v.cursor > 0,
    ensures
        key_step(key_step(v, plain(Key::Left), q).0, plain(Key::Right), q).0 == v,
{
}

/// From the line being typed, going up the history and down again brings
/// the line back, with the cursor at its end.
pub proof fn law_up_then_down(v: ReplView, q: Seq<(Seq<char>, int)>)
    requires
        well_formed(v),
        v.history.len() > 0,
        v.history_index == v.history.len(),
    ensures
        ({
            let w = key_step(key_step(v, plain(Key::Up), q).0, plain(Key::Down), q).0;
            &&& w.buffer == v.buffer
            &&& w.cursor == v.buffer.len()
            &&& w.history == v.history
            &&& w.history_index == v.history_index
        }),
{
}

/// Deleting to the end of the line and then to its start empties it.
pub proof fn law_kill_both_ways(v: ReplView, q: Seq<(Seq<char>, int)>)
    requires
        well_formed(v),
    ensures
        ({
            let w = key_step(key_step(v, with_ctrl('k'), q).0, with_ctrl('u'), q).0;
            &&& w.buffer.len() == 0
            &&& w.cursor == 0
        }),
{
    let w1 = key_step(v, with_ctrl('k'), q).0;
    assert(w1.buffer.len() == v.cursor);
    assert(w1.buffer.skip(v.cursor) =~= Seq::<char>::empty());
}

/// Entering a line leaves an empty line past the end of the history, unless
/// it quits; the history grows by the expression and its result, by the
/// expression alone when it failed, and not at all for commands and
/// comments.
pub proof fn law_enter_resets(v: ReplView, q: Seq<(Seq<char>, int)>)
    requires
        well_formed(v),
    ensures
        ({
            let (w, a) = key_step(v, plain(Key::Enter), q);
            &&& !(a is SubmitQuit) ==> w.buffer.len() == 0 && w.cursor == 0 && w.history_index
                == w.history.len()
            &&& a is SubmitQuit ==> w == v
            &&& (a matches SpecAction::SubmitResult(r) ==> w.history.len() == v.history.len() + 2
                && w.history.last() == r && w.history.take(v.history.len() as int) == v.history)
            &&& (a is SubmitError ==> w.history.len() == v.history.len() + 1 && w.history.take(
                v.history.len() as int,
            ) == v.history)
            &&& (!(a is SubmitResult) && !(a is SubmitError)) ==> w.history == v.history
        }),
{
    let (w, a) = key_step(v, plain(Key::Enter), q);
    if a is SubmitResult {
        assert(w.history.take(v.history.len() as int) =~= v.history);
    }
    if a is SubmitError {
        assert(w.history.take(v.history.len() as int) =~= v.history);
    }
}

/// The error for a token that has no place in reverse Polish notation.
pub open spec fn unexpected_token() -> Seq<char> {
    "Unexpected token during evaluation"@
}

proof fn lemma_step_not_unexpected(st: Seq<SpecValue>, t: SpecToken)
    requires
        !is_bracket(t),
    ensures
        eval_step(st, t) matches Err(e) ==> e != unexpected_token(),
{
    reveal_strlit("Unexpected token during evaluation");
    reveal_strlit("Invalid expression");
    reveal_strlit("Division by zero");
    reveal_strlit("Unknown operator");
    reveal_strlit("sqrt requires 1 argument");
    reveal_strlit("abs requires 1 argument");
    reveal_strlit("pow requires 2 arguments");
    reveal_strlit("max requires at least 2 arguments");
    reveal_strlit("min requires at least 2 arguments");
    reveal_strlit("Unknown function: ");
    let un = unexpected_token();
    assert(un.len() == 34);
    match t {
        SpecToken::Function(name) => {
            let u = "Unknown function: "@ + name;
            assert(u[2] == 'k');
            assert(un[2] == 'e');
            match apply_function(name, st) {
                Err(e) => {
                    assert(e != un);
                },
                Ok(_) => {},
            }
        },
        _ => {},
    }
}

proof fn lemma_prefix_not_unexpected(s: Seq<SpecToken>, n: int)
    requires
        no_brackets(s),
        0 <= n <= s.len(),
    ensures
        eval_prefix(s, n) matches Err(e) ==> e != unexpected_token(),
    decreases n,
{
    if n > 0 {
        lemma_prefix_not_unexpected(s, n - 1);
        match eval_prefix(s, n - 1) {
            Ok(st) => {
                assert(!is_bracket(s[n - 1]));
                lemma_step_not_unexpected(st, s[n - 1]);
            },
            Err(_) => {},
        }
    }
}

/// What the conversion to reverse Polish notation gives is never refused
/// by the evaluation as holding a token out of place.
pub proof fn law_rpn_output_evaluable(tokens: Seq<SpecToken>)
    ensures
        rpn_of(tokens) matches Ok(out) ==> value_of(out) != Err::<SpecValue, Seq<char>>(unexpected_token()),
{
    law_rpn_keeps_tokens(tokens);
    match rpn_of(tokens) {
        Ok(out) => {
            lemma_prefix_not_unexpected(out, out.len() as int);
            reveal_strlit("Unexpected token during evaluation");
            reveal_strlit("Invalid expression");
            let un = unexpected_token();
            assert(un.len() == 34);
            assert("Invalid expression"@.len() == 18);
            assert("Invalid expression"@ != un);
            match eval_prefix(out, out.len() as int) {
                Ok(st) => {},
                Err(e) => {
                    assert(e != un);
                },
            }
        },
        Err(_) => {},
    }
}

proof fn lemma_pow10_values()
    ensures
        pow10(0) == 1,
        pow10(1) == 10,
        pow10(2) == 100,
        pow10(7) == 10_000_000,
        pow10(8) == 100_000_000,
        pow10(9) == 1_000_000_000,
{
    reveal_with_fuel(pow10, 10);
}

pub proof fn lemma_pow10_positive(n: nat)
    ensures
        pow10(n) > 0,
    decreases n,
{
    if n > 0 {
        lemma_pow10_positive((n - 1) as nat);
    }
}

proof fn lemma_padded_value(n: nat, w: nat)
    ensures
        digits_value(padded_digits(n, w)) == (n as int) % pow10(w),
    decreases w,
{
    if w == 0 {
        assert(padded_digits(n, w) =~= Seq::<char>::empty());
    } else {
        lemma_padded_value(n / 10, (w - 1) as nat);
        lemma_digit_char((n % 10) as int);
        let d = padded_digits(n, w);
        assert(d.drop_last() =~= padded_digits(n / 10, (w - 1) as nat));
        let p = pow10((w - 1) as nat);
        lemma_pow10_positive((w - 1) as nat);
        let q = (n / 10) as int;
        let r = (n % 10) as int;
        let b = q % p;
        let a = q / p;
        lemma_fundamental_div_mod(n as int, 10);
        lemma_fundamental_div_mod(q, p);
        lemma_mod_pos_bound(q, p);
        assert(n == (10 * p) * a + (10 * b + r)) by (nonlinear_arith)
            requires
                n == 10 * q + r,
                q == p * a + b,
        ;
        assert(10 * b + r < 10 * p) by (nonlinear_arith)
            requires
                0 <= b < p,
                0 <= r < 10,
        ;
        lemma_fundamental_div_mod_converse(n as int, 10 * p, a, 10 * b + r);
    }
}

pub proof fn lemma_zeros_value(s: Seq<char>, k: nat)
    ensures
        digits_value(s + zeros(k)) == digits_value(s) * pow10(k),
    decreases k,
{
    if k == 0 {
        assert(s + zeros(k) =~= s);
    } else {
        lemma_zeros_value(s, (k - 1) as nat);
        assert((s + zeros(k)).drop_last() =~= s + zeros((k - 1) as nat));
        assert((s + zeros(k)).last() == '0');
        assert(digits_value(s) * pow10((k - 1) as nat) * 10 == digits_value(s) * pow10(k)) by (nonlinear_arith)
            requires
                pow10(k) == 10 * pow10((k - 1) as nat),
        ;
    }
}

proof fn lemma_unmarked_plain(s: Seq<char>)
    requires
        forall|k: int| 0 <= k < s.len() ==> #[trigger] s[k] != '$' && s[k] != ',',
    ensures
        unmarked(s) == s,
    decreases s.len(),
{
    if s.len() > 0 {
        assert forall|k: int| 0 <= k < s.drop_last().len() implies #[trigger] s.drop_last()[k] != '$'
            && s.drop_last()[k] != ',' by {
            assert(s.drop_last()[k] == s[k]);
        }
        lemma_unmarked_plain(s.drop_last());
        assert(s[s.len() - 1] != '$');
        assert(s.drop_last().push(s.last()) =~= s);
    }
}

pub proof fn lemma_find_point(ds: Seq<char>, tail: Seq<char>)
    requires
        forall|k: int| 0 <= k < ds.len() ==> digit(#[trigger] ds[k]),
    ensures
        find(ds + seq!['.'] + tail, '.') == Some(ds.len() as int),
        find(ds, '.') is None,
{
    let b = ds + seq!['.'] + tail;
    lemma_find_facts(b, '.');
    lemma_find_facts(ds, '.');
    assert(b[ds.len() as int] == '.');
    match find(b, '.') {
        Some(i) => {
            if i < ds.len() {
                assert(b[i] == ds[i]);
                assert(digit(ds[i]));
            }
        },
        None => {},
    }
    match find(ds, '.') {
        Some(i) => {
            assert(digit(ds[i]));
        },
        None => {},
    }
}

pub proof fn lemma_pow10_add(a: nat, b: nat)
    ensures
        pow10(a) * pow10(b) == pow10(a + b),
    decreases b,
{
    if b > 0 {
        lemma_pow10_add(a, (b - 1) as nat);
        assert(pow10(a + b) == 10 * pow10((a + b - 1) as nat));
        assert(pow10(a) * pow10(b) == 10 * (pow10(a) * pow10((b - 1) as nat))) by (nonlinear_arith)
            requires
                pow10(b) == 10 * pow10((b - 1) as nat),
        ;
    }
}

proof fn lemma_whole_below_cap(v: int, d: nat)
    requires
        0 <= v < whole_cap() * 1_000_000_000,
        d <= 9,
    ensures
        pow10(d) > 0,
        pow10((9 - d) as nat) > 0,
        pow10(d) * pow10((9 - d) as nat) == 1_000_000_000,
        rounded(v, d) >= 0,
        rounded(v, d) == pow10(d) * (rounded(v, d) / pow10(d)) + rounded(v, d) % pow10(d),
        0 <= rounded(v, d) % pow10(d) < pow10(d),
        0 <= rounded(v, d) / pow10(d) <= whole_cap(),
{
    let units = rounded(v, d);
    let p = pow10(d);
    let t = pow10((9 - d) as nat);
    lemma_pow10_positive(d);
    lemma_pow10_positive((9 - d) as nat);
    lemma_pow10_add(d, (9 - d) as nat);
    lemma_pow10_values();
    lemma_fundamental_div_mod(v, t);
    lemma_mod_pos_bound(v, t);
    let q = v / t;
    assert(0 <= q < whole_cap() * p) by (nonlinear_arith)
        requires
            0 <= v < whole_cap() * 1_000_000_000,
            p * t == 1_000_000_000,
            t > 0,
            v == t * q + v % t,
            0 <= v % t < t,
    ;
    assert(q <= units <= q + 1);
    let whole = units / p;
    let frac = units % p;
    lemma_fundamental_div_mod(units, p);
    lemma_mod_pos_bound(units, p);
    assert(0 <= whole <= whole_cap()) by (nonlinear_arith)
        requires
            0 <= units <= whole_cap() * p,
            p > 0,
            units == p * whole + frac,
            0 <= frac < p,
    ;
}

/// Writing a number that is not negative, with a whole part below
/// `whole_cap`, and reading the written number back (without its `$` and
/// separators) as a decimal literal gives the number rounded to the places
/// that the format has (at most nine).
pub proof fn law_written_value_reads_back(v: int, f: NumberFormat)
    requires
        0 <= v < whole_cap() * 1_000_000_000,
    ensures
        decimal_syntax(unmarked(formatted_number(v, f))),
        literal_value(unmarked(formatted_number(v, f))) == rounded(v, rounding_places(f)) * pow10(
            (9 - rounding_places(f)) as nat,
        ),
{
    let d = rounding_places(f);
    let units = rounded(crate::number::magnitude(v), d);
    let p = pow10(d);
    let t = pow10((9 - d) as nat);
    lemma_whole_below_cap(v, d);
    let whole = units / p;
    let frac = units % p;
    let ds = decimal_digits(whole as nat);
    lemma_decimal_digits(whole as nat);
    law_grouping_keeps_digits(ds);
    lemma_padded_digits(frac as nat, d);
    lemma_padded_value(frac as nat, d);
    let num = if f.has_commas { grouped(ds) } else { ds };
    let pad = padded_digits(frac as nat, d);
    let tail = pad + zeros((f.decimal_places - d) as nat);
    let decimals = if f.decimal_places > 0 {
        seq!['.'] + pad + zeros((f.decimal_places - d) as nat)
    } else {
        Seq::<char>::empty()
    };
    let prefix = if f.has_dollar { seq!['$'] } else { Seq::<char>::empty() };
    let s = formatted_number(v, f);
    assert(s =~= Seq::<char>::empty() + prefix + num + decimals);
    assert(s =~= prefix + (num + decimals));
    lemma_unmarked_concat(prefix, num + decimals);
    lemma_unmarked_concat(num, decimals);
    assert(unmarked(prefix) =~= Seq::<char>::empty()) by {
        assert(unmarked(Seq::<char>::empty()) == Seq::<char>::empty());
        if f.has_dollar {
            assert(prefix.drop_last() =~= Seq::<char>::empty());
        }
    }
    assert(unmarked(num) == ds) by {
        if !f.has_commas {
            lemma_unmarked_plain(ds);
        }
    }
    assert forall|k: int| 0 <= k < tail.len() implies digit(#[trigger] tail[k]) by {
        if k < pad.len() {
            assert(tail[k] == pad[k]);
        } else {
            assert(tail[k] == '0');
        }
    }
    if f.decimal_places > 0 {
        assert(decimals =~= seq!['.'] + tail);
    }
    assert forall|k: int| 0 <= k < decimals.len() implies #[trigger] decimals[k] != '$' && decimals[k] != ',' by {
        if k > 0 {
            assert(decimals[k] == tail[k - 1]);
        }
    }
    lemma_unmarked_plain(decimals);
    let b = unmarked(s);
    assert(b =~= ds + decimals);
    assert(frac == frac % p) by {
        vstd::arithmetic::div_mod::lemma_small_mod(frac as nat, p as nat);
    }
    if f.decimal_places > 0 {
        assert(b =~= ds + seq!['.'] + tail);
        assert(nine_digits(tail) =~= pad + zeros((9 - d) as nat));
        lemma_literal_with_point(ds, tail, pad, (9 - d) as nat);
        assert(whole * 1_000_000_000 + frac * t == units * t) by (nonlinear_arith)
            requires
                units == p * whole + frac,
                p * t == 1_000_000_000,
        ;
    } else {
        assert(d == 0);
        assert(b =~= ds);
        lemma_literal_whole(ds);
    }
}

proof fn lemma_literal_with_point(ds: Seq<char>, tail: Seq<char>, pad: Seq<char>, z: nat)
    requires
        ds.len() > 0,
        forall|k: int| 0 <= k < ds.len() ==> digit(#[trigger] ds[k]),
        forall|k: int| 0 <= k < tail.len() ==> digit(#[trigger] tail[k]),
        nine_digits(tail) == pad + zeros(z),
    ensures
        decimal_syntax(ds + seq!['.'] + tail),
        literal_value(ds + seq!['.'] + tail) == digits_value(ds) * 1_000_000_000 + digits_value(pad)
            * pow10(z),
{
    let b = ds + seq!['.'] + tail;
    lemma_find_point(ds, tail);
    assert(point_at(b) == ds.len());
    assert(b.take(point_at(b)) =~= ds);
    assert(fraction_digits(b) =~= tail);
    lemma_zeros_value(pad, z);
    assert forall|k: int| 0 <= k < b.len() implies digit(#[trigger] b[k]) || b[k] == '.' by {
        if k < ds.len() {
            assert(b[k] == ds[k]);
        } else if k > ds.len() {
            assert(b[k] == tail[k - ds.len() - 1]);
        }
    }
    assert(digit(b[0])) by {
        assert(b[0] == ds[0]);
    }
    assert forall|j: int, k: int| 0 <= j < k < b.len() && #[trigger] b[j] == '.' implies #[trigger] b[k] != '.' by {
        if j < ds.len() {
            assert(b[j] == ds[j]);
            assert(digit(ds[j]));
        } else {
            assert(j == ds.len());
            assert(b[k] == tail[k - ds.len() - 1]);
            assert(digit(tail[k - ds.len() - 1]));
        }
    }
}

pub proof fn lemma_literal_whole(ds: Seq<char>)
    requires
        ds.len() > 0,
        forall|k: int| 0 <= k < ds.len() ==> digit(#[trigger] ds[k]),
    ensures
        decimal_syntax(ds),
        literal_value(ds) == digits_value(ds) * 1_000_000_000,
{
    lemma_find_point(ds, Seq::<char>::empty());
    assert(point_at(ds) == ds.len());
    assert(ds.take(point_at(ds)) =~= ds);
    assert(fraction_digits(ds) =~= Seq::<char>::empty());
    assert(nine_digits(Seq::<char>::empty()) =~= Seq::<char>::empty() + zeros(9));
    lemma_zeros_value(Seq::<char>::empty(), 9);
    assert(digits_value(Seq::<char>::empty()) == 0);
    assert(digit(ds[0]));
    assert forall|j: int, k: int| 0 <= j < k < ds.len() && #[trigger] ds[j] == '.' implies #[trigger] ds[k] != '.' by {
        assert(digit(ds[j]));
    }
    lemma_pow10_values();
}

proof fn lemma_cleaned_concat(a: Seq<char>, b: Seq<char>)
    ensures
        cleaned(a + b) == cleaned(a) + cleaned(b),
    decreases b.len(),
{
    if b.len() == 0 {
        assert(a + b =~= a);
        assert(cleaned(a) + cleaned(b) =~= cleaned(a));
    } else {
        lemma_cleaned_concat(a, b.drop_last());
        assert((a + b).drop_last() =~= a + b.drop_last());
        assert((a + b).last() == b.last());
        if kept(b.last()) {
            assert(cleaned(a) + cleaned(b.drop_last()).push(b.last()) =~= (cleaned(a) + cleaned(
                b.drop_last(),
            )).push(b.last()));
        }
    }
}

proof fn lemma_cleaned_blank(w: Seq<char>)
    requires
        forall|k: int| 0 <= k < w.len() ==> whitespace(#[trigger] w[k]),
    ensures
        cleaned(w) == Seq::<char>::empty(),
    decreases w.len(),
{
    if w.len() > 0 {
        assert forall|k: int| 0 <= k < w.drop_last().len() implies whitespace(#[trigger] w.drop_last()[k]) by {
            assert(w.drop_last()[k] == w[k]);
        }
        lemma_cleaned_blank(w.drop_last());
        assert(whitespace(w[w.len() - 1]));
    }
}

proof fn lemma_cleaned_trim(s: Seq<char>)
    ensures
        cleaned(trim(s)) == cleaned(s),
{
    let a = first_kept(s, 0);
    let b = last_kept_end(s, s.len() as int);
    lemma_first_kept_bounds(s, 0);
    lemma_last_kept_bounds(s, s.len() as int);
    if a < b {
        let head = s.subrange(0, a);
        let mid = s.subrange(a, b);
        let tail = s.subrange(b, s.len() as int);
        assert(s =~= head + mid + tail);
        assert forall|k: int| 0 <= k < head.len() implies whitespace(#[trigger] head[k]) by {
            assert(head[k] == s[k]);
        }
        assert forall|k: int| 0 <= k < tail.len() implies whitespace(#[trigger] tail[k]) by {
            assert(tail[k] == s[b + k]);
        }
        lemma_cleaned_blank(head);
        lemma_cleaned_blank(tail);
        lemma_cleaned_concat(head + mid, tail);
        lemma_cleaned_concat(head, mid);
        assert(Seq::<char>::empty() + cleaned(mid) + Seq::<char>::empty() =~= cleaned(mid));
    } else {
        assert forall|k: int| 0 <= k < s.len() implies whitespace(#[trigger] s[k]) by {
            if k < a {
            } else {
                assert(b <= k);
            }
        }
        lemma_cleaned_blank(s);
        lemma_cleaned_blank(Seq::<char>::empty());
    }
}

proof fn lemma_cleaned_unmarked(s: Seq<char>)
    ensures
        cleaned(unmarked(s)) == cleaned(s),
    decreases s.len(),
{
    if s.len() > 0 {
        lemma_cleaned_unmarked(s.drop_last());
        if s.last() == '$' || s.last() == ',' {
        } else {
            let u = unmarked(s.drop_last());
            assert(unmarked(s) == u.push(s.last()));
            assert(u.push(s.last()).drop_last() =~= u);
        }
    }
}

/// A `$` and thousands separators never change what a written number reads
/// as: without them it is read from the same digits, so it reads as a
/// number exactly when it did, with the same value and the same decimal
/// places.
pub proof fn law_marks_keep_value(s: Seq<char>)
    ensures
        cleaned(trim(unmarked(s))) == cleaned(trim(s)),
        (format_of(unmarked(s)) is Some) == (format_of(s) is Some),
        format_of(s) matches Some(f) ==> (format_of(unmarked(s)) matches Some(g) && g.decimal_places
            == f.decimal_places),
        parsed_value(unmarked(s)) == parsed_value(s),
{
    lemma_cleaned_trim(s);
    lemma_cleaned_trim(unmarked(s));
    lemma_cleaned_unmarked(s);
}

proof fn lemma_trim_plain(s: Seq<char>)
    requires
        s.len() > 0,
        !whitespace(s[0]),
        !whitespace(s[s.len() - 1]),
    ensures
        trim(s) == s,
{
    assert(first_kept(s, 0) == 0);
    assert(last_kept_end(s, s.len() as int) == s.len());
    assert(s.subrange(0, s.len() as int) =~= s);
}

proof fn lemma_cleaned_no_space(s: Seq<char>)
    requires
        forall|k: int| 0 <= k < s.len() ==> !whitespace(#[trigger] s[k]),
    ensures
        cleaned(s) == unmarked(s),
    decreases s.len(),
{
    if s.len() > 0 {
        assert forall|k: int| 0 <= k < s.drop_last().len() implies !whitespace(#[trigger] s.drop_last()[k]) by {
            assert(s.drop_last()[k] == s[k]);
        }
        lemma_cleaned_no_space(s.drop_last());
        assert(!whitespace(s[s.len() - 1]));
    }
}

proof fn lemma_digits_len(n: nat, k: nat)
    requires
        k >= 1,
    ensures
        (decimal_digits(n).len() > k) == (n >= pow10(k)),
    decreases k,
{
    lemma_pow10_positive((k - 1) as nat);
    assert(pow10(k) == 10 * pow10((k - 1) as nat));
    if n >= 10 {
        assert(decimal_digits(n).len() == decimal_digits(n / 10).len() + 1);
        lemma_decimal_digits(n / 10);
        if k > 1 {
            lemma_digits_len(n / 10, (k - 1) as nat);
            let p = pow10((k - 1) as nat);
            lemma_fundamental_div_mod(n as int, 10);
            lemma_mod_pos_bound(n as int, 10);
            assert((n / 10 >= p) == (n >= 10 * p)) by (nonlinear_arith)
                requires
                    n == 10 * (n / 10) + n % 10,
                    0 <= n % 10 < 10,
            ;
        }
    }
}

proof fn lemma_grouped_no_comma(ds: Seq<char>, k: int)
    requires
        0 <= k <= ds.len() <= 3,
        forall|m: int| 0 <= m < ds.len() ==> digit(#[trigger] ds[m]),
    ensures
        !grouped_prefix(ds, k).contains(','),
    decreases k,
{
    if k > 0 {
        lemma_grouped_no_comma(ds, k - 1);
        let prev = grouped_prefix(ds, k - 1);
        let g = grouped_prefix(ds, k);
        assert(g =~= prev + seq![ds[k - 1]]);
        if g.contains(',') {
            let m = choose|m: int| 0 <= m < g.len() && g[m] == ',';
            if m < prev.len() {
                assert(prev[m] == ',');
            } else {
                assert(digit(ds[k - 1]));
            }
        }
    }
}

proof fn lemma_grouped_comma(ds: Seq<char>, k: int)
    requires
        ds.len() >= 4,
        ds.len() - 2 <= k <= ds.len(),
    ensures
        grouped_prefix(ds, k).contains(','),
    decreases k,
{
    let prev = grouped_prefix(ds, k - 1);
    let g = grouped_prefix(ds, k);
    if k == ds.len() - 2 {
        assert(g =~= prev + seq![','] + seq![ds[k - 1]]);
        assert(g[prev.len() as int] == ',');
    } else {
        lemma_grouped_comma(ds, k - 1);
        let m = choose|m: int| 0 <= m < prev.len() && prev[m] == ',';
        let comma = if k - 1 > 0 && (ds.len() - (k - 1)) % 3 == 0 {
            seq![',']
        } else {
            Seq::<char>::empty()
        };
        assert(g == prev + comma + seq![ds[k - 1]]);
        assert(g[m] == prev[m]);
    }
}

proof fn lemma_written_commas(
    prefix: Seq<char>,
    num: Seq<char>,
    decimals: Seq<char>,
    ds: Seq<char>,
    commas: bool,
    w: nat,
)
    requires
        forall|k: int| 0 <= k < prefix.len() ==> #[trigger] prefix[k] != ',',
        forall|k: int| 0 <= k < decimals.len() ==> #[trigger] decimals[k] != ',',
        ds == decimal_digits(w),
        num == (if commas { grouped(ds) } else { ds }),
    ensures
        (prefix + num + decimals).contains(',') == (commas && w >= 1000),
{
    let s = prefix + num + decimals;
    lemma_decimal_digits(w);
    assert(pow10(3) == 1000) by {
        reveal_with_fuel(pow10, 4);
    }
    lemma_digits_len(w, 3);
    if commas && w >= 1000 {
        lemma_grouped_comma(ds, ds.len() as int);
        let m = choose|m: int| 0 <= m < num.len() && num[m] == ',';
        assert(s[prefix.len() + m] == ',');
    }
    if s.contains(',') {
        let m = choose|m: int| 0 <= m < s.len() && s[m] == ',';
        if m < prefix.len() {
            assert(s[m] == prefix[m]);
        } else if m < prefix.len() + num.len() {
            assert(s[m] == num[m - prefix.len()]);
            if !commas {
                assert(digit(ds[m - prefix.len()]));
            } else if w < 1000 {
                lemma_grouped_no_comma(ds, ds.len() as int);
                assert(grouped(ds).contains(','));
            }
        } else {
            assert(s[m] == decimals[m - prefix.len() - num.len()]);
        }
    }
}

/// Reading back a written number that is not negative, with a whole part
/// below `whole_cap`, gives the number rounded to the places that the format
/// has (at most nine), and the format itself, but for separators, which are
/// read only where the whole part has four digits or more.
#[verifier::rlimit(60)]
pub proof fn law_parse_reads_written(v: int, f: NumberFormat)
    requires
        0 <= v < whole_cap() * 1_000_000_000,
    ensures
        ({
            let s = formatted_number(v, f);
            let d = rounding_places(f);
            let w = rounded(v, d) / pow10(d);
            &&& format_of(s) == Some(
                NumberFormat {
                    has_dollar: f.has_dollar,
                    has_commas: f.has_commas && w >= 1000,
                    decimal_places: f.decimal_places,
                },
            )
            &&& parsed_value(s) == SpecValue::Finite(rounded(v, d) * pow10((9 - d) as nat))
        }),
{
    law_written_value_reads_back(v, f);
    let d = rounding_places(f);
    let units = rounded(crate::number::magnitude(v), d);
    let p = pow10(d);
    let t = pow10((9 - d) as nat);
    lemma_whole_below_cap(v, d);
    let whole = units / p;
    let frac = units % p;
    let ds = decimal_digits(whole as nat);
    lemma_decimal_digits(whole as nat);
    lemma_grouped_prefix(ds, ds.len() as int);
    lemma_padded_digits(frac as nat, d);
    let num = if f.has_commas { grouped(ds) } else { ds };
    let pad = padded_digits(frac as nat, d);
    let tail = pad + zeros((f.decimal_places - d) as nat);
    let decimals = if f.decimal_places > 0 {
        seq!['.'] + pad + zeros((f.decimal_places - d) as nat)
    } else {
        Seq::<char>::empty()
    };
    let prefix = if f.has_dollar { seq!['$'] } else { Seq::<char>::empty() };
    let s = formatted_number(v, f);
    assert(s =~= prefix + num + decimals);
    assert forall|k: int| 0 <= k < tail.len() implies digit(#[trigger] tail[k]) by {
        if k < pad.len() {
            assert(tail[k] == pad[k]);
        } else {
            assert(tail[k] == '0');
        }
    }
    if f.decimal_places > 0 {
        assert(decimals =~= seq!['.'] + tail);
    }
    assert(num.len() > 0 && digit(num[0]));
    // every character is a `$`, a digit, a comma or a point
    assert forall|k: int| 0 <= k < s.len() implies #[trigger] s[k] == '$' || digit(s[k]) || s[k] == ','
        || s[k] == '.' by {
        if k < prefix.len() {
        } else if k < prefix.len() + num.len() {
            assert(s[k] == num[k - prefix.len()]);
        } else {
            assert(s[k] == decimals[k - prefix.len() - num.len()]);
            if k - prefix.len() - num.len() > 0 {
                assert(decimals[k - prefix.len() - num.len()] == tail[k - prefix.len() - num.len() - 1]);
            }
        }
    }
    assert forall|k: int| 0 <= k < s.len() implies !whitespace(#[trigger] s[k]) by {
        assert(s[k] == '$' || digit(s[k]) || s[k] == ',' || s[k] == '.');
    }
    lemma_trim_plain(s);
    lemma_cleaned_no_space(s);
    let c = cleaned(trim(s));
    assert(c == unmarked(s));
    // the cleaned text is the digits of the whole part and the decimals
    lemma_unmarked_concat(prefix, num + decimals);
    lemma_unmarked_concat(num, decimals);
    assert(s =~= prefix + (num + decimals));
    assert(unmarked(prefix) =~= Seq::<char>::empty()) by {
        assert(unmarked(Seq::<char>::empty()) == Seq::<char>::empty());
        if f.has_dollar {
            assert(prefix.drop_last() =~= Seq::<char>::empty());
        }
    }
    assert(unmarked(num) == ds) by {
        law_grouping_keeps_digits(ds);
        if !f.has_commas {
            lemma_unmarked_plain(ds);
        }
    }
    assert forall|k: int| 0 <= k < decimals.len() implies #[trigger] decimals[k] != '$' && decimals[k] != ',' by {
        if k > 0 {
            assert(decimals[k] == tail[k - 1]);
        }
    }
    lemma_unmarked_plain(decimals);
    assert(c =~= ds + decimals);
    assert(c[0] == ds[0]);
    assert(sign_len(c) == 0);
    assert(unsigned_part(c) =~= c);
    // its decimal places
    if f.decimal_places > 0 {
        lemma_find_point(ds, tail);
        assert(c =~= ds + seq!['.'] + tail);
        assert(places(c) == f.decimal_places);
    } else {
        lemma_find_point(ds, Seq::<char>::empty());
        assert(c =~= ds);
        assert(places(c) == 0);
    }
    // its `$`
    let tt = trim(s);
    if f.has_dollar {
        assert(tt[0] == '$');
    } else {
        assert(tt[0] == num[0]);
    }
    // its separators
    assert forall|k: int| 0 <= k < decimals.len() implies #[trigger] decimals[k] != ',' by {}
    lemma_written_commas(prefix, num, decimals, ds, f.has_commas, whole as nat);
    assert forall|k: int| 0 <= k < c.len() implies #[trigger] c[k] != 'e' && c[k] != 'E' by {
        if k < ds.len() {
            assert(c[k] == ds[k]);
        } else {
            assert(c[k] == decimals[k - ds.len()]);
            if k > ds.len() {
                assert(decimals[k - ds.len()] == tail[k - ds.len() - 1]);
            }
        }
    }
    lemma_no_mark(c);
    assert(small_letter(c[0]) == c[0]);
    assert(!crate::format::spells_folded(c, "inf"@)) by {
        reveal_strlit("inf");
    }
    assert(!crate::format::spells_folded(c, "infinity"@)) by {
        reveal_strlit("infinity");
    }
    assert(!crate::format::spells_folded(c, "nan"@)) by {
        reveal_strlit("nan");
    }
    crate::number::lemma_limit_large();
    crate::literal::lemma_literal_value_nonneg(unmarked(s));
    assert(units * t < 0x1_0000_0000_0000_0000_0000_0000_0000_0000 * 1_000_000_000) by (nonlinear_arith)
        requires
            units == p * whole + frac,
            0 <= frac < p,
            0 <= whole <= whole_cap(),
            p * t == 1_000_000_000,
            p > 0,
            t > 0,
    ;
    assert(literal_value(unmarked(s)) < crate::number::limit());
    assert(unsigned_part(c) == c);
    assert(crate::format::special(unsigned_part(c)) is None);
    assert(parsed_value(s) == SpecValue::Finite(literal_value(unmarked(s))));
}

proof fn lemma_skip_class_run(s: Seq<char>, i: int, t: CharType)
    requires
        0 <= i <= s.len(),
    ensures
        i <= skip_class(s, i, t) <= s.len(),
        forall|k: int| i <= k < skip_class(s, i, t) ==> char_type(#[trigger] s[k]) == t && !whitespace(s[k]),
        skip_class(s, i, t) < s.len() ==> !(char_type(s[skip_class(s, i, t)]) == t && !whitespace(
            s[skip_class(s, i, t)],
        )),
    decreases s.len() - i,
{
    if i < s.len() && char_type(s[i]) == t && !whitespace(s[i]) {
        lemma_skip_class_run(s, i + 1, t);
    }
}

proof fn lemma_skip_class_back_run(s: Seq<char>, c: int, e: int, t: CharType)
    requires
        0 <= c <= e <= s.len(),
        forall|k: int| c <= k < e ==> char_type(#[trigger] s[k]) == t && !whitespace(s[k]),
        c == 0 || whitespace(s[c - 1]) || char_type(s[c - 1]) != t,
    ensures
        skip_class_back(s, e, t) == c,
    decreases e - c,
{
    if c < e {
        lemma_skip_class_back_run(s, c, e - 1, t);
    }
}

proof fn lemma_skip_space_run(s: Seq<char>, i: int)
    requires
        0 <= i <= s.len(),
    ensures
        i <= skip_space(s, i) <= s.len(),
        forall|k: int| i <= k < skip_space(s, i) ==> whitespace(#[trigger] s[k]),
        skip_space(s, i) < s.len() ==> !whitespace(s[skip_space(s, i)]),
    decreases s.len() - i,
{
    if i < s.len() && whitespace(s[i]) {
        lemma_skip_space_run(s, i + 1);
    }
}

proof fn lemma_skip_space_back_run(s: Seq<char>, i: int)
    requires
        0 <= i <= s.len(),
    ensures
        0 <= skip_space_back(s, i) <= i,
        forall|k: int| skip_space_back(s, i) <= k < i ==> whitespace(#[trigger] s[k]),
        skip_space_back(s, i) > 0 ==> !whitespace(s[skip_space_back(s, i) - 1]),
    decreases i,
{
    if i > 0 && whitespace(s[i - 1]) {
        lemma_skip_space_back_run(s, i - 1);
    }
}

proof fn lemma_skip_class_back_bounds(s: Seq<char>, i: int, t: CharType)
    requires
        0 <= i <= s.len(),
    ensures
        0 <= skip_class_back(s, i, t) <= i,
        forall|k: int| skip_class_back(s, i, t) <= k < i ==> char_type(#[trigger] s[k]) == t && !whitespace(s[k]),
        skip_class_back(s, i, t) > 0 ==> (whitespace(s[skip_class_back(s, i, t) - 1]) || char_type(
            s[skip_class_back(s, i, t) - 1],
        ) != t),
    decreases i,
{
    if i > 0 && char_type(s[i - 1]) == t && !whitespace(s[i - 1]) {
        lemma_skip_class_back_bounds(s, i - 1, t);
    }
}

/// Moving forward from `c` ends a token: past the whitespace after `c`, a
/// run of characters of one class that is followed by the end of the line,
/// by whitespace or by a character of another class; at the end of the line
/// when only whitespace follows.
pub proof fn law_next_boundary_ends_token(s: Seq<char>, c: int)
    requires
        0 <= c < s.len(),
    ensures
        c <= next_boundary(s, c) <= s.len(),
        (forall|k: int| c <= k < s.len() ==> whitespace(#[trigger] s[k])) ==> next_boundary(s, c) == s.len(),
        !(forall|k: int| c <= k < s.len() ==> whitespace(#[trigger] s[k])) ==> exists|i: int|
            #![trigger s[i]]
            {
                let e = next_boundary(s, c);
                &&& c <= i < e
                &&& forall|k: int| c <= k < i ==> whitespace(#[trigger] s[k])
                &&& forall|k: int| i <= k < e ==> char_type(#[trigger] s[k]) == char_type(s[i]) && !whitespace(s[k])
                &&& (e == s.len() || whitespace(s[e]) || char_type(s[e]) != char_type(s[i]))
            },
{
    lemma_skip_space_run(s, c);
    let i = skip_space(s, c);
    if i < s.len() {
        let t = char_type(s[i]);
        lemma_skip_class_run(s, i, t);
        assert(skip_class(s, i, t) == skip_class(s, i + 1, t));
        lemma_skip_class_run(s, i + 1, t);
        let e = skip_class(s, i, t);
        assert(e == next_boundary(s, c));
        assert(!(forall|k: int| c <= k < s.len() ==> whitespace(#[trigger] s[k])));
        if e < s.len() {
            assert(!(char_type(s[e]) == t && !whitespace(s[e])));
        }
        assert(c <= i < e);
    } else {
        assert(forall|k: int| c <= k < s.len() ==> whitespace(#[trigger] s[k]));
    }
}

/// Moving back from `c` starts a token: before the whitespace before `c`, a
/// run of characters of one class that follows the start of the line,
/// whitespace or a character of another class; at the start of the line
/// when only whitespace comes before.
pub proof fn law_prev_boundary_starts_token(s: Seq<char>, c: int)
    requires
        0 < c <= s.len(),
    ensures
        0 <= prev_boundary(s, c) <= c,
        (forall|k: int| 0 <= k < c ==> whitespace(#[trigger] s[k])) ==> prev_boundary(s, c) == 0,
        !(forall|k: int| 0 <= k < c ==> whitespace(#[trigger] s[k])) ==> exists|j: int|
            #![trigger s[j - 1]]
            {
                let b = prev_boundary(s, c);
                &&& b < j <= c
                &&& forall|k: int| j <= k < c ==> whitespace(#[trigger] s[k])
                &&& forall|k: int| b <= k < j ==> char_type(#[trigger] s[k]) == char_type(s[j - 1]) && !whitespace(s[k])
                &&& (b == 0 || whitespace(s[b - 1]) || char_type(s[b - 1]) != char_type(s[j - 1]))
            },
{
    lemma_skip_space_back_run(s, c);
    let j = skip_space_back(s, c);
    if j > 0 {
        let t = char_type(s[j - 1]);
        lemma_skip_class_back_bounds(s, j, t);
        assert(skip_class_back(s, j, t) == skip_class_back(s, j - 1, t));
        lemma_skip_class_back_bounds(s, j - 1, t);
        let b = skip_class_back(s, j, t);
        assert(b == prev_boundary(s, c));
        assert(!(forall|k: int| 0 <= k < c ==> whitespace(#[trigger] s[k])));
        assert(b < j <= c);
    } else {
        assert(forall|k: int| 0 <= k < c ==> whitespace(#[trigger] s[k]));
    }
}

/// Moving forward over a token from where it starts, and back again,
/// returns to its start.
pub proof fn law_token_forward_then_back(s: Seq<char>, c: int)
    requires
        0 <= c < s.len(),
        !whitespace(s[c]),
        c == 0 || whitespace(s[c - 1]) || char_type(s[c - 1]) != char_type(s[c]),
    ensures
        c < next_boundary(s, c),
        prev_boundary(s, next_boundary(s, c)) == c,
{
    let t = char_type(s[c]);
    assert(skip_space(s, c) == c);
    lemma_skip_class_run(s, c, t);
    let e = next_boundary(s, c);
    assert(e == skip_class(s, c, t));
    assert(c < e) by {
        assert(skip_class(s, c, t) == skip_class(s, c + 1, t));
        lemma_skip_class_run(s, c + 1, t);
    }
    assert(char_type(s[e - 1]) == t && !whitespace(s[e - 1]));
    assert(skip_space_back(s, e) == e);
    lemma_skip_class_back_run(s, c, e, t);
}

} // verus!
