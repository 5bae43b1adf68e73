use vstd::prelude::*;

use crate::digit_run_end;
use crate::digit_val;
use crate::fold_digits_mod;
use crate::is_digit_char;
use crate::is_space_char;
use crate::lex_step;
use crate::number_value;
use crate::skip_ws_from;
use crate::tokens_from;
use crate::lemma_digit_run_end_bounds;
use crate::lemma_skip_ws_bounds;
use crate::tokens::Token;

verus! {

/// Tokenization is deterministic: any two token sequences obtained from the
/// same input are identical.
pub proof fn lemma_tokenization_deterministic(
    s: Seq<char>,
    r1: Option<Seq<Token>>,
    r2: Option<Seq<Token>>,
)
    requires
        r1 == tokens_from(s, 0),
        r2 == tokens_from(s, 0),
    ensures
        r1 == r2,
{
}

/// Every successful tokenization, of however short an input, ends with
/// exactly one `EOF`: the last token is `EOF` and no earlier token is.
pub proof fn lemma_tokens_terminated(s: Seq<char>)
    ensures
        match tokens_from(s, 0) {
            Some(ts) => ts.len() >= 1 && ts[ts.len() - 1] == Token::EOF && (forall|i: int|
                0 <= i < ts.len() - 1 ==> ts[i] != Token::EOF),
            None => true,
        },
{
    lemma_tokens_from_terminated(s, 0);
}

/// Once the cursor has passed the end of the input and `EOF` has been
/// returned, every further step yields nothing, not a second `EOF`.
pub proof fn lemma_no_token_after_eof(s: Seq<char>, pos: int)
    requires
        pos == s.len(),
    ensures
        lex_step(s, pos, true).0 is None,
{
}

proof fn lemma_tokens_from_terminated(s: Seq<char>, pos: int)
    requires
        0 <= pos <= s.len(),
    ensures
        match tokens_from(s, pos) {
            Some(ts) => ts.len() >= 1 && ts[ts.len() - 1] == Token::EOF && (forall|i: int|
                0 <= i < ts.len() - 1 ==> ts[i] != Token::EOF),
            None => true,
        },
    decreases s.len() - pos,
{
    lemma_skip_ws_bounds(s, pos);
    let p = skip_ws_from(s, pos);
    let step = lex_step(s, pos, false);
    if step.0 is Some && step.0->Some_0 != Token::EOF {
        if p < s.len() && is_digit_char(s[p]) {
            lemma_digit_run_end_bounds(s, p + 1);
            assert(digit_run_end(s, p) == digit_run_end(s, p + 1));
        }
        lemma_tokens_from_terminated(s, step.1);
        if tokens_from(s, step.1) is Some {
            let tok = step.0->Some_0;
            let rest = tokens_from(s, step.1)->Some_0;
            let ts = seq![tok] + rest;
            assert(ts[ts.len() - 1] == rest[rest.len() - 1]);
            assert forall|i: int| 0 <= i < ts.len() - 1 implies ts[i] != Token::EOF by {
                if i > 0 {
                    assert(ts[i] == rest[i - 1]);
                }
            }
        }
    }
}

/// Skipping whitespace lands at the same place from anywhere inside the
/// run: stepping over one leading whitespace character changes nothing of
/// the tokenization.
proof fn lemma_tokens_skip_step(u: Seq<char>, pos: int)
    requires
        0 <= pos < u.len(),
        is_space_char(u[pos]),
    ensures
        tokens_from(u, pos) == tokens_from(u, pos + 1),
{
    assert(skip_ws_from(u, pos) == skip_ws_from(u, pos + 1));
    lemma_skip_ws_bounds(u, pos + 1);
    let p = skip_ws_from(u, pos);
    assert(lex_step(u, pos, false) == lex_step(u, pos + 1, false));
    if p < u.len() && is_digit_char(u[p]) {
        lemma_digit_run_end_bounds(u, p + 1);
        assert(digit_run_end(u, p) == digit_run_end(u, p + 1));
    }
}

/// Inserting a character shifts every position at or after the insertion
/// point by one; whitespace skipping in the suffix shifts with it.
proof fn lemma_skip_ws_insert_suffix(s: Seq<char>, i: int, c: char, pos: int)
    requires
        0 <= i <= pos <= s.len(),
    ensures
        skip_ws_from(s.insert(i, c), pos + 1) == skip_ws_from(s, pos) + 1,
    decreases s.len() - pos,
{
    s.insert_ensures(i, c);
    if pos < s.len() && is_space_char(s[pos]) {
        lemma_skip_ws_insert_suffix(s, i, c, pos + 1);
    }
}

/// Digit runs in the suffix shift with the insertion point as well.
proof fn lemma_digit_run_insert_suffix(s: Seq<char>, i: int, c: char, pos: int)
    requires
        0 <= i <= pos <= s.len(),
    ensures
        digit_run_end(s.insert(i, c), pos + 1) == digit_run_end(s, pos) + 1,
    decreases s.len() - pos,
{
    s.insert_ensures(i, c);
    if pos < s.len() && is_digit_char(s[pos]) {
        lemma_digit_run_insert_suffix(s, i, c, pos + 1);
    }
}

/// Digit folding over a shifted suffix range folds the same digits.
proof fn lemma_fold_insert_suffix(s: Seq<char>, i: int, c: char, pos: int, end: int, acc: int)
    requires
        0 <= i <= pos <= end <= s.len(),
    ensures
        fold_digits_mod(s.insert(i, c), pos + 1, end + 1, acc) == fold_digits_mod(
            s,
            pos,
            end,
            acc,
        ),
    decreases end - pos,
{
    s.insert_ensures(i, c);
    if pos < end {
        lemma_fold_insert_suffix(
            s,
            i,
            c,
            pos + 1,
            end,
            (acc * 10 + digit_val(s[pos])) % 0x1_0000_0000,
        );
    }
}

/// Tokenization of the part after the insertion point is unchanged, read
/// one position later.
proof fn lemma_tokens_insert_suffix(s: Seq<char>, i: int, c: char, pos: int)
    requires
        0 <= i <= pos <= s.len(),
    ensures
        tokens_from(s.insert(i, c), pos + 1) == tokens_from(s, pos),
    decreases s.len() - pos,
{
    let s2 = s.insert(i, c);
    s.insert_ensures(i, c);
    lemma_skip_ws_bounds(s, pos);
    lemma_skip_ws_insert_suffix(s, i, c, pos);
    let p = skip_ws_from(s, pos);
    if p < s.len() {
        assert(s2[p + 1] == s[p]);
        if is_digit_char(s[p]) {
            lemma_digit_run_end_bounds(s, p + 1);
            assert(digit_run_end(s, p) == digit_run_end(s, p + 1));
            let e = digit_run_end(s, p);
            lemma_digit_run_insert_suffix(s, i, c, p);
            lemma_fold_insert_suffix(s, i, c, p, e, 0);
            assert(number_value(s2, p + 1, e + 1) == number_value(s, p, e));
            lemma_tokens_insert_suffix(s, i, c, e);
        } else {
            lemma_tokens_insert_suffix(s, i, c, p + 1);
        }
    }
}

/// Every character strictly inside a digit run is a digit.
proof fn lemma_digit_run_all_digits(s: Seq<char>, pos: int)
    requires
        0 <= pos <= s.len(),
    ensures
        forall|k: int| pos <= k < digit_run_end(s, pos) ==> is_digit_char(s[k]),
    decreases s.len() - pos,
{
    if pos < s.len() && is_digit_char(s[pos]) {
        lemma_digit_run_all_digits(s, pos + 1);
    }
}

/// Before the insertion point, whitespace skipping is unchanged while it
/// stops short of the point, and gains one step when it reaches it.
proof fn lemma_skip_ws_insert_prefix(s: Seq<char>, i: int, c: char, pos: int)
    requires
        0 <= pos <= i <= s.len(),
        is_space_char(c),
    ensures
        skip_ws_from(s.insert(i, c), pos) == (if skip_ws_from(s, pos) < i {
            skip_ws_from(s, pos)
        } else {
            skip_ws_from(s, pos) + 1
        }),
    decreases s.len() - pos,
{
    let s2 = s.insert(i, c);
    s.insert_ensures(i, c);
    if pos == i {
        assert(skip_ws_from(s2, i) == skip_ws_from(s2, i + 1));
        lemma_skip_ws_insert_suffix(s, i, c, i);
        lemma_skip_ws_bounds(s, i);
    } else {
        if is_space_char(s[pos]) {
            lemma_skip_ws_insert_prefix(s, i, c, pos + 1);
        } else {
            lemma_skip_ws_bounds(s, pos);
        }
    }
}

/// Before the insertion point, a digit run is unchanged: it can never cross
/// the point, because the inserted character is not a digit.
proof fn lemma_digit_run_insert_prefix(s: Seq<char>, i: int, c: char, pos: int)
    requires
        0 <= pos <= i <= s.len(),
        !is_digit_char(c),
    ensures
        digit_run_end(s.insert(i, c), pos) == (if digit_run_end(s, pos) <= i {
            digit_run_end(s, pos)
        } else {
            i
        }),
    decreases i - pos,
{
    let s2 = s.insert(i, c);
    s.insert_ensures(i, c);
    if pos == i {
        lemma_digit_run_end_bounds(s, i);
    } else {
        if is_digit_char(s[pos]) {
            lemma_digit_run_insert_prefix(s, i, c, pos + 1);
        } else {
            lemma_digit_run_end_bounds(s, pos);
        }
    }
}

/// Digit folding over a range that stays before the insertion point reads
/// the same characters.
proof fn lemma_fold_insert_prefix(s: Seq<char>, i: int, c: char, pos: int, end: int, acc: int)
    requires
        0 <= pos <= end <= i <= s.len(),
    ensures
        fold_digits_mod(s.insert(i, c), pos, end, acc) == fold_digits_mod(s, pos, end, acc),
    decreases end - pos,
{
    s.insert_ensures(i, c);
    if pos < end {
        lemma_fold_insert_prefix(
            s,
            i,
            c,
            pos + 1,
            end,
            (acc * 10 + digit_val(s[pos])) % 0x1_0000_0000,
        );
    }
}

/// Inserting one whitespace character anywhere that does not split a digit
/// run leaves the token sequence unchanged, reading from any position at or
/// before the insertion point.
proof fn lemma_tokens_insert_prefix(s: Seq<char>, i: int, c: char, pos: int)
    requires
        0 <= pos <= i <= s.len(),
        is_space_char(c),
        !(0 < i && i < s.len() && is_digit_char(s[i - 1]) && is_digit_char(s[i])),
    ensures
        tokens_from(s.insert(i, c), pos) == tokens_from(s, pos),
    decreases s.len() - pos,
{
    let s2 = s.insert(i, c);
    s.insert_ensures(i, c);
    assert(!is_digit_char(c));
    if pos == i {
        lemma_tokens_skip_step(s2, i);
        lemma_tokens_insert_suffix(s, i, c, i);
    } else {
        lemma_skip_ws_bounds(s, pos);
        let p = skip_ws_from(s, pos);
        if p > pos {
            assert(is_space_char(s[pos]));
            lemma_tokens_skip_step(s, pos);
            lemma_tokens_skip_step(s2, pos);
            lemma_tokens_insert_prefix(s, i, c, pos + 1);
        } else {
            assert(p == pos);
            lemma_skip_ws_insert_prefix(s, i, c, pos);
            assert(skip_ws_from(s2, pos) == pos);
            assert(s2[pos] == s[pos]);
            if is_digit_char(s[pos]) {
                lemma_digit_run_end_bounds(s, pos + 1);
                assert(digit_run_end(s, pos) == digit_run_end(s, pos + 1));
                let e = digit_run_end(s, pos);
                if e > i {
                    lemma_digit_run_all_digits(s, pos);
                    assert(is_digit_char(s[i - 1]) && is_digit_char(s[i]));
                    assert(false);
                }
                lemma_digit_run_insert_prefix(s, i, c, pos);
                assert(digit_run_end(s2, pos) == e);
                lemma_fold_insert_prefix(s, i, c, pos, e, 0);
                assert(number_value(s2, pos, e) == number_value(s, pos, e));
                lemma_tokens_insert_prefix(s, i, c, e);
            } else {
                if pos + 1 <= i {
                    lemma_tokens_insert_prefix(s, i, c, pos + 1);
                }
            }
        }
    }
}

/// Whitespace insensitivity: inserting one whitespace character at any
/// position that does not split a digit run leaves the token sequence of
/// the input unchanged, token for token. (Splitting a digit run genuinely
/// changes the tokens: one number becomes two.)
pub proof fn lemma_whitespace_insertion(s: Seq<char>, i: int, c: char)
    requires
        0 <= i <= s.len(),
        is_space_char(c),
        !(0 < i && i < s.len() && is_digit_char(s[i - 1]) && is_digit_char(s[i])),
    ensures
        tokens_from(s.insert(i, c), 0) == tokens_from(s, 0),
{
    lemma_tokens_insert_prefix(s, i, c, 0);
}

/// 10 raised to `n`.
pub open spec fn pow10(n: nat) -> int
    decreases n,
{
    if n == 0 {
        1int
    } else {
        10 * pow10((n - 1) as nat)
    }
}

/// The positional value of a digit string: d1*10^(n-1) + ... + dn.
pub open spec fn digits_int(s: Seq<char>) -> int
    decreases s.len(),
{
    if s.len() == 0 {
        0int
    } else {
        digit_val(s[0]) * pow10((s.len() - 1) as nat) + digits_int(
            s.subrange(1, s.len() as int),
        )
    }
}

/// Left fold of the digits in `s[pos .. end]` onto `acc` over the
/// unbounded integers: the fold the lexer performs, without wrapping.
pub open spec fn fold_digits_int(s: Seq<char>, pos: int, end: int, acc: int) -> int
    decreases end - pos,
{
    if pos < end {
        fold_digits_int(s, pos + 1, end, acc * 10 + digit_val(s[pos]))
    } else {
        acc
    }
}

/// The fold never drops below its accumulator while the digits are genuine.
proof fn lemma_fold_int_lower_bound(s: Seq<char>, pos: int, end: int, acc: int)
    requires
        pos <= end <= s.len(),
        0 <= acc,
        forall|i: int| pos <= i < end ==> is_digit_char(s[i]),
    ensures
        fold_digits_int(s, pos, end, acc) >= acc,
    decreases end - pos,
{
    if pos < end {
        lemma_fold_int_lower_bound(s, pos + 1, end, acc * 10 + digit_val(s[pos]));
    }
}

/// While the unbounded fold stays below 2^32, the wrapping fold agrees
/// with it.
proof fn lemma_fold_mod_no_wrap(s: Seq<char>, pos: int, end: int, acc: int)
    requires
        pos <= end <= s.len(),
        0 <= acc,
        forall|i: int| pos <= i < end ==> is_digit_char(s[i]),
        fold_digits_int(s, pos, end, acc) < 0x1_0000_0000,
    ensures
        fold_digits_mod(s, pos, end, acc) == fold_digits_int(s, pos, end, acc),
    decreases end - pos,
{
    if pos < end {
        let acc1 = acc * 10 + digit_val(s[pos]);
        lemma_fold_int_lower_bound(s, pos + 1, end, acc1);
        assert(acc1 % 0x1_0000_0000 == acc1);
        lemma_fold_mod_no_wrap(s, pos + 1, end, acc1);
    }
}

/// The left fold computes the positional value of the digit range.
proof fn lemma_fold_int_positional(s: Seq<char>, pos: int, end: int, acc: int)
    requires
        0 <= pos <= end <= s.len(),
    ensures
        fold_digits_int(s, pos, end, acc) == acc * pow10((end - pos) as nat) + digits_int(
            s.subrange(pos, end),
        ),
    decreases end - pos,
{
    let sub = s.subrange(pos, end);
    if pos == end {
        assert(sub.len() == 0);
    } else {
        let d0 = digit_val(s[pos]);
        let k = (end - pos - 1) as nat;
        lemma_fold_int_positional(s, pos + 1, end, acc * 10 + d0);
        assert(sub.subrange(1, sub.len() as int) =~= s.subrange(pos + 1, end));
        assert((acc * 10 + d0) * pow10(k) == acc * (10 * pow10(k)) + d0 * pow10(k))
            by (nonlinear_arith);
    }
}

/// The positional value of a digit string is never negative.
proof fn lemma_digits_int_nonneg(s: Seq<char>)
    requires
        forall|i: int| 0 <= i < s.len() ==> is_digit_char(s[i]),
    ensures
        digits_int(s) >= 0,
    decreases s.len(),
{
    if s.len() > 0 {
        lemma_pow10_positive((s.len() - 1) as nat);
        assert(digit_val(s[0]) * pow10((s.len() - 1) as nat) >= 0) by (nonlinear_arith)
            requires
                digit_val(s[0]) >= 0,
                pow10((s.len() - 1) as nat) > 0,
        ;
        lemma_digits_int_nonneg(s.subrange(1, s.len() as int));
    }
}

proof fn lemma_pow10_positive(n: nat)
    ensures
        pow10(n) > 0,
    decreases n,
{
    if n > 0 {
        lemma_pow10_positive((n - 1) as nat);
    }
}

/// A digit run with every position a digit ends only at the end of the
/// input.
proof fn lemma_digit_run_covers(s: Seq<char>, pos: int)
    requires
        0 <= pos <= s.len(),
        forall|i: int| 0 <= i < s.len() ==> is_digit_char(s[i]),
    ensures
        digit_run_end(s, pos) == s.len(),
    decreases s.len() - pos,
{
    if pos < s.len() {
        lemma_digit_run_covers(s, pos + 1);
    }
}

/// Tokenizing a maximal digit run "d1 d2 ... dn" (with no separators)
/// yields the single token `NUMBER(d1*10^(n-1) + ... + dn)` followed only
/// by `EOF` — one folded literal, not n separate tokens. Stated for values
/// that fit a 32-bit signed integer; past that bound the lexer wraps.
pub proof fn lemma_digit_run_folds(s: Seq<char>)
    requires
        s.len() >= 1,
        forall|i: int| 0 <= i < s.len() ==> is_digit_char(s[i]),
        digits_int(s) < 0x8000_0000,
    ensures
        tokens_from(s, 0) == Some(seq![Token::NUMBER(digits_int(s) as i32), Token::EOF]),
{
    let n = s.len() as int;
    assert(is_digit_char(s[0]));
    assert(!is_space_char(s[0]));
    assert(skip_ws_from(s, 0) == 0);
    lemma_digit_run_covers(s, 0);
    lemma_digits_int_nonneg(s);
    lemma_fold_int_positional(s, 0, n, 0);
    assert(s.subrange(0, n) =~= s);
    assert(fold_digits_int(s, 0, n, 0) == digits_int(s));
    lemma_fold_mod_no_wrap(s, 0, n, 0);
    assert(number_value(s, 0, n) == digits_int(s) as i32);
    let step = lex_step(s, 0, false);
    assert(step == (Some(Token::NUMBER(digits_int(s) as i32)), n, false));
    assert(skip_ws_from(s, n) == n);
    assert(tokens_from(s, n) == Some(seq![Token::EOF]));
    assert(seq![Token::NUMBER(digits_int(s) as i32)] + seq![Token::EOF] =~= seq![
        Token::NUMBER(digits_int(s) as i32),
        Token::EOF,
    ]);
}

} // verus!
