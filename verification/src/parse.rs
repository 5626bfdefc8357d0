//! Instance parser for the line-oriented text format: comment lines (`c`),
//! one weights line (`w`), one header line (`p`, third token = variable
//! count), and clause lines of three whitespace-separated signed integers.
//! The grammar is stated over the byte sequence of the text; every parse
//! result is pinned to it, so parsing is deterministic.

use vstd::prelude::*;
use vstd::slice::slice_to_vec;
use vstd::string::StringSliceAdditionalSpecFns;
use crate::model::{Clause3, Formula};

verus! {

/// Why a parse failed: a required token missing, or a token that is not an
/// integer of the required kind (including one out of range).
#[derive(Debug, Clone, Copy, PartialEq, Eq, Structural)]
pub enum ParseError {
    MissingToken,
    InvalidNumber,
}

/// ASCII whitespace, the separators `split_whitespace` honors in this format.
pub open spec fn is_ws_byte(b: u8) -> bool {
    b == 32 || b == 9 || b == 10 || b == 11 || b == 12 || b == 13
}

/// Length of the maximal leading run of non-whitespace bytes.
pub open spec fn token_prefix_len(s: Seq<u8>) -> int
    decreases s.len(),
{
    if s.len() == 0 || is_ws_byte(s[0]) {
        0
    } else {
        1 + token_prefix_len(s.drop_first())
    }
}

proof fn lemma_token_prefix_len_bounds(s: Seq<u8>)
    ensures
        0 <= token_prefix_len(s) <= s.len(),
        s.len() > 0 && !is_ws_byte(s[0]) ==> 1 <= token_prefix_len(s),
    decreases s.len(),
{
    if s.len() > 0 && !is_ws_byte(s[0]) {
        lemma_token_prefix_len_bounds(s.drop_first());
    }
}

/// The whitespace-separated tokens of a byte sequence, in order.
pub open spec fn tokens_of(s: Seq<u8>) -> Seq<Seq<u8>>
    decreases s.len(),
    via tokens_of_decreases
{
    if s.len() == 0 {
        Seq::empty()
    } else if is_ws_byte(s[0]) {
        tokens_of(s.drop_first())
    } else {
        let k = token_prefix_len(s);
        seq![s.take(k)] + tokens_of(s.skip(k))
    }
}

#[via_fn]
proof fn tokens_of_decreases(s: Seq<u8>) {
    if s.len() > 0 && !is_ws_byte(s[0]) {
        lemma_token_prefix_len_bounds(s);
    }
}

/// The token prefix ends exactly at the first whitespace byte (or the end).
proof fn lemma_token_prefix_chars(s: Seq<u8>, j: int)
    requires
        0 <= j <= s.len(),
        forall|i: int| 0 <= i < j ==> !is_ws_byte(#[trigger] s[i]),
        j == s.len() || is_ws_byte(s[j]),
    ensures
        token_prefix_len(s) == j,
    decreases j,
{
    if j > 0 {
        let t = s.drop_first();
        assert forall|i: int| 0 <= i < j - 1 implies !is_ws_byte(#[trigger] t[i]) by {
            assert(t[i] == s[i + 1]);
        }
        lemma_token_prefix_chars(t, j - 1);
    }
}

/// Skipping a leading whitespace byte does not change the tokens.
proof fn lemma_tokens_skip_ws(s: Seq<u8>, i: int)
    requires
        0 <= i < s.len(),
        is_ws_byte(s[i]),
    ensures
        tokens_of(s.skip(i)) == tokens_of(s.skip(i + 1)),
{
    assert(s.skip(i).drop_first() =~= s.skip(i + 1));
}

/// From a non-whitespace byte at `i`, the next token runs to `j`, the first
/// whitespace byte (or the end), and the remaining tokens start at `j`.
proof fn lemma_tokens_take_token(s: Seq<u8>, i: int, j: int)
    requires
        0 <= i < j <= s.len(),
        forall|m: int| i <= m < j ==> !is_ws_byte(#[trigger] s[m]),
        j == s.len() || is_ws_byte(s[j]),
    ensures
        tokens_of(s.skip(i)) == seq![s.subrange(i, j)] + tokens_of(s.skip(j)),
{
    let t = s.skip(i);
    assert forall|m: int| 0 <= m < j - i implies !is_ws_byte(#[trigger] t[m]) by {
        assert(t[m] == s[i + m]);
    }
    if j - i < t.len() {
        assert(t[j - i] == s[j]);
    }
    lemma_token_prefix_chars(t, j - i);
    assert(t.take(j - i) =~= s.subrange(i, j));
    assert(t.skip(j - i) =~= s.skip(j));
}

/// All bytes are ASCII digits (and there is at least one).
pub open spec fn all_digits(t: Seq<u8>) -> bool {
    t.len() >= 1 && forall|i: int| 0 <= i < t.len() ==> 48 <= #[trigger] t[i] <= 57
}

/// The number the digit bytes denote, most significant first.
pub open spec fn digits_val(t: Seq<u8>) -> int
    decreases t.len(),
{
    if t.len() == 0 {
        0
    } else {
        10 * digits_val(t.drop_last()) + (t.last() - 48)
    }
}

proof fn lemma_digits_val_nonneg(t: Seq<u8>)
    requires
        forall|i: int| 0 <= i < t.len() ==> 48 <= #[trigger] t[i] <= 57,
    ensures
        0 <= digits_val(t),
    decreases t.len(),
{
    if t.len() > 0 {
        lemma_digits_val_nonneg(t.drop_last());
    }
}

/// Reading more digits never shrinks the value.
proof fn lemma_digits_val_prefix(t: Seq<u8>, k: int)
    requires
        0 <= k <= t.len(),
        forall|i: int| 0 <= i < t.len() ==> 48 <= #[trigger] t[i] <= 57,
    ensures
        digits_val(t.take(k)) <= digits_val(t),
    decreases t.len() - k,
{
    if k < t.len() {
        lemma_digits_val_prefix(t, k + 1);
        assert(t.take(k + 1).drop_last() =~= t.take(k));
        assert(t.take(k + 1).last() == t[k]);
        lemma_digits_val_nonneg(t.take(k));
    } else {
        assert(t.take(k) =~= t);
    }
}

/// An unsigned decimal token: an optional `+`, then digits; `None` when a
/// byte is not a digit or the value exceeds `u32::MAX`.
pub open spec fn spec_parse_u32(t: Seq<u8>) -> Option<u32> {
    let body = if t.len() >= 1 && t[0] == 43 {
        t.drop_first()
    } else {
        t
    };
    if all_digits(body) && digits_val(body) <= u32::MAX {
        Some(digits_val(body) as u32)
    } else {
        None
    }
}

/// A signed decimal token: an optional `+` or `-`, then digits; `None` when a
/// byte is not a digit or the value does not fit in `i64`.
pub open spec fn spec_parse_i64(t: Seq<u8>) -> Option<i64> {
    if t.len() >= 1 && t[0] == 45 {
        let body = t.drop_first();
        if all_digits(body) && digits_val(body) <= 0x8000_0000_0000_0000 {
            Some((-digits_val(body)) as i64)
        } else {
            None
        }
    } else {
        let body = if t.len() >= 1 && t[0] == 43 {
            t.drop_first()
        } else {
            t
        };
        if all_digits(body) && digits_val(body) <= i64::MAX {
            Some(digits_val(body) as i64)
        } else {
            None
        }
    }
}

/// Whether `b` is an ASCII whitespace byte.
fn is_ws(b: u8) -> (r: bool)
    ensures
        r == is_ws_byte(b),
{
    b == 32 || (9 <= b && b <= 13)
}

/// The bytes of `v` from `a` (inclusive) to `b` (exclusive).
fn copy_range(v: &Vec<u8>, a: usize, b: usize) -> (r: Vec<u8>)
    requires
        a <= b <= v@.len(),
    ensures
        r@ == v@.subrange(a as int, b as int),
{
    let mut out: Vec<u8> = Vec::new();
    let mut m = a;
    while m < b
        invariant
            a <= m <= b <= v@.len(),
            out@ == v@.subrange(a as int, m as int),
        decreases b - m,
    {
        out.push(v[m]);
        proof {
            assert(v@.subrange(a as int, m + 1 as int) =~= v@.subrange(a as int, m as int).push(
                v@[m as int],
            ));
        }
        m += 1;
    }
    out
}

/// The whitespace-separated tokens of `s`, in order.
fn tokens_exec(s: &Vec<u8>) -> (r: Vec<Vec<u8>>)
    ensures
        r@.len() == tokens_of(s@).len(),
        forall|k: int| 0 <= k < r@.len() ==> #[trigger] r@[k]@ == tokens_of(s@)[k],
{
    let n = s.len();
    let mut toks: Vec<Vec<u8>> = Vec::new();
    let ghost mut done: Seq<Seq<u8>> = Seq::empty();
    let mut i: usize = 0;
    proof {
        assert(s@.skip(0) =~= s@);
    }
    while i < n
        invariant
            0 <= i <= n,
            n == s@.len(),
            tokens_of(s@) == done + tokens_of(s@.skip(i as int)),
            toks@.len() == done.len(),
            forall|k: int| 0 <= k < done.len() ==> #[trigger] toks@[k]@ == done[k],
        decreases n - i,
    {
        if is_ws(s[i]) {
            proof {
                lemma_tokens_skip_ws(s@, i as int);
            }
            i += 1;
        } else {
            let start = i;
            let mut j = i;
            while j < n && !is_ws(s[j])
                invariant
                    start <= j <= n,
                    n == s@.len(),
                    forall|m: int| start <= m < j ==> !is_ws_byte(#[trigger] s@[m]),
                decreases n - j,
            {
                j += 1;
            }
            let tok = copy_range(s, start, j);
            toks.push(tok);
            proof {
                lemma_tokens_take_token(s@, start as int, j as int);
                done = done.push(s@.subrange(start as int, j as int));
                assert(tokens_of(s@) == done + tokens_of(s@.skip(j as int)));
            }
            i = j;
        }
    }
    proof {
        assert(s@.skip(n as int) =~= Seq::<u8>::empty());
        assert(tokens_of(s@) =~= done);
    }
    toks
}

/// Digits of `t` from `start` on, as a number: `Some` exactly when every
/// remaining byte is a digit (at least one) and the value is at most `limit`.
fn parse_digits(t: &Vec<u8>, start: usize, limit: u64) -> (r: Option<u64>)
    requires
        limit <= 0x8000_0000_0000_0000u64,
        start <= t@.len(),
    ensures
        ({
            let body = t@.skip(start as int);
            match r {
                Some(v) => all_digits(body) && v == digits_val(body) && v <= limit,
                None => !(all_digits(body) && digits_val(body) <= limit),
            }
        }),
{
    let ghost body = t@.skip(start as int);
    let n = t.len();
    if start >= n {
        return None;
    }
    let mut acc: u64 = 0;
    let mut i = start;
    while i < n
        invariant
            start <= i <= n,
            n == t@.len(),
            start < n,
            body == t@.skip(start as int),
            limit <= 0x8000_0000_0000_0000u64,
            forall|m: int| start <= m < i ==> 48 <= #[trigger] t@[m] <= 57,
            acc == digits_val(body.take(i - start)),
            acc <= limit,
        decreases n - i,
    {
        let b = t[i];
        if b < 48 || b > 57 {
            proof {
                assert(body[i - start] == t@[i as int]);
            }
            return None;
        }
        proof {
            assert(body.take(i + 1 - start).drop_last() =~= body.take(i - start));
            assert(body.take(i + 1 - start).last() == t@[i as int]);
        }
        let next_wide = (acc as u128) * 10 + ((b - 48) as u128);
        if next_wide > limit as u128 {
            proof {
                if all_digits(body) {
                    lemma_digits_val_prefix(body, i + 1 - start);
                }
            }
            return None;
        }
        acc = next_wide as u64;
        i += 1;
    }
    proof {
        assert(body.take(n - start as int) =~= body);
    }
    Some(acc)
}

/// Parses an unsigned 32-bit decimal token.
fn parse_u32_token(t: &Vec<u8>) -> (r: Option<u32>)
    ensures
        r == spec_parse_u32(t@),
{
    let start: usize = if t.len() >= 1 && t[0] == 43 {
        1
    } else {
        0
    };
    proof {
        if start == 1 {
            assert(t@.skip(1) =~= t@.drop_first());
        } else {
            assert(t@.skip(0) =~= t@);
        }
    }
    match parse_digits(t, start, 0xffff_ffffu64) {
        Some(v) => Some(v as u32),
        None => None,
    }
}

/// Parses a signed 64-bit decimal token.
fn parse_i64_token(t: &Vec<u8>) -> (r: Option<i64>)
    ensures
        r == spec_parse_i64(t@),
{
    if t.len() >= 1 && t[0] == 45 {
        proof {
            assert(t@.skip(1) =~= t@.drop_first());
        }
        match parse_digits(t, 1, 0x8000_0000_0000_0000u64) {
            Some(v) => {
                if v == 0x8000_0000_0000_0000u64 {
                    Some(i64::MIN)
                } else {
                    Some(-(v as i64))
                }
            },
            None => None,
        }
    } else {
        let start: usize = if t.len() >= 1 && t[0] == 43 {
            1
        } else {
            0
        };
        proof {
            if start == 1 {
                assert(t@.skip(1) =~= t@.drop_first());
            } else {
                assert(t@.skip(0) =~= t@);
            }
        }
        match parse_digits(t, start, 0x7fff_ffff_ffff_ffffu64) {
            Some(v) => Some(v as i64),
            None => None,
        }
    }
}

/// A clause from text: the first three whitespace-separated tokens as signed
/// integers; `MissingToken` with fewer than three tokens, `InvalidNumber`
/// when one of the three is not an integer. Further tokens are ignored.
pub open spec fn spec_parse_clause(s: Seq<u8>) -> Result<Clause3, ParseError> {
    let toks = tokens_of(s);
    if toks.len() < 3 {
        Err(ParseError::MissingToken)
    } else {
        match (spec_parse_i64(toks[0]), spec_parse_i64(toks[1]), spec_parse_i64(toks[2])) {
            (Some(a), Some(b), Some(c)) => Ok(Clause3 { a, b, c }),
            _ => Err(ParseError::InvalidNumber),
        }
    }
}

/// Parses a clause from a byte sequence.
fn parse_clause_bytes(bytes: &Vec<u8>) -> (r: Result<Clause3, ParseError>)
    ensures
        r == spec_parse_clause(bytes@),
{
    let toks = tokens_exec(bytes);
    if toks.len() < 3 {
        return Err(ParseError::MissingToken);
    }
    let a = parse_i64_token(&toks[0]);
    let b = parse_i64_token(&toks[1]);
    let c = parse_i64_token(&toks[2]);
    match (a, b, c) {
        (Some(a), Some(b), Some(c)) => Ok(Clause3 { a, b, c }),
        _ => Err(ParseError::InvalidNumber),
    }
}

impl Clause3 {
    /// Parses a clause from text: the first three whitespace-separated signed
    /// integers.
    pub fn from_str(s: &str) -> (r: Result<Clause3, ParseError>)
        ensures
            r == spec_parse_clause(s.spec_bytes()),
    {
        let bytes = slice_to_vec(s.as_bytes());
        parse_clause_bytes(&bytes)
    }
}

/// Length of the maximal leading run of bytes before a newline.
pub open spec fn line_prefix_len(s: Seq<u8>) -> int
    decreases s.len(),
{
    if s.len() == 0 || s[0] == 10 {
        0
    } else {
        1 + line_prefix_len(s.drop_first())
    }
}

proof fn lemma_line_prefix_len_bounds(s: Seq<u8>)
    ensures
        0 <= line_prefix_len(s) <= s.len(),
    decreases s.len(),
{
    if s.len() > 0 && s[0] != 10 {
        lemma_line_prefix_len_bounds(s.drop_first());
    }
}

/// A raw line with one trailing carriage return removed.
pub open spec fn strip_cr(raw: Seq<u8>) -> Seq<u8> {
    if raw.len() >= 1 && raw.last() == 13 {
        raw.drop_last()
    } else {
        raw
    }
}

/// The lines of the text: split at each newline, a trailing carriage return
/// stripped from each line, and no empty final line after a trailing newline.
pub open spec fn lines_of(s: Seq<u8>) -> Seq<Seq<u8>>
    decreases s.len(),
    via lines_of_decreases
{
    if s.len() == 0 {
        Seq::empty()
    } else {
        let k = line_prefix_len(s);
        let line = strip_cr(s.take(k));
        if k == s.len() {
            seq![line]
        } else {
            seq![line] + lines_of(s.skip(k + 1))
        }
    }
}

#[via_fn]
proof fn lines_of_decreases(s: Seq<u8>) {
    if s.len() > 0 {
        lemma_line_prefix_len_bounds(s);
    }
}

/// The line prefix ends exactly at the first newline byte (or the end).
proof fn lemma_line_prefix_chars(s: Seq<u8>, j: int)
    requires
        0 <= j <= s.len(),
        forall|i: int| 0 <= i < j ==> #[trigger] s[i] != 10,
        j == s.len() || s[j] == 10,
    ensures
        line_prefix_len(s) == j,
    decreases j,
{
    if j > 0 {
        let t = s.drop_first();
        assert forall|i: int| 0 <= i < j - 1 implies #[trigger] t[i] != 10 by {
            assert(t[i] == s[i + 1]);
        }
        lemma_line_prefix_chars(t, j - 1);
    }
}

/// From position `pos`, the next line runs to `e`, the first newline (or the
/// end), and the remaining lines start after it.
proof fn lemma_lines_step(s: Seq<u8>, pos: int, e: int)
    requires
        0 <= pos <= e <= s.len(),
        pos < s.len(),
        forall|m: int| pos <= m < e ==> #[trigger] s[m] != 10,
        e == s.len() || s[e] == 10,
    ensures
        lines_of(s.skip(pos)) == seq![strip_cr(s.subrange(pos, e))] + lines_of(
            s.skip(
                if e == s.len() {
                    e
                } else {
                    e + 1
                },
            ),
        ),
{
    let t = s.skip(pos);
    assert forall|m: int| 0 <= m < e - pos implies #[trigger] t[m] != 10 by {
        assert(t[m] == s[pos + m]);
    }
    if e - pos < t.len() {
        assert(t[e - pos] == s[e]);
    }
    lemma_line_prefix_chars(t, e - pos);
    assert(t.take(e - pos) =~= s.subrange(pos, e));
    if e == s.len() {
        assert(t.skip(e - pos) =~= s.skip(e));
        assert(s.skip(e) =~= Seq::<u8>::empty());
        assert(lines_of(t) =~= seq![strip_cr(s.subrange(pos, e))] + lines_of(s.skip(e)));
    } else {
        assert(t.skip(e - pos + 1) =~= s.skip(e + 1));
    }
}

/// A ghost snapshot of a parsed formula.
#[verifier::ext_equal]
pub ghost struct FormulaModel {
    pub vars_n: u32,
    pub weights: Seq<u32>,
    pub clauses: Seq<Clause3>,
}

impl Formula {
    /// This formula as a ghost snapshot.
    pub open spec fn model(self) -> FormulaModel {
        FormulaModel { vars_n: self.vars_n, weights: self.weights@, clauses: self.clauses@ }
    }
}

/// The parse state after some lines: the header's variable count if one was
/// seen, the weights, and the clauses so far.
#[verifier::ext_equal]
pub ghost struct ParseStateModel {
    pub vars_n: Option<u32>,
    pub weights: Seq<u32>,
    pub clauses: Seq<Clause3>,
}

/// A weights line's tokens: every token a non-negative integer (else the
/// whole line fails), with zero entries dropped.
pub open spec fn spec_parse_weights(toks: Seq<Seq<u8>>) -> Option<Seq<u32>>
    decreases toks.len(),
{
    if toks.len() == 0 {
        Some(Seq::empty())
    } else {
        match spec_parse_u32(toks[0]) {
            None => None,
            Some(w) => match spec_parse_weights(toks.drop_first()) {
                None => None,
                Some(rest) => Some(
                    if w > 0 {
                        seq![w] + rest
                    } else {
                        rest
                    },
                ),
            },
        }
    }
}

/// One line's effect on the parse state, by its leading byte: empty lines and
/// comments change nothing; a weights line replaces the weights; a header
/// line sets the variable count from its third token; any other line adds a
/// clause.
pub open spec fn spec_parse_line(line: Seq<u8>, st: ParseStateModel) -> Result<
    ParseStateModel,
    ParseError,
> {
    if line.len() == 0 {
        Ok(st)
    } else if line[0] == 99 {
        Ok(st)
    } else if line[0] == 119 {
        match spec_parse_weights(tokens_of(line).drop_first()) {
            Some(ws) => Ok(ParseStateModel { vars_n: st.vars_n, weights: ws, clauses: st.clauses }),
            None => Err(ParseError::InvalidNumber),
        }
    } else if line[0] == 112 {
        let toks = tokens_of(line);
        if toks.len() < 3 {
            Err(ParseError::MissingToken)
        } else {
            match spec_parse_u32(toks[2]) {
                Some(v) => Ok(
                    ParseStateModel { vars_n: Some(v), weights: st.weights, clauses: st.clauses },
                ),
                None => Err(ParseError::InvalidNumber),
            }
        }
    } else {
        match spec_parse_clause(line) {
            Ok(c) => Ok(
                ParseStateModel {
                    vars_n: st.vars_n,
                    weights: st.weights,
                    clauses: st.clauses.push(c),
                },
            ),
            Err(e) => Err(e),
        }
    }
}

/// The parse state after a run of lines, stopping at the first failing line.
pub open spec fn spec_parse_lines(ls: Seq<Seq<u8>>, st: ParseStateModel) -> Result<
    ParseStateModel,
    ParseError,
>
    decreases ls.len(),
{
    if ls.len() == 0 {
        Ok(st)
    } else {
        match spec_parse_line(ls[0], st) {
            Err(e) => Err(e),
            Ok(st1) => spec_parse_lines(ls.drop_first(), st1),
        }
    }
}

/// The formula a text denotes: the lines folded over the empty state, with
/// `vars_n` defaulting to 0 when no header line was present.
pub open spec fn spec_parse_formula(s: Seq<u8>) -> Result<FormulaModel, ParseError> {
    let init = ParseStateModel { vars_n: None, weights: Seq::empty(), clauses: Seq::empty() };
    match spec_parse_lines(lines_of(s), init) {
        Err(e) => Err(e),
        Ok(st) => Ok(
            FormulaModel {
                vars_n: match st.vars_n {
                    Some(v) => v,
                    None => 0,
                },
                weights: st.weights,
                clauses: st.clauses,
            },
        ),
    }
}

/// What the weights line yields once the tokens before `toks_rest` gave
/// `prefix`: the prefix extended by the rest, or failure.
spec fn weights_result(prefix: Seq<u32>, toks_rest: Seq<Seq<u8>>) -> Option<Seq<u32>> {
    match spec_parse_weights(toks_rest) {
        Some(rest) => Some(prefix + rest),
        None => None,
    }
}

/// Parses the weight tokens of a weights line (all tokens after the marker).
fn parse_weight_tokens(toks: &Vec<Vec<u8>>) -> (r: Option<Vec<u32>>)
    requires
        toks@.len() >= 1,
    ensures
        ({
            let tv = Seq::new(toks@.len(), |k: int| toks@[k]@);
            match r {
                Some(ws) => spec_parse_weights(tv.skip(1)) == Some(ws@),
                None => spec_parse_weights(tv.skip(1)) is None,
            }
        }),
{
    let ghost tv = Seq::new(toks@.len(), |k: int| toks@[k]@);
    let n = toks.len();
    let mut ws: Vec<u32> = Vec::new();
    let mut j: usize = 1;
    proof {
        assert(ws@ + Seq::<u32>::empty() =~= ws@);
    }
    while j < n
        invariant
            1 <= j <= n,
            n == toks@.len(),
            tv == Seq::new(toks@.len(), |k: int| toks@[k]@),
            weights_result(ws@, tv.skip(j as int)) == spec_parse_weights(tv.skip(1)),
        decreases n - j,
    {
        let ghost pre = tv.skip(j as int);
        proof {
            assert(pre[0] == tv[j as int]);
            assert(pre.drop_first() =~= tv.skip(j + 1 as int));
        }
        match parse_u32_token(&toks[j]) {
            None => {
                proof {
                    assert(spec_parse_weights(pre) is None);
                }
                return None;
            },
            Some(w) => {
                let ghost old_ws = ws@;
                if w > 0 {
                    ws.push(w);
                }
                proof {
                    match spec_parse_weights(tv.skip(j + 1 as int)) {
                        Some(rest) => {
                            if w > 0 {
                                assert(spec_parse_weights(pre) == Some(seq![w] + rest));
                                assert(old_ws + (seq![w] + rest) =~= ws@ + rest);
                            } else {
                                assert(spec_parse_weights(pre) == Some(rest));
                            }
                        },
                        None => {
                            assert(spec_parse_weights(pre) is None);
                        },
                    }
                }
            },
        }
        j += 1;
    }
    proof {
        assert(tv.skip(n as int) =~= Seq::<Seq<u8>>::empty());
        assert(spec_parse_weights(tv.skip(n as int)) == Some(Seq::<u32>::empty()));
        assert(ws@ + Seq::<u32>::empty() =~= ws@);
    }
    Some(ws)
}

impl Formula {
    /// Parses an instance text, line by line; see `spec_parse_formula` for
    /// the grammar and every failure case.
    pub fn from_str(s: &str) -> (r: Result<Formula, ParseError>)
        ensures
            match r {
                Ok(f) => spec_parse_formula(s.spec_bytes()) == Ok::<FormulaModel, ParseError>(
                    f.model(),
                ),
                Err(e) => spec_parse_formula(s.spec_bytes()) == Err::<FormulaModel, ParseError>(e),
            },
    {
        let bytes = slice_to_vec(s.as_bytes());
        parse_formula_bytes(&bytes)
    }
}

/// A failing line fails the whole parse with its error.
proof fn lemma_err_chain(bytes: Seq<u8>, pos: int, st: ParseStateModel, e: ParseError)
    requires
        spec_parse_lines(
            lines_of(bytes),
            ParseStateModel { vars_n: None, weights: Seq::empty(), clauses: Seq::empty() },
        ) == spec_parse_lines(lines_of(bytes.skip(pos)), st),
        spec_parse_lines(lines_of(bytes.skip(pos)), st) == Err::<ParseStateModel, ParseError>(e),
    ensures
        spec_parse_formula(bytes) == Err::<FormulaModel, ParseError>(e),
{
}

/// Parses an instance from its bytes.
#[verifier::rlimit(80)]
fn parse_formula_bytes(bytes: &Vec<u8>) -> (r: Result<Formula, ParseError>)
    ensures
        match r {
            Ok(f) => spec_parse_formula(bytes@) == Ok::<FormulaModel, ParseError>(f.model()),
            Err(e) => spec_parse_formula(bytes@) == Err::<FormulaModel, ParseError>(e),
        },
{
    let n = bytes.len();
    let mut vars_n: Option<u32> = None;
    let mut weights: Vec<u32> = Vec::new();
    let mut clauses: Vec<Clause3> = Vec::new();
    let mut pos: usize = 0;
    proof {
        assert(bytes@.skip(0) =~= bytes@);
    }
    while pos < n
        invariant
            0 <= pos <= n,
            n == bytes@.len(),
            spec_parse_lines(
                lines_of(bytes@),
                ParseStateModel { vars_n: None, weights: Seq::empty(), clauses: Seq::empty() },
            ) == spec_parse_lines(
                lines_of(bytes@.skip(pos as int)),
                ParseStateModel { vars_n, weights: weights@, clauses: clauses@ },
            ),
        decreases n - pos,
    {
        let ghost st = ParseStateModel { vars_n, weights: weights@, clauses: clauses@ };
        let mut e = pos;
        while e < n && bytes[e] != 10
            invariant
                pos <= e <= n,
                n == bytes@.len(),
                forall|m: int| pos <= m < e ==> #[trigger] bytes@[m] != 10,
            decreases n - e,
        {
            e += 1;
        }
        let line_end = if e > pos && bytes[e - 1] == 13 {
            e - 1
        } else {
            e
        };
        let ghost line = strip_cr(bytes@.subrange(pos as int, e as int));
        let ghost rest = lines_of(
            bytes@.skip(
                if e == n {
                    e as int
                } else {
                    e + 1 as int
                },
            ),
        );
        proof {
            lemma_lines_step(bytes@, pos as int, e as int);
            let raw = bytes@.subrange(pos as int, e as int);
            if e > pos && bytes@[e - 1] == 13 {
                assert(raw.last() == bytes@[e - 1]);
                assert(raw.drop_last() =~= bytes@.subrange(pos as int, line_end as int));
            }
            assert(line =~= bytes@.subrange(pos as int, line_end as int));
            assert((seq![line] + rest)[0] == line);
            assert((seq![line] + rest).drop_first() =~= rest);
            assert(lines_of(bytes@.skip(pos as int)) == seq![line] + rest);
        }
        // one line's effect, mirroring `spec_parse_line`
        if line_end == pos {
            // empty line: nothing
        } else {
            let b0 = bytes[pos];
            proof {
                assert(line[0] == bytes@[pos as int]);
            }
            if b0 == 99 {
                // comment: nothing
            } else if b0 == 119 {
                let line_vec = copy_range(bytes, pos, line_end);
                let toks = tokens_exec(&line_vec);
                proof {
                    assert(Seq::new(toks@.len(), |k: int| toks@[k]@) =~= tokens_of(line));
                    assert(tokens_of(line).len() >= 1);
                    assert(tokens_of(line).drop_first() =~= Seq::new(
                        toks@.len(),
                        |k: int| toks@[k]@,
                    ).skip(1));
                }
                match parse_weight_tokens(&toks) {
                    Some(ws) => {
                        weights = ws;
                    },
                    None => {
                        proof {
                            assert(spec_parse_line(line, st) == Err::<ParseStateModel, ParseError>(
                                ParseError::InvalidNumber,
                            ));
                            assert(spec_parse_lines(lines_of(bytes@.skip(pos as int)), st)
                                == Err::<ParseStateModel, ParseError>(ParseError::InvalidNumber));
                            lemma_err_chain(bytes@, pos as int, st, ParseError::InvalidNumber);
                        }
                        return Err(ParseError::InvalidNumber);
                    },
                }
            } else if b0 == 112 {
                let line_vec = copy_range(bytes, pos, line_end);
                let toks = tokens_exec(&line_vec);
                proof {
                    assert(Seq::new(toks@.len(), |k: int| toks@[k]@) =~= tokens_of(line));
                }
                if toks.len() < 3 {
                    proof {
                        assert(spec_parse_line(line, st) == Err::<ParseStateModel, ParseError>(
                            ParseError::MissingToken,
                        ));
                        assert(spec_parse_lines(lines_of(bytes@.skip(pos as int)), st)
                            == Err::<ParseStateModel, ParseError>(ParseError::MissingToken));
                        lemma_err_chain(bytes@, pos as int, st, ParseError::MissingToken);
                    }
                    return Err(ParseError::MissingToken);
                }
                proof {
                    assert(toks@[2]@ == tokens_of(line)[2]);
                }
                match parse_u32_token(&toks[2]) {
                    Some(v) => {
                        vars_n = Some(v);
                    },
                    None => {
                        proof {
                            assert(spec_parse_line(line, st) == Err::<ParseStateModel, ParseError>(
                                ParseError::InvalidNumber,
                            ));
                            assert(spec_parse_lines(lines_of(bytes@.skip(pos as int)), st)
                                == Err::<ParseStateModel, ParseError>(ParseError::InvalidNumber));
                            lemma_err_chain(bytes@, pos as int, st, ParseError::InvalidNumber);
                        }
                        return Err(ParseError::InvalidNumber);
                    },
                }
            } else {
                let line_vec = copy_range(bytes, pos, line_end);
                match parse_clause_bytes(&line_vec) {
                    Ok(c) => {
                        clauses.push(c);
                    },
                    Err(err) => {
                        proof {
                            assert(spec_parse_line(line, st) == Err::<ParseStateModel, ParseError>(
                                err,
                            ));
                            assert(spec_parse_lines(lines_of(bytes@.skip(pos as int)), st)
                                == Err::<ParseStateModel, ParseError>(err));
                            lemma_err_chain(bytes@, pos as int, st, err);
                        }
                        return Err(err);
                    },
                }
            }
        }
        proof {
            let st1 = ParseStateModel { vars_n, weights: weights@, clauses: clauses@ };
            assert(spec_parse_line(line, st) == Ok::<ParseStateModel, ParseError>(st1));
            assert(spec_parse_lines(lines_of(bytes@.skip(pos as int)), st) == spec_parse_lines(
                rest,
                st1,
            ));
        }
        pos = if e < n {
            e + 1
        } else {
            n
        };
    }
    proof {
        assert(bytes@.skip(n as int) =~= Seq::<u8>::empty());
    }
    let out_vars_n = match vars_n {
        Some(v) => v,
        None => 0,
    };
    let f = Formula { vars_n: out_vars_n, weights, clauses };
    proof {
        assert(spec_parse_formula(bytes@) == Ok::<FormulaModel, ParseError>(f.model()));
    }
    Ok(f)
}

/// Law: parsing the same instance text twice yields two formulas with
/// identical `vars_n`, `weights` and `clauses`.
pub proof fn lemma_parse_deterministic(s: Seq<u8>, f1: Formula, f2: Formula)
    requires
        spec_parse_formula(s) == Ok::<FormulaModel, ParseError>(f1.model()),
        spec_parse_formula(s) == Ok::<FormulaModel, ParseError>(f2.model()),
    ensures
        f1.vars_n == f2.vars_n,
        f1.weights@ == f2.weights@,
        f1.clauses@ == f2.clauses@,
{
}

} // verus!
