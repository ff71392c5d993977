//! The mathematical model of the scan: what one round of the loop does at a
//! cursor position, and what the whole scan of an input yields.

use vstd::prelude::*;

use crate::classify::alphabetic;
use crate::classify::alphanumeric;
use crate::classify::decimal_digit;
use crate::classify::decimal_digit_val;
use crate::token::SpecToken;

verus! {

/// Length of the maximal run of ASCII spaces in `s` starting at `i`.
pub open spec fn space_run(s: Seq<char>, i: int) -> int
    decreases s.len() - i,
{
    if 0 <= i < s.len() && s[i] == ' ' {
        1 + space_run(s, i + 1)
    } else {
        0
    }
}

/// Length of the maximal run of ASCII decimal digits in `s` starting at `i`.
pub open spec fn digit_run(s: Seq<char>, i: int) -> int
    decreases s.len() - i,
{
    if 0 <= i < s.len() && decimal_digit(s[i]) {
        1 + digit_run(s, i + 1)
    } else {
        0
    }
}

/// Length of the maximal run of alphanumeric characters in `s` starting at `i`.
pub open spec fn alnum_run(s: Seq<char>, i: int) -> int
    decreases s.len() - i,
{
    if 0 <= i < s.len() && alphanumeric(s[i]) {
        1 + alnum_run(s, i + 1)
    } else {
        0
    }
}

/// The unsigned value of a sequence of ASCII decimal digits.
pub open spec fn digits_val(ds: Seq<char>) -> int
    decreases ds.len(),
{
    if ds.len() == 0 {
        0
    } else {
        10 * digits_val(ds.drop_last()) + decimal_digit_val(ds.last())
    }
}

/// The input `s` holds the text `pat` at position `i`.
pub open spec fn match_at(s: Seq<char>, i: int, pat: Seq<char>) -> bool {
    &&& 0 <= i
    &&& i + pat.len() <= s.len()
    &&& s.subrange(i, i + pat.len() as int) == pat
}

/// The fixed operator and keyword vocabulary, in the order the scan tries it:
/// two-character operators before their one-character prefixes, and the
/// keywords before the generic identifier recognizer gets its turn.
pub open spec fn operator_texts() -> Seq<Seq<char>> {
    seq![
        "+"@,
        "-"@,
        "("@,
        ")"@,
        "["@,
        "]"@,
        "{"@,
        "}"@,
        "<="@,
        ">="@,
        "<|"@,
        "<"@,
        ">"@,
        "="@,
        ":"@,
        ","@,
        "if"@,
        "then"@,
        "let"@,
        "def"@,
    ]
}

/// The first entry of the vocabulary, from index `k` on, that matches at `i`.
pub open spec fn first_op_from(s: Seq<char>, i: int, k: int) -> Option<Seq<char>>
    decreases operator_texts().len() - k,
{
    if k < 0 || k >= operator_texts().len() {
        None
    } else if match_at(s, i, operator_texts()[k]) {
        Some(operator_texts()[k])
    } else {
        first_op_from(s, i, k + 1)
    }
}

/// The first operator or keyword of the vocabulary that matches at `i`, if any.
pub open spec fn first_op(s: Seq<char>, i: int) -> Option<Seq<char>> {
    first_op_from(s, i, 0)
}

/// What one round of the scan loop does at a cursor position.
pub enum Step {
    /// A token is emitted: its matched text is `s[start..next]`, and the
    /// spaces `s[i..start]` before it were skipped.
    Emit { token: SpecToken, start: int, next: int },
    /// After skipping spaces up to `at`, no recognizer matches there.
    Stuck { at: int },
}

/// One round of the scan loop at cursor `i` inside the input: skip spaces,
/// then try, in order, the operator and keyword vocabulary, an identifier
/// (an alphabetic character then a run of alphanumerics), and an integer
/// literal (a run of digits whose value fits in 32 unsigned bits).
pub open spec fn scan_step(s: Seq<char>, i: int) -> Step {
    let j = i + space_run(s, i);
    if j >= s.len() {
        Step::Stuck { at: j }
    } else {
        match first_op(s, j) {
            Some(op) => Step::Emit {
                token: SpecToken::Operator(op),
                start: j,
                next: j + op.len(),
            },
            None => {
                if alphabetic(s[j]) {
                    let l = 1 + alnum_run(s, j + 1);
                    Step::Emit {
                        token: SpecToken::Identifier(s.subrange(j, j + l)),
                        start: j,
                        next: j + l,
                    }
                } else if decimal_digit(s[j]) {
                    let d = digit_run(s, j);
                    let v = digits_val(s.subrange(j, j + d));
                    if v <= u32::MAX as int {
                        Step::Emit {
                            token: SpecToken::IntegerLiteral(v as u32),
                            start: j,
                            next: j + d,
                        }
                    } else {
                        Step::Stuck { at: j }
                    }
                } else {
                    Step::Stuck { at: j }
                }
            },
        }
    }
}

/// One emitted token together with the text it stands for in the input.
pub struct Piece {
    pub token: SpecToken,
    /// The run of spaces skipped just before the token's text.
    pub gap: Seq<char>,
    /// The substring of the input the token matched.
    pub text: Seq<char>,
}

/// The input text a sequence of pieces stands for: gaps and matched texts,
/// in order.
pub open spec fn pieces_text(ps: Seq<Piece>) -> Seq<char>
    decreases ps.len(),
{
    if ps.len() == 0 {
        Seq::empty()
    } else {
        ps[0].gap + ps[0].text + pieces_text(ps.drop_first())
    }
}

/// The whole scan from cursor `i` on: the emitted pieces, closed by the
/// end-of-input marker, or the position where no recognizer matched.
pub open spec fn scan_from(s: Seq<char>, i: int) -> Result<Seq<Piece>, int>
    decreases s.len() - i,
        via scan_from_decreases
{
    if i < 0 {
        Err(i)
    } else if i >= s.len() {
        Ok(seq![Piece { token: SpecToken::EOF, gap: Seq::empty(), text: Seq::empty() }])
    } else {
        match scan_step(s, i) {
            Step::Emit { token, start, next } => match scan_from(s, next) {
                Ok(rest) => Ok(
                    seq![
                        Piece { token, gap: s.subrange(i, start), text: s.subrange(start, next) },
                    ] + rest,
                ),
                Err(e) => Err(e),
            },
            Step::Stuck { at } => Err(at),
        }
    }
}

#[via_fn]
proof fn scan_from_decreases(s: Seq<char>, i: int) {
    if 0 <= i < s.len() {
        lemma_step_in_range(s, i);
    }
}

/// The token shapes a scan from `i` yields, or the position where it sticks.
pub open spec fn tokens_from(s: Seq<char>, i: int) -> Result<Seq<SpecToken>, int> {
    match scan_from(s, i) {
        Ok(ps) => Ok(ps.map_values(|p: Piece| p.token)),
        Err(j) => Err(j),
    }
}

/// The tokens of the whole input: what tokenizing must yield.
pub open spec fn spec_tokenize(s: Seq<char>) -> Result<Seq<SpecToken>, int> {
    tokens_from(s, 0)
}

/// A run of spaces stays inside the input.
pub proof fn lemma_space_run_range(s: Seq<char>, i: int)
    requires
        0 <= i <= s.len(),
    ensures
        0 <= space_run(s, i),
        i + space_run(s, i) <= s.len(),
    decreases s.len() - i,
{
    if i < s.len() && s[i] == ' ' {
        lemma_space_run_range(s, i + 1);
    }
}

/// A run of digits stays inside the input.
pub proof fn lemma_digit_run_range(s: Seq<char>, i: int)
    requires
        0 <= i <= s.len(),
    ensures
        0 <= digit_run(s, i),
        i + digit_run(s, i) <= s.len(),
    decreases s.len() - i,
{
    if i < s.len() && decimal_digit(s[i]) {
        lemma_digit_run_range(s, i + 1);
    }
}

/// A run of alphanumerics stays inside the input.
pub proof fn lemma_alnum_run_range(s: Seq<char>, i: int)
    requires
        0 <= i <= s.len(),
    ensures
        0 <= alnum_run(s, i),
        i + alnum_run(s, i) <= s.len(),
    decreases s.len() - i,
{
    if i < s.len() && alphanumeric(s[i]) {
        lemma_alnum_run_range(s, i + 1);
    }
}

/// A stretch of spaces ended by a non-space, or by the input's end, is the
/// space run.
pub proof fn lemma_space_run_is(s: Seq<char>, i: int, k: int)
    requires
        0 <= i,
        0 <= k,
        i + k <= s.len(),
        forall|m: int| i <= m < i + k ==> s[m] == ' ',
        i + k == s.len() || s[i + k] != ' ',
    ensures
        space_run(s, i) == k,
    decreases k,
{
    if k > 0 {
        assert(s[i] == ' ');
        lemma_space_run_is(s, i + 1, k - 1);
    }
}

/// A stretch of digits ended by a non-digit, or by the input's end, is the
/// digit run.
pub proof fn lemma_digit_run_is(s: Seq<char>, i: int, k: int)
    requires
        0 <= i,
        0 <= k,
        i + k <= s.len(),
        forall|m: int| i <= m < i + k ==> decimal_digit(s[m]),
        i + k == s.len() || !decimal_digit(s[i + k]),
    ensures
        digit_run(s, i) == k,
    decreases k,
{
    if k > 0 {
        assert(decimal_digit(s[i]));
        lemma_digit_run_is(s, i + 1, k - 1);
    }
}

/// A stretch of alphanumerics ended by a non-alphanumeric, or by the input's
/// end, is the alphanumeric run.
pub proof fn lemma_alnum_run_is(s: Seq<char>, i: int, k: int)
    requires
        0 <= i,
        0 <= k,
        i + k <= s.len(),
        forall|m: int| i <= m < i + k ==> alphanumeric(s[m]),
        i + k == s.len() || !alphanumeric(s[i + k]),
    ensures
        alnum_run(s, i) == k,
    decreases k,
{
    if k > 0 {
        assert(alphanumeric(s[i]));
        lemma_alnum_run_is(s, i + 1, k - 1);
    }
}

/// A stretch of digits, wherever it ends, bounds the digit run from below.
pub proof fn lemma_digit_run_at_least(s: Seq<char>, i: int, k: int)
    requires
        0 <= i,
        0 <= k,
        i + k <= s.len(),
        forall|m: int| i <= m < i + k ==> decimal_digit(s[m]),
    ensures
        digit_run(s, i) >= k,
    decreases k,
{
    lemma_digit_run_range(s, i);
    if k > 0 {
        assert(decimal_digit(s[i]));
        lemma_digit_run_at_least(s, i + 1, k - 1);
    }
}

/// Every character of the digit run is a digit.
pub proof fn lemma_digit_run_chars(s: Seq<char>, i: int)
    requires
        0 <= i,
    ensures
        forall|m: int| i <= m < i + digit_run(s, i) ==> decimal_digit(s[m]),
    decreases s.len() - i,
{
    if i < s.len() && decimal_digit(s[i]) {
        lemma_digit_run_chars(s, i + 1);
    }
}

/// The digit run in a suffix of the input is the digit run at the matching
/// position of the whole input.
pub proof fn lemma_digit_run_shift(s: Seq<char>, j: int, t: int)
    requires
        0 <= j <= s.len(),
        0 <= t,
    ensures
        digit_run(s.subrange(j, s.len() as int), t) == digit_run(s, j + t),
    decreases s.len() - j - t,
{
    let r = s.subrange(j, s.len() as int);
    if t < r.len() && decimal_digit(r[t]) {
        lemma_digit_run_shift(s, j, t + 1);
    }
}

/// The value of a sequence of digits is non-negative.
pub proof fn lemma_digits_val_nonneg(ds: Seq<char>)
    requires
        forall|m: int| 0 <= m < ds.len() ==> decimal_digit(#[trigger] ds[m]),
    ensures
        0 <= digits_val(ds),
    decreases ds.len(),
{
    if ds.len() > 0 {
        lemma_digits_val_nonneg(ds.drop_last());
    }
}

/// Extending a sequence of digits cannot lower its value.
pub proof fn lemma_digits_val_prefix_le(ds: Seq<char>, k: int)
    requires
        0 <= k <= ds.len(),
        forall|m: int| 0 <= m < ds.len() ==> decimal_digit(#[trigger] ds[m]),
    ensures
        digits_val(ds.take(k)) <= digits_val(ds),
    decreases ds.len() - k,
{
    if k < ds.len() {
        lemma_digits_val_nonneg(ds.take(k));
        assert(ds.take(k + 1).drop_last() =~= ds.take(k));
        assert(ds.take(k + 1).last() == ds[k]);
        lemma_digits_val_prefix_le(ds, k + 1);
    } else {
        assert(ds.take(k) =~= ds);
    }
}

/// Every entry of the operator and keyword vocabulary is non-empty.
pub proof fn lemma_operator_texts_nonempty()
    ensures
        forall|k: int|
            0 <= k < operator_texts().len() ==> (#[trigger] operator_texts()[k]).len() >= 1,
{
    reveal_strlit("+");
    reveal_strlit("-");
    reveal_strlit("(");
    reveal_strlit(")");
    reveal_strlit("[");
    reveal_strlit("]");
    reveal_strlit("{");
    reveal_strlit("}");
    reveal_strlit("<=");
    reveal_strlit(">=");
    reveal_strlit("<|");
    reveal_strlit("<");
    reveal_strlit(">");
    reveal_strlit("=");
    reveal_strlit(":");
    reveal_strlit(",");
    reveal_strlit("if");
    reveal_strlit("then");
    reveal_strlit("let");
    reveal_strlit("def");
}

/// A found operator matches at its position and is non-empty.
pub proof fn lemma_first_op_props(s: Seq<char>, i: int, k: int)
    requires
        0 <= k,
    ensures
        first_op_from(s, i, k) matches Some(op) ==> match_at(s, i, op) && op.len() >= 1,
    decreases operator_texts().len() - k,
{
    lemma_operator_texts_nonempty();
    if k < operator_texts().len() && !match_at(s, i, operator_texts()[k]) {
        lemma_first_op_props(s, i, k + 1);
    }
}

/// A step at a cursor inside the input emits a token whose text lies ahead
/// of the cursor and inside the input, or sticks inside the input; and an
/// emitted token is never the end-of-input marker.
pub proof fn lemma_step_in_range(s: Seq<char>, i: int)
    requires
        0 <= i < s.len(),
    ensures
        scan_step(s, i) matches Step::Emit { token, start, next } ==> i <= start < next
            <= s.len() && !(token is EOF),
        scan_step(s, i) matches Step::Stuck { at } ==> i <= at <= s.len(),
{
    lemma_space_run_range(s, i);
    let j = i + space_run(s, i);
    if j < s.len() {
        lemma_first_op_props(s, j, 0);
        lemma_alnum_run_range(s, j + 1);
        lemma_digit_run_range(s, j);
        if first_op(s, j) is None && !alphabetic(s[j]) && decimal_digit(s[j]) {
            lemma_digit_run_at_least(s, j, 1);
        }
    }
}

} // verus!
