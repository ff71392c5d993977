//! The executable scanner: the tokenizer state, its recognizers, and the
//! entry point that turns an input string into tokens.

use vstd::prelude::*;
use vstd::string::*;

use crate::classify::alphabetic;
use crate::classify::alphanumeric;
use crate::classify::char_is_alphabetic;
use crate::classify::char_is_alphanumeric;
use crate::classify::char_is_decimal_digit;
use crate::classify::decimal_digit;
use crate::classify::decimal_digit_val;
use crate::scan::Step;
use crate::scan::alnum_run;
use crate::scan::digit_run;
use crate::scan::digits_val;
use crate::scan::first_op;
use crate::scan::lemma_alnum_run_is;
use crate::scan::lemma_digit_run_at_least;
use crate::scan::lemma_digit_run_chars;
use crate::scan::lemma_digit_run_is;
use crate::scan::lemma_digit_run_range;
use crate::scan::lemma_digit_run_shift;
use crate::scan::lemma_digits_val_prefix_le;
use crate::scan::lemma_first_op_props;
use crate::scan::lemma_space_run_is;
use crate::scan::lemma_step_in_range;
use crate::scan::match_at;
use crate::scan::scan_from;
use crate::scan::scan_step;
use crate::scan::space_run;
use crate::scan::spec_tokenize;
use crate::scan::tokens_from;
use crate::token::SpecToken;
use crate::token::Token;
use crate::token::TokenizeError;
use crate::token::lemma_toks_push;
use crate::token::toks;

verus! {

/// Why a piece of text does not parse as an unsigned 32-bit integer literal.
#[derive(Debug, PartialEq, Eq, Clone, Copy)]
pub enum IntegerParseError {
    /// The text does not start with an ASCII decimal digit.
    NoDigits,
    /// The leading digit run's value exceeds the unsigned 32-bit range.
    Overflow,
}

/// Parses the longest leading run of ASCII decimal digits as an unsigned
/// 32-bit integer, returning the value and the run's length in characters.
/// An empty run, or a run whose value overflows, is reported as an error,
/// never wrapped or truncated.
pub fn str_to_fromstr(s: &str) -> (r: Result<(u32, usize), IntegerParseError>)
    ensures
        ({
            let d = digit_run(s@, 0);
            let v = digits_val(s@.subrange(0, d));
            match r {
                Ok(p) => d > 0 && v <= u32::MAX as int && p.0 as int == v && p.1 as int == d,
                Err(e) => match e {
                    IntegerParseError::NoDigits => d == 0,
                    IntegerParseError::Overflow => d > 0 && v > u32::MAX as int,
                },
            }
        }),
{
    let n = s.unicode_len();
    if n == 0 || !char_is_decimal_digit(s.get_char(0)) {
        return Err(IntegerParseError::NoDigits);
    }
    let mut i: usize = 0;
    let mut acc: u32 = 0;
    while i < n && char_is_decimal_digit(s.get_char(i))
        invariant
            n == s@.len(),
            0 <= i <= n,
            forall|m: int| 0 <= m < i ==> decimal_digit(s@[m]),
            acc as int == digits_val(s@.subrange(0, i as int)),
        decreases n - i,
    {
        let c = s.get_char(i);
        let d = (c as u32) - '0' as u32;
        let grown = match acc.checked_mul(10) {
            Some(m) => m.checked_add(d),
            None => None,
        };
        proof {
            assert(s@.subrange(0, i + 1).drop_last() =~= s@.subrange(0, i as int));
            assert(s@.subrange(0, i + 1).last() == s@[i as int]);
        }
        match grown {
            Some(a) => {
                acc = a;
            },
            None => {
                proof {
                    lemma_overflow_stays(s@, i as int + 1);
                }
                return Err(IntegerParseError::Overflow);
            },
        }
        i = i + 1;
    }
    proof {
        lemma_digit_run_is(s@, 0, i as int);
    }
    Ok((acc, i))
}

/// Once a prefix of the digit run overflows, the whole run's value overflows.
proof fn lemma_overflow_stays(s: Seq<char>, k: int)
    requires
        0 < k <= s.len(),
        forall|m: int| 0 <= m < k ==> decimal_digit(s[m]),
        digits_val(s.subrange(0, k)) > u32::MAX as int,
    ensures
        digit_run(s, 0) >= k,
        digits_val(s.subrange(0, digit_run(s, 0))) > u32::MAX as int,
{
    lemma_digit_run_at_least(s, 0, k);
    lemma_digit_run_range(s, 0);
    lemma_digit_run_chars(s, 0);
    let d = digit_run(s, 0);
    let ds = s.subrange(0, d);
    assert(forall|m: int| 0 <= m < ds.len() ==> decimal_digit(#[trigger] ds[m]));
    lemma_digits_val_prefix_le(ds, k);
    assert(ds.take(k) =~= s.subrange(0, k));
}

/// The input `s` holds the text `pat` at character position `pos`.
fn matches_at(s: &str, pos: usize, pat: &str) -> (r: bool)
    requires
        pos <= s@.len(),
    ensures
        r == match_at(s@, pos as int, pat@),
{
    let n = s.unicode_len();
    let m = pat.unicode_len();
    if m > n - pos {
        return false;
    }
    let mut k: usize = 0;
    while k < m
        invariant
            n == s@.len(),
            m == pat@.len(),
            0 <= k <= m,
            pos + m <= n,
            forall|t: int| 0 <= t < k ==> s@[pos + t] == pat@[t],
        decreases m - k,
    {
        if s.get_char(pos + k) != pat.get_char(k) {
            proof {
                assert(s@.subrange(pos as int, pos + pat@.len() as int)[k as int] == s@[pos + k]);
            }
            return false;
        }
        k = k + 1;
    }
    proof {
        assert(s@.subrange(pos as int, pos + pat@.len() as int) =~= pat@);
    }
    true
}

/// The scanner: the input text, a cursor into it, and the tokens emitted so
/// far. The cursor only moves forward and never leaves the input.
pub struct Tokenizer {
    input: String,
    position: usize,
    tokens: Vec<Token>,
}

impl Tokenizer {
    /// The input as a sequence of characters.
    pub closed spec fn text(self) -> Seq<char> {
        self.input@
    }

    /// The cursor: how many characters are consumed.
    pub closed spec fn cursor(self) -> int {
        self.position as int
    }

    /// The shapes of the tokens emitted so far.
    pub closed spec fn emitted(self) -> Seq<SpecToken> {
        toks(self.tokens@)
    }

    /// The cursor stays inside the input, whose length fits the machine.
    pub closed spec fn wf(self) -> bool {
        self.position <= self.input@.len() && self.input@.len() <= usize::MAX
    }

    /// Creates a fresh scanner over `input`: cursor at the start, no tokens
    /// emitted yet.
    pub fn new(input: &str) -> (tk: Tokenizer)
        ensures
            tk.wf(),
            tk.text() == input@,
            tk.cursor() == 0,
            tk.emitted() == Seq::<SpecToken>::empty(),
    {
        // Counting the characters witnesses that the input's length in
        // characters fits a machine word, which well-formedness records.
        let _n = input.unicode_len();
        let tk = Tokenizer { input: input.to_owned(), position: 0, tokens: Vec::new() };
        proof {
            assert(toks(Seq::<Token>::empty()) =~= Seq::<SpecToken>::empty());
        }
        tk
    }

    /// The input not yet consumed: everything from the cursor on.
    fn get_input(&self) -> (r: &str)
        requires
            self.wf(),
        ensures
            r@ == self.text().subrange(self.cursor(), self.text().len() as int),
    {
        let n = self.input.as_str().unicode_len();
        self.input.as_str().substring_char(self.position, n)
    }

    /// Advances the cursor by `count` characters.
    fn increment(&mut self, count: usize)
        requires
            old(self).wf(),
            old(self).cursor() + count <= old(self).text().len(),
        ensures
            final(self).wf(),
            final(self).text() == old(self).text(),
            final(self).cursor() == old(self).cursor() + count,
            final(self).emitted() == old(self).emitted(),
    {
        self.position = self.position + count;
    }

    /// The cursor has reached the input's end.
    fn at_eof(&self) -> (r: bool)
        requires
            self.wf(),
        ensures
            r == (self.cursor() == self.text().len()),
    {
        self.get_input().is_empty()
    }

    /// Moves the cursor past the maximal run of ASCII spaces at the cursor.
    /// No other character counts as whitespace.
    fn skip_space(&mut self)
        requires
            old(self).wf(),
        ensures
            final(self).wf(),
            final(self).text() == old(self).text(),
            final(self).emitted() == old(self).emitted(),
            final(self).cursor() == old(self).cursor() + space_run(
                old(self).text(),
                old(self).cursor(),
            ),
    {
        let ghost s = self.input@;
        let ghost start = self.position as int;
        let n = self.input.as_str().unicode_len();
        while self.position < n && self.input.as_str().get_char(self.position) == ' '
            invariant
                self.input@ == s,
                self.tokens@ == old(self).tokens@,
                n == s.len(),
                n <= usize::MAX,
                start <= self.position as int <= n,
                forall|m: int| start <= m < self.position as int ==> s[m] == ' ',
            decreases n - self.position,
        {
            self.position = self.position + 1;
        }
        proof {
            lemma_space_run_is(s, start, self.position as int - start);
        }
    }

    /// If the unconsumed input starts with the text `op`, emits an operator
    /// token holding that text and advances the cursor past it.
    fn operator(&mut self, op: &str) -> (r: bool)
        requires
            old(self).wf(),
        ensures
            final(self).wf(),
            final(self).text() == old(self).text(),
            r == match_at(old(self).text(), old(self).cursor(), op@),
            r ==> final(self).cursor() == old(self).cursor() + op@.len() && final(self).emitted()
                == old(self).emitted().push(SpecToken::Operator(op@)),
            !r ==> final(self).cursor() == old(self).cursor() && final(self).emitted() == old(self).emitted(),
    {
        if matches_at(self.input.as_str(), self.position, op) {
            let token = Token::Operator(op.to_owned());
            proof {
                lemma_toks_push(self.tokens@, token);
            }
            self.tokens.push(token);
            let l = op.unicode_len();
            self.increment(l);
            true
        } else {
            false
        }
    }

    /// If an integer literal (a non-empty digit run whose value fits in 32
    /// unsigned bits) starts at the cursor, emits it and advances past it.
    fn integer(&mut self) -> (r: bool)
        requires
            old(self).wf(),
        ensures
            final(self).wf(),
            final(self).text() == old(self).text(),
            ({
                let d = digit_run(old(self).text(), old(self).cursor());
                let v = digits_val(
                    old(self).text().subrange(old(self).cursor(), old(self).cursor() + d),
                );
                &&& r == (d > 0 && v <= u32::MAX as int)
                &&& r ==> final(self).cursor() == old(self).cursor() + d && final(self).emitted()
                    == old(self).emitted().push(SpecToken::IntegerLiteral(v as u32))
                &&& !r ==> final(self).cursor() == old(self).cursor() && final(self).emitted()
                    == old(self).emitted()
            }),
    {
        let ghost s = self.input@;
        let ghost pos = self.position as int;
        let rem = self.get_input();
        proof {
            lemma_digit_run_shift(s, pos, 0);
            lemma_digit_run_range(s, pos);
            let d = digit_run(s, pos);
            assert(rem@.subrange(0, d) =~= s.subrange(pos, pos + d));
        }
        match str_to_fromstr(rem) {
            Ok((num, len)) => {
                let token = Token::IntegerLiteral(num);
                proof {
                    lemma_toks_push(self.tokens@, token);
                }
                self.tokens.push(token);
                self.increment(len);
                true
            },
            Err(_) => false,
        }
    }

    /// If an identifier (an alphabetic character, then a run of alphanumeric
    /// characters) starts at the cursor, emits it and advances past it.
    fn identifier(&mut self) -> (r: bool)
        requires
            old(self).wf(),
        ensures
            final(self).wf(),
            final(self).text() == old(self).text(),
            r == (old(self).cursor() < old(self).text().len() && alphabetic(
                old(self).text()[old(self).cursor()],
            )),
            r ==> ({
                let l = 1 + alnum_run(old(self).text(), old(self).cursor() + 1);
                final(self).cursor() == old(self).cursor() + l && final(self).emitted() == old(self).emitted().push(
                    SpecToken::Identifier(
                        old(self).text().subrange(old(self).cursor(), old(self).cursor() + l),
                    ),
                )
            }),
            !r ==> final(self).cursor() == old(self).cursor() && final(self).emitted() == old(self).emitted(),
    {
        let ghost s = self.input@;
        let ghost start = self.position as int;
        let n = self.input.as_str().unicode_len();
        if self.position < n && char_is_alphabetic(self.input.as_str().get_char(self.position)) {
            let mut l: usize = 1;
            while self.position + l < n && char_is_alphanumeric(
                self.input.as_str().get_char(self.position + l),
            )
                invariant
                    self.input@ == s,
                    self.position as int == start,
                    n == s.len(),
                    n <= usize::MAX,
                    1 <= l,
                    start + l <= n,
                    forall|m: int| start + 1 <= m < start + l ==> alphanumeric(s[m]),
                decreases n - l,
            {
                l = l + 1;
            }
            proof {
                lemma_alnum_run_is(s, start + 1, l - 1);
            }
            let text = self.input.as_str().substring_char(self.position, self.position + l)
                .to_owned();
            let token = Token::Identifier(text);
            proof {
                lemma_toks_push(self.tokens@, token);
            }
            self.tokens.push(token);
            self.increment(l);
            true
        } else {
            false
        }
    }

    /// Tries the fixed operator and keyword vocabulary in priority order:
    /// two-character operators before their one-character prefixes, then the
    /// keywords, each matched as a bare prefix of the unconsumed input.
    fn any_operator(&mut self) -> (r: bool)
        requires
            old(self).wf(),
        ensures
            final(self).wf(),
            final(self).text() == old(self).text(),
            first_op(old(self).text(), old(self).cursor()) matches Some(op) ==> r && final(self).cursor() == old(self).cursor() + op.len() && final(self).emitted() == old(self).emitted().push(SpecToken::Operator(op)),
            first_op(old(self).text(), old(self).cursor()) is None ==> !r && final(self).cursor()
                == old(self).cursor() && final(self).emitted() == old(self).emitted(),
    {
        let r = self.operator("+") || self.operator("-") || self.operator("(") || self.operator(
            ")",
        ) || self.operator("[") || self.operator("]") || self.operator("{") || self.operator("}")
            || self.operator("<=") || self.operator(">=") || self.operator("<|") || self.operator(
            "<",
        ) || self.operator(">") || self.operator("=") || self.operator(":") || self.operator(",")
            || self.operator("if") || self.operator("then") || self.operator("let")
            || self.operator("def");
        proof {
            reveal_with_fuel(crate::scan::first_op_from, 25);
            let s = old(self).text();
            let j = old(self).cursor();
            assert(crate::scan::operator_texts()[0] == "+"@);
            assert(crate::scan::operator_texts()[1] == "-"@);
            assert(crate::scan::operator_texts()[2] == "("@);
            assert(crate::scan::operator_texts()[3] == ")"@);
            assert(crate::scan::operator_texts()[4] == "["@);
            assert(crate::scan::operator_texts()[5] == "]"@);
            assert(crate::scan::operator_texts()[6] == "{"@);
            assert(crate::scan::operator_texts()[7] == "}"@);
            assert(crate::scan::operator_texts()[8] == "<="@);
            assert(crate::scan::operator_texts()[9] == ">="@);
            assert(crate::scan::operator_texts()[10] == "<|"@);
            assert(crate::scan::operator_texts()[11] == "<"@);
            assert(crate::scan::operator_texts()[12] == ">"@);
            assert(crate::scan::operator_texts()[13] == "="@);
            assert(crate::scan::operator_texts()[14] == ":"@);
            assert(crate::scan::operator_texts()[15] == ","@);
            assert(crate::scan::operator_texts()[16] == "if"@);
            assert(crate::scan::operator_texts()[17] == "then"@);
            assert(crate::scan::operator_texts()[18] == "let"@);
            assert(crate::scan::operator_texts()[19] == "def"@);
        }
        r
    }
}

/// Splits `input` into its sequence of tokens, closed by the end-of-input
/// marker. At each position the scan skips ASCII spaces, then takes the
/// first match among: the operator and keyword vocabulary in priority
/// order, an identifier, an unsigned 32-bit integer literal. Where nothing
/// matches, the scan fails with the position and the unconsumed remainder.
pub fn tokenize(input: &str) -> (r: Result<Vec<Token>, TokenizeError>)
    ensures
        match spec_tokenize(input@) {
            Ok(ts) => r matches Ok(v) && toks(v@) == ts,
            Err(j) => r matches Err(TokenizeError::UnrecognizedSymbol { position, remainder })
                && position as int == j && remainder@ == input@.subrange(
                j,
                input@.len() as int,
            ),
        },
{
    let ghost s = input@;
    let mut tk = Tokenizer::new(input);
    proof {
        match tokens_from(s, 0) {
            Ok(rest) => {
                assert(tk.emitted() + rest =~= rest);
            },
            Err(_) => {},
        }
    }
    while !tk.at_eof()
        invariant
            s == input@,
            tk.wf(),
            tk.text() == s,
            match tokens_from(s, tk.cursor()) {
                Ok(rest) => tokens_from(s, 0) == Ok::<Seq<SpecToken>, int>(tk.emitted() + rest),
                Err(j) => tokens_from(s, 0) == Err::<Seq<SpecToken>, int>(j),
            },
        decreases s.len() - tk.cursor(),
    {
        let ghost i0 = tk.cursor();
        let ghost emitted0 = tk.emitted();
        tk.skip_space();
        let ghost j = tk.cursor();
        let matched = tk.any_operator() || tk.identifier() || tk.integer();
        proof {
            lemma_step_in_range(s, i0);
            lemma_first_op_props(s, j, 0);
            if j < s.len() && first_op(s, j) is None && !alphabetic(s[j]) && decimal_digit(s[j]) {
                lemma_digit_run_at_least(s, j, 1);
            }
        }
        if !matched {
            let position = tk.position;
            let remainder = tk.get_input().to_owned();
            proof {
                assert(scan_step(s, i0) == Step::Stuck { at: j });
                assert(scan_from(s, i0) == Err::<Seq<crate::scan::Piece>, int>(j));
            }
            return Err(TokenizeError::UnrecognizedSymbol { position, remainder });
        }
        proof {
            let step = scan_step(s, i0);
            assert(step matches Step::Emit { token, start, next } && start == j && next
                == tk.cursor() && tk.emitted() == emitted0.push(token));
            lemma_tokens_step(s, i0, emitted0);
        }
    }
    proof {
        assert(scan_from(s, tk.cursor()) matches Ok(ps) && ps.map_values(|p: crate::scan::Piece| p.token)
            =~= seq![SpecToken::EOF]);
        lemma_toks_push(tk.tokens@, Token::EOF);
        assert(tk.emitted().push(SpecToken::EOF) =~= tk.emitted() + seq![SpecToken::EOF]);
    }
    tk.tokens.push(Token::EOF);
    Ok(tk.tokens)
}

/// One emitted step moves the scan's tokens forward: what the whole scan
/// yields from `i` is the step's token, then what it yields from the step's
/// end; and a stuck scan stays stuck.
proof fn lemma_tokens_step(s: Seq<char>, i: int, emitted: Seq<SpecToken>)
    requires
        0 <= i < s.len(),
        scan_step(s, i) is Emit,
        match tokens_from(s, i) {
            Ok(rest) => tokens_from(s, 0) == Ok::<Seq<SpecToken>, int>(emitted + rest),
            Err(j) => tokens_from(s, 0) == Err::<Seq<SpecToken>, int>(j),
        },
    ensures
        ({
            let step = scan_step(s, i);
            let token = step->Emit_token;
            let next = step->Emit_next;
            match tokens_from(s, next) {
                Ok(rest) => tokens_from(s, 0) == Ok::<Seq<SpecToken>, int>(
                    emitted.push(token) + rest,
                ),
                Err(j) => tokens_from(s, 0) == Err::<Seq<SpecToken>, int>(j),
            }
        }),
{
    let step = scan_step(s, i);
    let token = step->Emit_token;
    let start = step->Emit_start;
    let next = step->Emit_next;
    lemma_step_in_range(s, i);
    match scan_from(s, next) {
        Ok(rest) => {
            let piece = crate::scan::Piece {
                token,
                gap: s.subrange(i, start),
                text: s.subrange(start, next),
            };
            assert(scan_from(s, i) == Ok::<Seq<crate::scan::Piece>, int>(seq![piece] + rest));
            assert((seq![piece] + rest).map_values(|p: crate::scan::Piece| p.token) =~= seq![
                token,
            ] + rest.map_values(|p: crate::scan::Piece| p.token));
            assert(emitted + (seq![token] + rest.map_values(|p: crate::scan::Piece| p.token))
                =~= emitted.push(token) + rest.map_values(|p: crate::scan::Piece| p.token));
        },
        Err(_) => {},
    }
}

} // verus!
