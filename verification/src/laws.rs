//! Properties of the scan as a whole: a successful scan covers the input
//! exactly, emits exactly one end-of-input marker, and a scan whose head no
//! recognizer knows must fail.

use vstd::prelude::*;

use crate::classify::alphabetic;
use crate::classify::decimal_digit;
use crate::scan::Piece;
use crate::scan::Step;
use crate::scan::first_op;
use crate::scan::lemma_step_in_range;
use crate::scan::pieces_text;
use crate::scan::scan_from;
use crate::scan::scan_step;
use crate::scan::spec_tokenize;
use crate::token::SpecToken;

verus! {

/// Total coverage, from a cursor on: the pieces of a successful scan, each a
/// gap of skipped spaces and a matched text, concatenate to the unconsumed
/// input exactly.
proof fn lemma_coverage_from(s: Seq<char>, i: int)
    requires
        0 <= i <= s.len(),
        scan_from(s, i) is Ok,
    ensures
        scan_from(s, i) matches Ok(ps) && pieces_text(ps) == s.subrange(i, s.len() as int),
    decreases s.len() - i,
{
    if i >= s.len() {
        let ps = scan_from(s, i)->Ok_0;
        assert(pieces_text(ps.drop_first()) == Seq::<char>::empty());
        assert(pieces_text(ps) =~= s.subrange(i, s.len() as int));
    } else {
        lemma_step_in_range(s, i);
        let step = scan_step(s, i);
        let start = step->Emit_start;
        let next = step->Emit_next;
        lemma_coverage_from(s, next);
        let ps = scan_from(s, i)->Ok_0;
        let rest = scan_from(s, next)->Ok_0;
        assert(ps.drop_first() =~= rest);
        assert(pieces_text(ps) == ps[0].gap + ps[0].text + pieces_text(rest));
        assert(s.subrange(i, start) + s.subrange(start, next) + s.subrange(
            next,
            s.len() as int,
        ) =~= s.subrange(i, s.len() as int));
    }
}

/// Total coverage: for any successfully tokenized input, concatenating the
/// matched substrings in order, with the skipped whitespace put back in
/// front of each, reproduces the input exactly.
pub proof fn lemma_total_coverage(s: Seq<char>)
    requires
        spec_tokenize(s) is Ok,
    ensures
        scan_from(s, 0) matches Ok(ps) && pieces_text(ps) == s,
{
    lemma_coverage_from(s, 0);
    assert(s.subrange(0, s.len() as int) =~= s);
}

/// Sentinel uniqueness, from a cursor on: a successful scan's tokens end
/// with the end-of-input marker, and no earlier token is that marker.
proof fn lemma_sentinel_from(s: Seq<char>, i: int)
    requires
        0 <= i <= s.len(),
        scan_from(s, i) is Ok,
    ensures
        scan_from(s, i) matches Ok(ps) && ps.len() >= 1 && ps.last().token == SpecToken::EOF
            && (forall|k: int| 0 <= k < ps.len() - 1 ==> !((#[trigger] ps[k].token) is EOF)),
    decreases s.len() - i,
{
    if i < s.len() {
        lemma_step_in_range(s, i);
        let step = scan_step(s, i);
        let next = step->Emit_next;
        lemma_sentinel_from(s, next);
        let ps = scan_from(s, i)->Ok_0;
        let rest = scan_from(s, next)->Ok_0;
        assert(ps.drop_first() =~= rest);
        assert(ps.last() == rest.last());
        assert forall|k: int| 0 <= k < ps.len() - 1 implies !((#[trigger] ps[k].token) is EOF) by {
            if k > 0 {
                assert(ps[k] == rest[k - 1]);
            }
        }
    }
}

/// Sentinel uniqueness: the tokens of any successfully tokenized input hold
/// exactly one end-of-input marker, always as the last element.
pub proof fn lemma_sentinel_uniqueness(s: Seq<char>)
    requires
        spec_tokenize(s) is Ok,
    ensures
        spec_tokenize(s) matches Ok(ts) && ts.len() >= 1 && ts.last() == SpecToken::EOF && (forall|
            k: int,
        | 0 <= k < ts.len() - 1 ==> !((#[trigger] ts[k]) is EOF)),
{
    lemma_sentinel_from(s, 0);
    let ps = scan_from(s, 0)->Ok_0;
    let ts = spec_tokenize(s)->Ok_0;
    assert(ts.last() == ps.last().token);
    assert forall|k: int| 0 <= k < ts.len() - 1 implies !((#[trigger] ts[k]) is EOF) by {
        assert(ts[k] == ps[k].token);
    }
}

/// Failure on unknown input: where the input's first character is no space,
/// starts no operator or keyword of the vocabulary, is not alphabetic and is
/// no ASCII digit, the whole scan fails at position 0, leaving the whole
/// input as the unconsumed remainder.
pub proof fn lemma_unknown_head_fails(s: Seq<char>)
    ensures
        (s.len() > 0 && s[0] != ' ' && first_op(s, 0) is None && !alphabetic(s[0])
            && !decimal_digit(s[0])) ==> spec_tokenize(s) == Err::<Seq<SpecToken>, int>(0),
{
    if s.len() > 0 && s[0] != ' ' && first_op(s, 0) is None && !alphabetic(s[0])
        && !decimal_digit(s[0]) {
        assert(crate::scan::space_run(s, 0) == 0);
        assert(scan_step(s, 0) == Step::Stuck { at: 0 });
        assert(scan_from(s, 0) == Err::<Seq<Piece>, int>(0));
    }
}

} // verus!
