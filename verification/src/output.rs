//! How the paths that a search found are handed to the user.

use crate::text::{
    chars_of, decimal, is_digit, is_ws, lemma_decimal_digits, lemma_trim_around,
    parse_u64, parse_u64_spec, trim, trim_range, unsigned_digits,
};
use vstd::prelude::*;

verus! {

/// How to handle more than one result.
#[allow(non_camel_case_types)]
#[derive(Debug, Clone, Copy, PartialEq, Eq, Structural)]
pub enum OutputMode {
    /// Print every result.
    ALL,
    /// Print the first result.
    FIRST,
    /// Print the only result, or ask which of several to print.
    INTERACTIVE,
}

/// What to do with a non-empty list of results.
#[derive(Debug, Clone, Copy, PartialEq, Eq, Structural)]
pub enum OutputPlan {
    /// Print every result, in order.
    PrintAll,
    /// Print the result at this index.
    PrintOne(usize),
    /// Show the numbered results and ask for the index of the one to print.
    Ask,
}

/// The plan for `n` results in mode `mode`; `None` where there are no results, which
/// is an error.
pub open spec fn plan_spec(mode: OutputMode, n: nat) -> Option<OutputPlan> {
    if n == 0 {
        None
    } else {
        match mode {
            OutputMode::ALL => Some(OutputPlan::PrintAll),
            OutputMode::FIRST => Some(OutputPlan::PrintOne(0)),
            OutputMode::INTERACTIVE => if n == 1 {
                Some(OutputPlan::PrintOne(0))
            } else {
                Some(OutputPlan::Ask)
            },
        }
    }
}

/// No results are an error in every mode; otherwise every mode gives a plan, and a
/// plan that prints one result names one that exists: all results in mode `ALL`, the
/// first in mode `FIRST`, and in mode `INTERACTIVE` the only one, or a question where
/// there are several.
pub proof fn lemma_plan_output(mode: OutputMode, n: nat)
    ensures
        plan_spec(mode, n) is None <==> n == 0,
        plan_spec(mode, n) matches Some(OutputPlan::PrintOne(i)) ==> i < n,
        n > 0 && mode == OutputMode::ALL ==> plan_spec(mode, n) == Some(OutputPlan::PrintAll),
        n > 0 && mode == OutputMode::FIRST ==> plan_spec(mode, n) == Some(OutputPlan::PrintOne(0)),
        n == 1 && mode == OutputMode::INTERACTIVE ==> plan_spec(mode, n) == Some(OutputPlan::PrintOne(0)),
        n > 1 && mode == OutputMode::INTERACTIVE ==> plan_spec(mode, n) == Some(OutputPlan::Ask),
{
}

/// What to do with `n` results in mode `mode`; `None` where there are none.
pub fn plan_output(mode: OutputMode, n: usize) -> (r: Option<OutputPlan>)
    ensures
        r == plan_spec(mode, n as nat),
{
    if n == 0 {
        return None;
    }
    match mode {
        OutputMode::ALL => Some(OutputPlan::PrintAll),
        OutputMode::FIRST => Some(OutputPlan::PrintOne(0)),
        OutputMode::INTERACTIVE => if n == 1 {
            Some(OutputPlan::PrintOne(0))
        } else {
            Some(OutputPlan::Ask)
        },
    }
}

/// The index that a typed answer names among `n` results: the trimmed answer read as a
/// decimal number, where it is below `n`.
pub open spec fn choice_spec(input: Seq<char>, n: nat) -> Option<usize> {
    match parse_u64_spec(trim(input)) {
        Some(x) => if x < n {
            Some(x as usize)
        } else {
            None
        },
        None => None,
    }
}

/// An answer only ever names an existing result.
pub proof fn lemma_choice_in_range(input: Seq<char>, n: nat)
    ensures
        choice_spec(input, n) matches Some(x) ==> x < n,
{
}

/// Every listed result can be chosen: typing the decimal number of any index below `n`,
/// with any whitespace (such as the final newline) before or after it, chooses exactly
/// that index.
pub proof fn lemma_every_index_can_be_chosen(x: nat, n: nat, pre: Seq<char>, post: Seq<char>)
    requires
        x < n <= usize::MAX,
        forall|k: int| 0 <= k < pre.len() ==> is_ws(#[trigger] pre[k]),
        forall|k: int| 0 <= k < post.len() ==> is_ws(#[trigger] post[k]),
    ensures
        choice_spec(pre + decimal(x) + post, n) == Some(x as usize),
{
    let d = decimal(x);
    lemma_decimal_digits(x);
    assert(is_digit(d[0]));
    assert(is_digit(d[d.len() - 1]));
    lemma_trim_around(pre, d, post);
    assert(unsigned_digits(d) == d);
}

/// The index of the result that `input` names among `n` results, `None` where it names
/// none (and the question is asked again).
pub fn parse_choice(input: &str, n: usize) -> (r: Option<usize>)
    ensures
        r == choice_spec(input@, n as nat),
{
    let s = chars_of(input);
    let (a, b) = trim_range(&s, 0, s.len());
    assert(s@.subrange(0, s@.len() as int) =~= input@);
    match parse_u64(&s, a, b) {
        Some(x) => if x < n as u64 {
            Some(x as usize)
        } else {
            None
        },
        None => None,
    }
}

} // verus!
