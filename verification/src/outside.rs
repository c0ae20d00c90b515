//! The calls that leave this crate. Verus takes the contracts in this file
//! on trust: each says what its doc comment claims of the function it calls.

use crate::text::{differs, run_length, texts};
use itertools::Itertools;
use vstd::prelude::*;

verus! {

/// The parts in their order, with `sep` between each two of them.
pub open spec fn joined(parts: Seq<Seq<char>>, sep: Seq<char>) -> Seq<char>
    decreases parts.len(),
{
    if parts.len() == 0 {
        Seq::empty()
    } else if parts.len() == 1 {
        parts[0]
    } else {
        joined(parts.drop_last(), sep) + sep + parts.last()
    }
}

/// `Itertools::join` on an iterator over the strings: it returns the empty
/// string for no string; otherwise it writes the first string and then, for
/// each further one, `sep` and that string. It reserves room for `sep`
/// times the number of strings, which for a `sep` of at most one character
/// cannot overflow.
#[verifier::external_body]
pub(crate) fn join(parts: &Vec<String>, sep: &str) -> (all: String)
    requires
        sep@.len() <= 1,
    ensures
        all@ == joined(texts(parts@), sep@),
{
    parts.iter().join(sep)
}

/// `String::from_iter` over borrowed characters: the string holds exactly
/// those characters, in their order.
#[verifier::external_body]
pub(crate) fn string_of(chars: &Vec<char>) -> (s: String)
    ensures
        s@ == chars@,
{
    String::from_iter(chars)
}

/// The predicate that holds of every line but `marker`.
pub open spec fn other_line(marker: Seq<char>) -> spec_fn(Seq<char>) -> bool {
    |line: Seq<char>| line != marker
}

/// The lines up to the first one that equals `marker`, that one included;
/// all of them where none equals it.
pub open spec fn taken_through(lines: Seq<Seq<char>>, marker: Seq<char>) -> Seq<Seq<char>> {
    let n = run_length(lines, other_line(marker)) as int;
    if n < lines.len() {
        lines.take(n + 1)
    } else {
        lines
    }
}

/// `Itertools::take_while_inclusive` on an iterator over the lines, with
/// the test that a line differs from `marker`: the adaptor hands on each
/// line until one fails the test, hands on that one too, and then ends.
#[verifier::external_body]
pub(crate) fn take_through(lines: &[String], marker: &String) -> (taken: Vec<String>)
    ensures
        texts(taken@) == taken_through(texts(lines@), marker@),
{
    lines.iter().take_while_inclusive(|line| differs(line, marker)).cloned().collect()
}

/// `rand::random` at `u32`: a number drawn from the generator that the
/// `rand` crate keeps for the calling thread and seeds from the operating
/// system. Two calls may differ, so nothing is claimed of the result.
#[verifier::external_body]
pub(crate) fn random_u32() -> u32 {
    rand::random::<u32>()
}

} // verus!
