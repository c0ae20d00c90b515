//! The options that the tracer has left in the unit's log.
//!
//! When a traced unit stops, the tracer writes a line that marks the start
//! of its findings, then one option to a line, then a line that marks their
//! end. The log is read from its newest line backwards, so the end comes
//! first, and reading can stop at the start.

use crate::error::Error;
use crate::outside::{other_line, take_through, taken_through};
use crate::text::{differs, lemma_run_length, lemma_run_length_is, run_length, texts};
use crate::unit::Service;
use vstd::prelude::*;
use vstd::slice::slice_subrange;

verus! {

/// The index of the first line that marks the end, or the number of lines
/// where none does.
pub open spec fn end_index(lines: Seq<Seq<char>>, end: Seq<char>) -> int {
    run_length(lines, other_line(end)) as int
}

/// The lines, newest first, from the one that marks the end through the
/// first one from there on that marks the start.
pub open spec fn snippet_block(lines: Seq<Seq<char>>, start: Seq<char>, end: Seq<char>) -> Seq<
    Seq<char>,
> {
    taken_through(lines.skip(end_index(lines, end)), start)
}

/// Whether the lines hold a block that reaches its start: no line that
/// follows can change it.
pub open spec fn settled(lines: Seq<Seq<char>>, start: Seq<char>, end: Seq<char>) -> bool {
    let block = snippet_block(lines, start, end);
    block.len() > 0 && block.last() == start
}

/// The options in a block: the lines between its first and its last, oldest
/// first; `None` unless the block has two lines at least and ends with the
/// line that marks the start.
pub open spec fn options_in(block: Seq<Seq<char>>, start: Seq<char>) -> Option<Seq<Seq<char>>> {
    if block.len() >= 2 && block.last() == start {
        Some(block.subrange(1, block.len() - 1).reverse())
    } else {
        None
    }
}

/// The options that the log holds, oldest first, where `lines` is the log
/// from its newest line backwards.
pub open spec fn snippet(lines: Seq<Seq<char>>, start: Seq<char>, end: Seq<char>) -> Option<
    Seq<Seq<char>>,
> {
    options_in(snippet_block(lines, start, end), start)
}

/// One more line changes a run only at its end.
pub proof fn lemma_run_length_push<A>(s: Seq<A>, x: A, p: spec_fn(A) -> bool)
    ensures
        run_length(s.push(x), p) == if run_length(s, p) < s.len() {
            run_length(s, p)
        } else if p(x) {
            s.len() + 1
        } else {
            s.len()
        },
{
    lemma_run_length(s, p);
    let n = if run_length(s, p) < s.len() {
        run_length(s, p) as int
    } else if p(x) {
        s.len() as int + 1
    } else {
        s.len() as int
    };
    let t = s.push(x);
    assert forall|j: int| 0 <= j < n implies p(#[trigger] t[j]) by {
        if j < s.len() {
            assert(t[j] == s[j]);
        }
    }
    if n < t.len() {
        if n < s.len() {
            assert(t[n] == s[n]);
        }
    }
    lemma_run_length_is(t, p, n);
}

/// What one more line makes of the block: nothing new once the block is
/// settled; else the line is added to a block that has begun, and begins the
/// block if it marks the end.
pub proof fn lemma_block_push(
    lines: Seq<Seq<char>>,
    line: Seq<char>,
    start: Seq<char>,
    end: Seq<char>,
)
    ensures
        snippet_block(lines.push(line), start, end) == if settled(lines, start, end) {
            snippet_block(lines, start, end)
        } else if snippet_block(lines, start, end).len() > 0 || line == end {
            snippet_block(lines, start, end).push(line)
        } else {
            Seq::<Seq<char>>::empty()
        },
{
    let more = lines.push(line);
    let e = end_index(lines, end);
    lemma_run_length(lines, other_line(end));
    lemma_run_length_push(lines, line, other_line(end));
    let rest = lines.skip(e);
    lemma_run_length(rest, other_line(start));
    if e < lines.len() {
        assert(more.skip(e) =~= rest.push(line));
        lemma_run_length_push(rest, line, other_line(start));
        let n = run_length(rest, other_line(start)) as int;
        if n < rest.len() {
            assert(rest.take(n + 1).last() == rest[n]);
            assert(rest.push(line).take(n + 1) =~= rest.take(n + 1));
        } else {
            assert(rest.last() != start) by {
                assert(other_line(start)(rest[rest.len() - 1]));
            }
            if line != start {
            } else {
                assert(rest.push(line).take(n + 1) =~= rest.push(line));
            }
        }
    } else {
        assert(rest =~= Seq::<Seq<char>>::empty());
        if line == end {
            assert(more.skip(e) =~= seq![line]);
            lemma_run_length_push(Seq::<Seq<char>>::empty(), line, other_line(start));
            assert(Seq::<Seq<char>>::empty().push(line) =~= seq![line]);
            assert(seq![line].take(1) =~= seq![line]);
        } else {
            assert(more.skip(e + 1) =~= Seq::<Seq<char>>::empty());
        }
    }
}

/// Reading may stop at the start of the block: once the lines read hold a
/// block that reaches its start, the options are the same whatever older
/// lines follow.
pub proof fn lemma_settled_is_final(
    lines: Seq<Seq<char>>,
    older: Seq<Seq<char>>,
    start: Seq<char>,
    end: Seq<char>,
)
    requires
        settled(lines, start, end),
    ensures
        settled(lines + older, start, end),
        snippet_block(lines + older, start, end) == snippet_block(lines, start, end),
        snippet(lines + older, start, end) == snippet(lines, start, end),
    decreases older.len(),
{
    if older.len() == 0 {
        assert(lines + older =~= lines);
    } else {
        lemma_settled_is_final(lines, older.drop_last(), start, end);
        lemma_block_push(lines + older.drop_last(), older.last(), start, end);
        assert((lines + older.drop_last()).push(older.last()) =~= lines + older);
    }
}

/// The options come out as they went in: where the log holds, from its
/// newest line backwards, lines that do not mark the end, the line that
/// marks the end, the options from the last to the first, the line that
/// marks the start and whatever is older, the result is the options from
/// the first to the last.
pub proof fn lemma_snippet_found(
    newer: Seq<Seq<char>>,
    options: Seq<Seq<char>>,
    older: Seq<Seq<char>>,
    start: Seq<char>,
    end: Seq<char>,
)
    requires
        start != end,
        forall|i: int| 0 <= i < newer.len() ==> newer[i] != end,
        forall|i: int| 0 <= i < options.len() ==> options[i] != start,
    ensures
        snippet(newer + seq![end] + options.reverse() + seq![start] + older, start, end) == Some(
            options,
        ),
{
    let block = seq![end] + options.reverse() + seq![start];
    let lines = newer + seq![end] + options.reverse() + seq![start] + older;
    assert forall|j: int| 0 <= j < newer.len() implies other_line(end)(#[trigger] lines[j]) by {
        assert(lines[j] == newer[j]);
    }
    assert(lines[newer.len() as int] == end);
    lemma_run_length_is(lines, other_line(end), newer.len() as int);
    let rest = lines.skip(newer.len() as int);
    assert(rest =~= block + older);
    let n = options.len() as int + 1;
    assert forall|j: int| 0 <= j < n implies other_line(start)(#[trigger] rest[j]) by {
        if j > 0 {
            assert(rest[j] == options.reverse()[j - 1]);
        }
    }
    assert(rest[n] == start);
    lemma_run_length_is(rest, other_line(start), n);
    assert(rest.take(n + 1) =~= block);
    assert(block.subrange(1, block.len() - 1) =~= options.reverse());
    assert(options.reverse().reverse() =~= options);
}

/// Without a line that marks the start there are no options.
pub proof fn lemma_snippet_needs_start(lines: Seq<Seq<char>>, start: Seq<char>, end: Seq<char>)
    requires
        forall|i: int| 0 <= i < lines.len() ==> lines[i] != start,
    ensures
        snippet(lines, start, end) is None,
{
    let e = end_index(lines, end);
    lemma_run_length(lines, other_line(end));
    let block = snippet_block(lines, start, end);
    let rest = lines.skip(e);
    lemma_run_length(rest, other_line(start));
    if block.len() > 0 {
        assert(block.last() == rest[block.len() - 1]);
        assert(rest[block.len() - 1] == lines[e + block.len() - 1]);
    }
}

/// Without a line that marks the end there are no options.
pub proof fn lemma_snippet_needs_end(lines: Seq<Seq<char>>, start: Seq<char>, end: Seq<char>)
    requires
        forall|i: int| 0 <= i < lines.len() ==> lines[i] != end,
    ensures
        snippet(lines, start, end) is None,
{
    assert forall|j: int| 0 <= j < lines.len() implies other_line(end)(#[trigger] lines[j]) by {}
    lemma_run_length_is(lines, other_line(end), lines.len() as int);
    assert(lines.skip(lines.len() as int) =~= Seq::<Seq<char>>::empty());
}

/// The options in a block of lines read backwards from the line that marks
/// the end, oldest first.
pub fn options_of_block(block: &Vec<String>, start: &String) -> (res: Result<Vec<String>, Error>)
    ensures
        match res {
            Ok(options) => options_in(texts(block@), start@) == Some(texts(options@)),
            Err(Error::SnippetNotFound) => options_in(texts(block@), start@) is None,
            Err(_) => false,
        },
{
    if block.len() < 2 || differs(&block[block.len() - 1], start) {
        return Err(Error::SnippetNotFound);
    }
    let ghost middle = texts(block@).subrange(1, block@.len() - 1);
    let mut options: Vec<String> = Vec::new();
    let mut i: usize = block.len() - 1;
    assert(texts(options@) =~= middle.reverse().take(0));
    while i > 1
        invariant
            1 <= i <= block.len() - 1,
            middle == texts(block@).subrange(1, block@.len() - 1),
            texts(options@) == middle.reverse().take(block.len() - 1 - i),
        decreases i,
    {
        i -= 1;
        let ghost sofar = texts(options@);
        options.push(block[i].clone());
        assert(texts(options@) =~= sofar.push(block@[i as int]@));
        assert(sofar.push(block@[i as int]@) =~= middle.reverse().take(block.len() - 1 - i));
    }
    assert(middle.reverse().take(block.len() - 2) =~= middle.reverse());
    Ok(options)
}

/// Reads the log of a unit line by line, from the newest line backwards,
/// and tells when it has read enough.
pub struct SnippetScanner {
    start: String,
    end: String,
    block: Vec<String>,
    complete: bool,
    seen: Ghost<Seq<Seq<char>>>,
}

impl SnippetScanner {
    /// The line that marks the start of the options.
    pub closed spec fn start(&self) -> Seq<char> {
        self.start@
    }

    /// The line that marks the end of the options.
    pub closed spec fn end(&self) -> Seq<char> {
        self.end@
    }

    /// The lines read so far, newest first.
    pub closed spec fn seen(&self) -> Seq<Seq<char>> {
        self.seen@
    }

    /// The scanner holds the block of the lines it has read, and knows
    /// whether that block is settled.
    pub closed spec fn wf(&self) -> bool {
        &&& texts(self.block@) == snippet_block(self.seen@, self.start@, self.end@)
        &&& self.complete == settled(self.seen@, self.start@, self.end@)
    }

    /// A scanner that has read nothing yet.
    pub fn new(start: &str, end: &str) -> (scanner: SnippetScanner)
        ensures
            scanner.wf(),
            scanner.start() == start@,
            scanner.end() == end@,
            scanner.seen() == Seq::<Seq<char>>::empty(),
    {
        let block: Vec<String> = Vec::new();
        proof {
            let none = Seq::<Seq<char>>::empty();
            lemma_run_length(none, other_line(end@));
            assert(none.skip(0) =~= none);
            lemma_run_length(none, other_line(start@));
            assert(texts(block@) =~= none);
        }
        SnippetScanner {
            start: String::from_str(start),
            end: String::from_str(end),
            block,
            complete: false,
            seen: Ghost(Seq::empty()),
        }
    }

    /// Takes the next older line of the log, and tells whether more lines
    /// are needed. Once none is needed, further lines are not read.
    pub fn push(&mut self, line: String) -> (more: bool)
        requires
            old(self).wf(),
        ensures
            final(self).wf(),
            final(self).start() == old(self).start(),
            final(self).end() == old(self).end(),
            final(self).seen() == if settled(old(self).seen(), old(self).start(), old(self).end()) {
                old(self).seen()
            } else {
                old(self).seen().push(line@)
            },
            more == !settled(final(self).seen(), final(self).start(), final(self).end()),
    {
        proof {
            lemma_block_push(self.seen@, line@, self.start@, self.end@);
        }
        if self.complete {
            return false;
        }
        let ghost before = texts(self.block@);
        if self.block.len() > 0 || !differs(&line, &self.end) {
            let marks_start = !differs(&line, &self.start);
            self.seen = Ghost(self.seen@.push(line@));
            self.block.push(line);
            assert(texts(self.block@) =~= before.push(line@));
            self.complete = marks_start;
        } else {
            self.seen = Ghost(self.seen@.push(line@));
            assert(texts(self.block@) =~= Seq::<Seq<char>>::empty());
        }
        !self.complete
    }

    /// The options that the lines read hold, oldest first.
    pub fn finish(self) -> (res: Result<Vec<String>, Error>)
        requires
            self.wf(),
        ensures
            match res {
                Ok(options) => snippet(self.seen(), self.start(), self.end()) == Some(
                    texts(options@),
                ),
                Err(Error::SnippetNotFound) => snippet(self.seen(), self.start(), self.end())
                    is None,
                Err(_) => false,
            },
    {
        options_of_block(&self.block, &self.start)
    }
}

impl Service {
    /// The options that the tracer has left in the log, oldest first, where
    /// `lines` is the log from its newest line backwards, and `start` and
    /// `end` are the lines that mark the start and the end of the options.
    pub fn profiling_result(lines: &[String], start: &str, end: &str) -> (res: Result<
        Vec<String>,
        Error,
    >)
        ensures
            match res {
                Ok(options) => snippet(texts(lines@), start@, end@) == Some(texts(options@)),
                Err(Error::SnippetNotFound) => snippet(texts(lines@), start@, end@) is None,
                Err(_) => false,
            },
    {
        let start = String::from_str(start);
        let end = String::from_str(end);
        let mut first: usize = 0;
        while first < lines.len() && differs(&lines[first], &end)
            invariant
                first <= lines.len(),
                forall|j: int| 0 <= j < first ==> other_line(end@)(#[trigger] texts(lines@)[j]),
            decreases lines.len() - first,
        {
            first += 1;
        }
        proof {
            lemma_run_length_is(texts(lines@), other_line(end@), first as int);
        }
        let rest = slice_subrange(lines, first, lines.len());
        assert(texts(rest@) =~= texts(lines@).skip(first as int));
        let block = take_through(rest, &start);
        options_of_block(&block, &start)
    }
}

} // verus!
