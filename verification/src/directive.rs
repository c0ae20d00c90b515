//! The values that the unit's configuration files give to a directive, as
//! the service manager resolves them.
//!
//! A line `Key=value` gives `Key` one more value. A line that ends in a
//! backslash is continued by the next one. A line `Key=` forgets every value
//! given before it, in this file and in the files before it.

use crate::error::Error;
use crate::outside::string_of;
use crate::text::{
    after_first, chars_of, find_from, lemma_run_length, lemma_run_length_is, lines, lines_of,
    other_than, position, run_length, skip_whitespace_back, skip_whitespace_in, slice_of,
    starts_with, texts, trim, trim_start, views, whitespace,
};
use crate::unit::Service;
use vstd::prelude::*;

verus! {

/// Whether `line` gives a value to the directive `key`.
pub open spec fn is_directive(key: Seq<char>, line: Seq<char>) -> bool {
    (key + seq!['=']).is_prefix_of(line)
}

/// Whether `line` is continued by the line after it.
pub open spec fn continues(line: Seq<char>) -> bool {
    line.len() > 0 && line.last() == '\\'
}

/// The predicate `continues`.
pub open spec fn continued() -> spec_fn(Seq<char>) -> bool {
    |line: Seq<char>| continues(line)
}

/// `line` without the backslash that marks it as continued.
pub open spec fn payload(line: Seq<char>) -> Seq<char> {
    if continues(line) {
        line.drop_last()
    } else {
        line
    }
}

/// What the first line of a directive contributes to its value: what follows
/// the first `=`, without surrounding whitespace. Where the line is
/// continued, the whitespace before the backslash stays.
pub open spec fn head_value(line: Seq<char>) -> Seq<char> {
    if continues(line) {
        trim_start(after_first(payload(line), '='))
    } else {
        trim(after_first(line, '='))
    }
}

/// What the `n` lines from index `from` on add to the value that they
/// continue: for each a space and the line, without its leading whitespace
/// and without the backslash that continues it.
pub open spec fn continuation(rows: Seq<Seq<char>>, from: int, n: nat) -> Seq<char>
    decreases n,
{
    if n == 0 {
        Seq::empty()
    } else {
        continuation(rows, from, (n - 1) as nat) + seq![' '] + trim_start(
            payload(rows[from + n - 1]),
        )
    }
}

/// The number of lines from index `at` on that are continued.
pub open spec fn continued_lines(rows: Seq<Seq<char>>, at: int) -> nat {
    run_length(rows.skip(at), continued())
}

/// The value of the directive that starts at line `at`.
pub open spec fn directive_value(rows: Seq<Seq<char>>, at: int) -> Seq<char> {
    head_value(rows[at]) + continuation(rows, at + 1, continued_lines(rows, at))
}

/// `first` before what follows it, where anything follows.
pub open spec fn followed_by(first: Seq<Seq<char>>, rest: Option<Seq<Seq<char>>>) -> Option<
    Seq<Seq<char>>,
> {
    match rest {
        Some(r) => Some(first + r),
        None => None,
    }
}

/// The values that the lines from index `at` on give to `key`, in order;
/// `None` where the last of them is to be continued and no line follows.
pub open spec fn file_values(key: Seq<char>, rows: Seq<Seq<char>>, at: int) -> Option<
    Seq<Seq<char>>,
>
    decreases rows.len() - at,
{
    if at < 0 || at >= rows.len() {
        Some(Seq::empty())
    } else if !is_directive(key, rows[at]) {
        file_values(key, rows, at + 1)
    } else if at + continued_lines(rows, at) >= rows.len() {
        None
    } else {
        followed_by(
            seq![directive_value(rows, at)],
            file_values(key, rows, at + continued_lines(rows, at) + 1),
        )
    }
}

/// The values that a file of the given text gives to `key`.
pub open spec fn values_in(key: Seq<char>, file: Seq<char>) -> Option<Seq<Seq<char>>> {
    file_values(key, lines_of(file), 0)
}

/// The predicate that holds of the files in which every directive `key` is
/// complete.
pub open spec fn complete(key: Seq<char>) -> spec_fn(Seq<char>) -> bool {
    |file: Seq<char>| values_in(key, file) is Some
}

/// The index of the first file that ends in the middle of a directive `key`,
/// or the number of files where there is none.
pub open spec fn first_truncated(key: Seq<char>, files: Seq<Seq<char>>) -> nat {
    run_length(files, complete(key))
}

/// All values that the files give to `key`, file after file.
pub open spec fn gathered(key: Seq<char>, files: Seq<Seq<char>>) -> Seq<Seq<char>>
    decreases files.len(),
{
    if files.len() == 0 {
        Seq::empty()
    } else {
        gathered(key, files.drop_last()) + match values_in(key, files.last()) {
            Some(values) => values,
            None => Seq::empty(),
        }
    }
}

/// The predicate that holds of the values that are not empty.
pub open spec fn nonempty() -> spec_fn(Seq<char>) -> bool {
    |value: Seq<char>| value.len() > 0
}

/// The values that are in force: those after the last empty one, or all of
/// them where none is empty.
pub open spec fn in_force(values: Seq<Seq<char>>) -> Seq<Seq<char>> {
    values.skip(values.len() - run_length(values.reverse(), nonempty()))
}

/// The values of the directive `key` that the files, in their order, leave
/// in force; `None` where one of the files ends in the middle of a directive.
pub open spec fn directive_values(key: Seq<char>, files: Seq<Seq<char>>) -> Option<
    Seq<Seq<char>>,
> {
    if first_truncated(key, files) < files.len() {
        None
    } else {
        Some(in_force(gathered(key, files)))
    }
}

/// The run of a concatenation ends in its first part, or goes on into the
/// second.
pub proof fn lemma_run_length_concat<A>(a: Seq<A>, b: Seq<A>, p: spec_fn(A) -> bool)
    ensures
        run_length(a + b, p) == if run_length(a, p) < a.len() {
            run_length(a, p)
        } else {
            a.len() + run_length(b, p)
        },
{
    lemma_run_length(a, p);
    lemma_run_length(b, p);
    let n = if run_length(a, p) < a.len() {
        run_length(a, p) as int
    } else {
        (a.len() + run_length(b, p)) as int
    };
    let ab = a + b;
    assert forall|j: int| 0 <= j < n implies p(#[trigger] ab[j]) by {
        if j < a.len() {
            assert(ab[j] == a[j]);
        } else {
            assert(ab[j] == b[j - a.len()]);
        }
    }
    if n < ab.len() {
        if run_length(a, p) < a.len() {
            assert(ab[n] == a[n]);
        } else {
            assert(ab[n] == b[n - a.len()]);
        }
    }
    lemma_run_length_is(ab, p, n);
}

/// Later values take earlier ones out of force exactly if one of the later
/// ones is empty.
pub proof fn lemma_in_force_concat(earlier: Seq<Seq<char>>, later: Seq<Seq<char>>)
    ensures
        in_force(earlier + later) == if run_length(later.reverse(), nonempty()) < later.len() {
            in_force(later)
        } else {
            in_force(earlier) + later
        },
{
    let all = earlier + later;
    assert(all.reverse() =~= later.reverse() + earlier.reverse());
    lemma_run_length_concat(later.reverse(), earlier.reverse(), nonempty());
    lemma_run_length(later.reverse(), nonempty());
    lemma_run_length(earlier.reverse(), nonempty());
    let k = run_length(later.reverse(), nonempty());
    if k < later.len() {
        assert(all.skip(all.len() - k) =~= later.skip(later.len() - k));
    } else {
        let m = run_length(earlier.reverse(), nonempty());
        assert(all.skip(all.len() - (later.len() + m)) =~= earlier.skip(earlier.len() - m)
            + later);
    }
}

/// An empty value puts out of force whatever came before it: what is in
/// force is what is in force of the values after it.
pub proof fn lemma_reset_on_empty(before: Seq<Seq<char>>, after: Seq<Seq<char>>)
    ensures
        in_force(before + seq![Seq::<char>::empty()] + after) == in_force(after),
{
    let reset = seq![Seq::<char>::empty()];
    let tail = reset + after;
    assert(before + reset + after =~= before + tail);
    lemma_in_force_concat(before, tail);
    lemma_in_force_concat(reset, after);
    lemma_run_length(tail.reverse(), nonempty());
    lemma_run_length(after.reverse(), nonempty());
    lemma_run_length(reset.reverse(), nonempty());
    assert(tail.reverse() =~= after.reverse() + reset.reverse());
    lemma_run_length_concat(after.reverse(), reset.reverse(), nonempty());
    assert(reset.reverse()[0].len() == 0);
    assert(run_length(reset.reverse(), nonempty()) == 0);
    assert(in_force(reset) =~= Seq::<Seq<char>>::empty());
    assert(Seq::<Seq<char>>::empty() + after =~= after);
}

/// Where no value is empty, all of them are in force.
pub proof fn lemma_in_force_without_reset(values: Seq<Seq<char>>)
    requires
        forall|i: int| 0 <= i < values.len() ==> (#[trigger] values[i]).len() > 0,
    ensures
        in_force(values) == values,
{
    let back = values.reverse();
    assert forall|j: int| 0 <= j < back.len() implies nonempty()(#[trigger] back[j]) by {
        assert(back[j] == values[values.len() - 1 - j]);
    }
    lemma_run_length_is(back, nonempty(), back.len() as int);
    assert(values.skip(0) =~= values);
}

/// Values with an empty one among them put all earlier values out of
/// force.
pub proof fn lemma_in_force_after_reset(earlier: Seq<Seq<char>>, later: Seq<Seq<char>>)
    requires
        exists|i: int| 0 <= i < later.len() && (#[trigger] later[i]).len() == 0,
    ensures
        in_force(earlier + later) == in_force(later),
{
    let i = choose|i: int| 0 <= i < later.len() && (#[trigger] later[i]).len() == 0;
    let back = later.reverse();
    lemma_run_length(back, nonempty());
    if run_length(back, nonempty()) >= later.len() {
        assert(nonempty()(back[later.len() - 1 - i]));
    }
    lemma_in_force_concat(earlier, later);
}

/// The values that files give to a directive are those of the first files,
/// then those of the files after them.
pub proof fn lemma_gathered_concat(key: Seq<char>, a: Seq<Seq<char>>, b: Seq<Seq<char>>)
    ensures
        gathered(key, a + b) == gathered(key, a) + gathered(key, b),
    decreases b.len(),
{
    if b.len() == 0 {
        assert(a + b =~= a);
        assert(gathered(key, a) + Seq::<Seq<char>>::empty() =~= gathered(key, a));
    } else {
        assert((a + b).drop_last() =~= a + b.drop_last());
        assert((a + b).last() == b.last());
        lemma_gathered_concat(key, a, b.drop_last());
        let tail = match values_in(key, b.last()) {
            Some(values) => values,
            None => Seq::empty(),
        };
        assert(gathered(key, a) + gathered(key, b.drop_last()) + tail =~= gathered(key, a) + (
        gathered(key, b.drop_last()) + tail));
    }
}

/// An empty value forgets everything before it, in the files before it too:
/// where the later files give the directive an empty value, the earlier
/// files do not matter.
pub proof fn lemma_reset_forgets_earlier_files(
    key: Seq<char>,
    earlier: Seq<Seq<char>>,
    later: Seq<Seq<char>>,
)
    requires
        directive_values(key, earlier + later) is Some,
        exists|i: int|
            0 <= i < gathered(key, later).len() && (#[trigger] gathered(key, later)[i]).len() == 0,
    ensures
        directive_values(key, earlier + later) == directive_values(key, later),
{
    lemma_run_length_concat(earlier, later, complete(key));
    lemma_run_length(earlier, complete(key));
    lemma_run_length(later, complete(key));
    lemma_run_length(earlier + later, complete(key));
    lemma_gathered_concat(key, earlier, later);
    lemma_in_force_after_reset(gathered(key, earlier), gathered(key, later));
}

/// A directive whose line and the `n - 1` lines after it are continued is
/// read as one value, made of its own line and the `n` lines after it; the
/// search for further values goes on behind them.
pub proof fn lemma_continued_directive(key: Seq<char>, rows: Seq<Seq<char>>, at: int, n: nat)
    requires
        0 <= at,
        at + n < rows.len(),
        is_directive(key, rows[at]),
        forall|j: int| at <= j < at + n ==> continues(#[trigger] rows[j]),
        !continues(rows[at + n]),
    ensures
        continued_lines(rows, at) == n,
        directive_value(rows, at) == head_value(rows[at]) + continuation(rows, at + 1, n),
        file_values(key, rows, at) == followed_by(
            seq![directive_value(rows, at)],
            file_values(key, rows, at + n + 1),
        ),
{
    let rest = rows.skip(at);
    assert forall|j: int| 0 <= j < n implies continued()(#[trigger] rest[j]) by {
        assert(rest[j] == rows[at + j]);
    }
    assert(rest[n as int] == rows[at + n]);
    lemma_run_length_is(rest, continued(), n as int);
}

/// A directive that is continued up to the end of the file has no value, and
/// nor has the file.
pub proof fn lemma_truncated_directive(key: Seq<char>, rows: Seq<Seq<char>>, at: int)
    requires
        0 <= at < rows.len(),
        is_directive(key, rows[at]),
        forall|j: int| at <= j < rows.len() ==> continues(#[trigger] rows[j]),
    ensures
        file_values(key, rows, at) is None,
{
    let rest = rows.skip(at);
    assert forall|j: int| 0 <= j < rest.len() implies continued()(#[trigger] rest[j]) by {
        assert(rest[j] == rows[at + j]);
    }
    lemma_run_length_is(rest, continued(), rest.len() as int);
}

/// Taking the backslash off a continued line and then the whitespace off its
/// start gives the same as doing it the other way round.
pub proof fn lemma_payload_trimmed(line: Seq<char>)
    requires
        continues(line),
    ensures
        trim_start(payload(line)) == trim_start(line).drop_last(),
        trim_start(line).len() > 0,
        trim_start(line).last() == '\\',
{
    let body = payload(line);
    let k = run_length(line, whitespace());
    lemma_run_length(line, whitespace());
    if k >= line.len() {
        assert(whitespace()(line[line.len() - 1]));
    }
    assert forall|j: int| 0 <= j < k implies whitespace()(#[trigger] body[j]) by {
        assert(body[j] == line[j]);
    }
    if k < body.len() {
        assert(body[k as int] == line[k as int]);
    }
    lemma_run_length_is(body, whitespace(), k as int);
    assert(body.skip(k as int) =~= line.skip(k as int).drop_last());
}

/// The first line of a continued directive gives what one gets by taking the
/// whitespace from both ends of what follows the `=`, and then the backslash
/// from its end.
pub proof fn lemma_head_of_continued_line(key: Seq<char>, line: Seq<char>)
    requires
        is_directive(key, line),
        continues(line),
    ensures
        head_value(line) == trim(after_first(line, '=')).drop_last(),
{
    let p = other_than('=');
    let e = position(line, '=');
    let body = payload(line);
    lemma_run_length(line, p);
    assert((key + seq!['='])[key.len() as int] == '=');
    assert(line.subrange(0, key.len() as int + 1)[key.len() as int] == line[key.len() as int]);
    assert(line[key.len() as int] == '=');
    if e > key.len() {
        assert(p(line[key.len() as int]));
    }
    assert(e < body.len());
    assert forall|j: int| 0 <= j < e implies p(#[trigger] body[j]) by {
        assert(body[j] == line[j]);
    }
    assert(body[e] == line[e]);
    lemma_run_length_is(body, p, e);
    let rest = after_first(line, '=');
    assert(continues(rest)) by {
        assert(rest.last() == line.last());
    }
    assert(after_first(body, '=') =~= payload(rest));
    lemma_payload_trimmed(rest);
    let trimmed = trim_start(rest);
    let back = trimmed.reverse();
    assert(back[0] == '\\');
    lemma_run_length_is(back, whitespace(), 0);
    assert(trimmed.take(trimmed.len() as int) =~= trimmed);
}

/// Tells whether `line` is continued by the line after it.
fn line_continues(line: &Vec<char>) -> (b: bool)
    ensures
        b == continues(line@),
{
    line.len() > 0 && line[line.len() - 1] == '\\'
}

/// The index just past the payload of `line`.
fn payload_end(line: &Vec<char>) -> (end: usize)
    ensures
        end <= line.len(),
        line@.take(end as int) == payload(line@),
{
    if line_continues(line) {
        line.len() - 1
    } else {
        assert(line@.take(line.len() as int) =~= line@);
        line.len()
    }
}

/// What the first line of a directive contributes to its value.
fn head_of(line: &Vec<char>) -> (value: Vec<char>)
    ensures
        value@ == head_value(line@),
{
    let end = payload_end(line);
    let ghost body = line@.take(end as int);
    let eq = find_from(line, 0, '=');
    let from = if eq < end {
        eq + 1
    } else {
        end
    };
    proof {
        assert(line@.skip(0) =~= line@);
        assert(body.skip(0) =~= body);
        let p = other_than('=');
        lemma_run_length(line@, p);
        if eq < end {
            assert forall|j: int| 0 <= j < eq implies p(#[trigger] body[j]) by {
                assert(body[j] == line@[j]);
            }
            assert(body[eq as int] == line@[eq as int]);
            lemma_run_length_is(body, p, eq as int);
        } else {
            assert forall|j: int| 0 <= j < end implies p(#[trigger] body[j]) by {
                assert(body[j] == line@[j]);
            }
            lemma_run_length_is(body, p, end as int);
        }
        assert(line@.subrange(from as int, end as int) =~= after_first(body, '='));
    }
    let start = skip_whitespace_in(line, from, end);
    if end < line.len() {
        slice_of(line, start, end)
    } else {
        let stop = skip_whitespace_back(line, start, end);
        slice_of(line, start, stop)
    }
}

/// Adds to `value` what the continuing line `line` contributes.
fn append_continuation(value: &mut Vec<char>, line: &Vec<char>)
    ensures
        final(value)@ == old(value)@ + seq![' '] + trim_start(payload(line@)),
{
    let end = payload_end(line);
    assert(line@.subrange(0, end as int) =~= line@.take(end as int));
    let start = skip_whitespace_in(line, 0, end);
    value.push(' ');
    let mut i: usize = start;
    while i < end
        invariant
            start <= i <= end <= line.len(),
            value@ == old(value)@ + seq![' '] + line@.subrange(start as int, i as int),
        decreases end - i,
    {
        value.push(line[i]);
        i += 1;
        assert(value@ =~= old(value)@ + seq![' '] + line@.subrange(start as int, i as int));
    }
}

/// The values that the lines give to the directive whose prefix, the key and
/// `=`, is `prefix`.
fn values_of_lines(prefix: &Vec<char>, rows: &Vec<Vec<char>>) -> (res: Option<Vec<Vec<char>>>)
    requires
        prefix@.len() > 0,
        prefix@.last() == '=',
    ensures
        match res {
            Some(values) => file_values(prefix@.drop_last(), views(rows@), 0) == Some(
                views(values@),
            ),
            None => file_values(prefix@.drop_last(), views(rows@), 0) is None,
        },
{
    let ghost key = prefix@.drop_last();
    assert(prefix@ =~= key + seq!['=']);
    let ghost all = views(rows@);
    let mut values: Vec<Vec<char>> = Vec::new();
    let mut at: usize = 0;
    assert(views(values@) =~= Seq::<Seq<char>>::empty());
    while at < rows.len()
        invariant
            at <= rows.len(),
            all == views(rows@),
            prefix@ == key + seq!['='],
            key == prefix@.drop_last(),
            file_values(key, all, 0) == followed_by(
                views(values@),
                file_values(key, all, at as int),
            ),
        decreases rows.len() - at,
    {
        assert(all[at as int] == rows@[at as int]@);
        if !starts_with(&rows[at], prefix) {
            at += 1;
        } else {
            let mut value = head_of(&rows[at]);
            let mut last: usize = at;
            while line_continues(&rows[last])
                invariant
                    at <= last < rows.len(),
                    all == views(rows@),
                    key == prefix@.drop_last(),
                    is_directive(key, all[at as int]),
                    file_values(key, all, 0) == followed_by(
                        views(values@),
                        file_values(key, all, at as int),
                    ),
                    forall|j: int| at <= j < last ==> continues(#[trigger] all[j]),
                    value@ == head_value(all[at as int]) + continuation(
                        all,
                        at + 1,
                        (last - at) as nat,
                    ),
                decreases rows.len() - last,
            {
                assert(all[last as int] == rows@[last as int]@);
                if last + 1 >= rows.len() {
                    proof {
                        let rest = all.skip(at as int);
                        assert forall|j: int| 0 <= j < rest.len() implies continued()(
                            #[trigger] rest[j],
                        ) by {
                            assert(rest[j] == all[at + j]);
                        }
                        lemma_run_length_is(rest, continued(), rest.len() as int);
                    }
                    return None;
                }
                last += 1;
                assert(all[last as int] == rows@[last as int]@);
                append_continuation(&mut value, &rows[last]);
            }
            proof {
                assert(all[last as int] == rows@[last as int]@);
                let rest = all.skip(at as int);
                assert forall|j: int| 0 <= j < last - at implies continued()(
                    #[trigger] rest[j],
                ) by {
                    assert(rest[j] == all[at + j]);
                }
                assert(rest[last - at] == all[last as int]);
                lemma_run_length_is(rest, continued(), last - at);
                assert(value@ == directive_value(all, at as int));
                let before = views(values@);
                let after = file_values(key, all, last + 1);
                assert(views(values@.push(value)) =~= before.push(value@));
                match after {
                    Some(r) => {
                        assert(before + (seq![value@] + r) =~= before.push(value@) + r);
                    },
                    None => {},
                }
            }
            values.push(value);
            at = last + 1;
        }
    }
    proof {
        assert(views(values@) + Seq::<Seq<char>>::empty() =~= views(values@));
    }
    Some(values)
}

impl Service {
    /// The values of the directive `key` that are in force after the files
    /// of the given contents have been read in their order.
    pub fn config_vals(key: &str, files: &[String]) -> (res: Result<Vec<String>, Error>)
        ensures
            match res {
                Ok(values) => directive_values(key@, texts(files@)) == Some(texts(values@)),
                Err(Error::UnexpectedEndOfFile { file }) => {
                    &&& directive_values(key@, texts(files@)) is None
                    &&& file == first_truncated(key@, texts(files@))
                },
                Err(_) => false,
            },
    {
        let ghost all = texts(files@);
        let mut prefix = chars_of(key);
        prefix.push('=');
        let mut values: Vec<String> = Vec::new();
        let mut n: usize = 0;
        proof {
            assert(texts(values@) =~= Seq::<Seq<char>>::empty());
            assert(all.take(0) =~= Seq::<Seq<char>>::empty());
            lemma_in_force_without_reset(Seq::<Seq<char>>::empty());
        }
        while n < files.len()
            invariant
                n <= files.len(),
                all == texts(files@),
                prefix@ == key@ + seq!['='],
                forall|j: int| 0 <= j < n ==> complete(key@)(#[trigger] all[j]),
                texts(values@) == in_force(gathered(key@, all.take(n as int))),
            decreases files.len() - n,
        {
            let text = chars_of(files[n].as_str());
            let rows = lines(&text);
            assert(all[n as int] == files@[n as int]@);
            assert(prefix@.drop_last() =~= key@);
            let found = match values_of_lines(&prefix, &rows) {
                Some(found) => found,
                None => {
                    proof {
                        lemma_run_length_is(all, complete(key@), n as int);
                    }
                    return Err(Error::UnexpectedEndOfFile { file: n });
                },
            };
            proof {
                let upto = all.take(n + 1);
                assert(upto.drop_last() =~= all.take(n as int));
                assert(upto.last() == all[n as int]);
                lemma_in_force_concat(gathered(key@, all.take(n as int)), views(found@));
            }
            let kept = last_reset(&found);
            if kept > 0 {
                values = Vec::new();
            }
            let ghost before = texts(values@);
            let mut i: usize = kept;
            proof {
                assert(views(found@).skip(kept as int).take(0) =~= Seq::<Seq<char>>::empty());
                assert(before + Seq::<Seq<char>>::empty() =~= before);
                if kept > 0 {
                    assert(before =~= Seq::<Seq<char>>::empty());
                } else {
                    if run_length(views(found@).reverse(), nonempty()) < found@.len() {
                    } else {
                        assert(views(found@).skip(0) =~= views(found@));
                    }
                }
            }
            while i < found.len()
                invariant
                    kept <= i <= found.len(),
                    texts(values@) == before + views(found@).subrange(kept as int, i as int),
                decreases found.len() - i,
            {
                let ghost sofar = texts(values@);
                values.push(string_of(&found[i]));
                assert(texts(values@) =~= sofar.push(found@[i as int]@));
                assert(sofar.push(found@[i as int]@) =~= before + views(found@).subrange(
                    kept as int,
                    i + 1,
                ));
                i += 1;
            }
            proof {
                assert(views(found@).subrange(kept as int, found@.len() as int) =~= views(
                    found@,
                ).skip(kept as int));
            }
            n += 1;
        }
        proof {
            assert(all.take(n as int) =~= all);
            lemma_run_length_is(all, complete(key@), n as int);
        }
        Ok(values)
    }
}

/// The index just past the last empty value, or 0 where none is empty.
fn last_reset(values: &Vec<Vec<char>>) -> (at: usize)
    ensures
        at <= values.len(),
        at == values.len() - run_length(views(values@).reverse(), nonempty()),
{
    let mut at: usize = values.len();
    while at > 0 && values[at - 1].len() > 0
        invariant
            at <= values.len(),
            forall|j: int| at <= j < values.len() ==> (#[trigger] values@[j])@.len() > 0,
        decreases at,
    {
        at -= 1;
    }
    proof {
        let back = views(values@).reverse();
        assert forall|j: int| 0 <= j < values.len() - at implies nonempty()(#[trigger] back[j]) by {
            assert(back[j] == values@[values.len() - 1 - j]@);
        }
        if values.len() - at < back.len() {
            assert(back[values.len() - at] == values@[at - 1]@);
        }
        lemma_run_length_is(back, nonempty(), values.len() - at);
    }
    at
}

} // verus!
