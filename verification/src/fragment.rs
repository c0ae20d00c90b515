//! The text of the two fragments that this tool lays over a unit: the
//! profiling fragment, which runs the unit's start commands under the
//! tracer, and the hardening fragment, which installs the options found.

use crate::directive::directive_values;
use crate::error::Error;
use crate::outside::{join, joined, random_u32, string_of};
use crate::text::{
    hex8, hex8_of, lemma_run_length_is, lines_of, other_than, texts, zero_padded,
    zero_padded_decimal,
};
use crate::unit::{Service, TOOL_NAME};
use vstd::prelude::*;

verus! {

/// The first character of a start command that the service manager runs
/// with full privileges, whatever the unit's hardening options say.
pub const PRIVILEGED_PREFIX: char = '+';

/// Whether the service manager runs `cmd` unconfined. Tracing such a command
/// would defeat its purpose.
pub open spec fn is_privileged(cmd: Seq<char>) -> bool {
    cmd.len() > 0 && cmd[0] == PRIVILEGED_PREFIX
}

/// How the tracer is to be called: the path of this tool's executable, the
/// hardening options in the form its command line takes, and the number that
/// tells this profiling run's data directory from others.
pub struct Tracing {
    pub exe: Seq<char>,
    pub options: Seq<char>,
    pub suffix: u32,
}

/// The lines as the text of a file: each followed by a line feed.
pub open spec fn file_text(lines: Seq<Seq<char>>) -> Seq<char>
    decreases lines.len(),
{
    if lines.len() == 0 {
        Seq::empty()
    } else {
        file_text(lines.drop_last()) + lines.last() + seq!['\n']
    }
}

/// The two lines that every fragment of this tool starts with.
pub open spec fn header() -> Seq<Seq<char>> {
    seq!["# This file has been autogenerated by "@ + TOOL_NAME@, "[Service]"@]
}

/// The name of the runtime directory that holds the data of one profiling
/// run.
pub open spec fn profile_data_dir_name(suffix: u32) -> Seq<char> {
    TOOL_NAME@ + "-profile-data_"@ + hex8(suffix)
}

/// The file that takes the trace of the start command with the given index,
/// counted from 1.
pub open spec fn profile_data_path(suffix: u32, index: nat) -> Seq<char> {
    "/run/"@ + profile_data_dir_name(suffix) + "/"@ + zero_padded(index, 3)
}

/// The files that take the traces of `n` start commands.
pub open spec fn profile_data_paths(suffix: u32, n: nat) -> Seq<Seq<char>> {
    Seq::new(n, |i: int| profile_data_path(suffix, (i + 1) as nat))
}

/// The number of commands that are traced: those that are not privileged.
pub open spec fn traced_count(cmds: Seq<Seq<char>>) -> nat
    decreases cmds.len(),
{
    if cmds.len() == 0 {
        0
    } else {
        traced_count(cmds.drop_last()) + if is_privileged(cmds.last()) {
            0nat
        } else {
            1nat
        }
    }
}

/// The line that runs `cmd` under the tracer, as the start command with the
/// given index.
pub open spec fn traced_command(t: Tracing, key: Seq<char>, index: nat, cmd: Seq<char>) -> Seq<
    char,
> {
    key + "="@ + t.exe + " run "@ + t.options + " -p "@ + profile_data_path(t.suffix, index)
        + " -- "@ + cmd
}

/// The line that stands for command `k` of a family: the command itself if
/// it is privileged; else the command under the tracer, with the index that
/// follows that of the last command traced before it, in this family or in
/// an earlier one.
pub open spec fn command_line(
    t: Tracing,
    key: Seq<char>,
    cmds: Seq<Seq<char>>,
    traced_before: nat,
    k: int,
) -> Seq<char> {
    if is_privileged(cmds[k]) {
        key + "="@ + cmds[k]
    } else {
        traced_command(t, key, traced_before + traced_count(cmds.take(k)) + 1, cmds[k])
    }
}

/// The lines for one family of start commands: none if the unit has no such
/// command; else a line that resets the directive, then one line for each
/// command.
pub open spec fn family_lines(
    t: Tracing,
    key: Seq<char>,
    cmds: Seq<Seq<char>>,
    traced_before: nat,
) -> Seq<Seq<char>> {
    if cmds.len() == 0 {
        Seq::empty()
    } else {
        seq![key + "="@] + Seq::new(
            cmds.len(),
            |k: int| command_line(t, key, cmds, traced_before, k),
        )
    }
}

/// The line that, once the unit has stopped, merges the traces of the
/// `traced` commands into one profile.
pub open spec fn merge_line(t: Tracing, traced: nat) -> Seq<char> {
    "ExecStopPost="@ + t.exe + " merge-profile-data "@ + t.options + " "@ + joined(
        profile_data_paths(t.suffix, traced),
        " "@,
    )
}

/// The settings that the unit needs while it is traced. A unit that filters
/// system calls must let the tracer's through. One that does not gets no
/// such line: it would turn into a filter that allows nothing else.
pub open spec fn tracing_settings(filtered: bool, suffix: u32) -> Seq<Seq<char>> {
    seq!["NotifyAccess=all"@, "Environment=RUST_BACKTRACE=1"@] + if filtered {
        seq!["SystemCallFilter=@debug"@]
    } else {
        Seq::<Seq<char>>::empty()
    } + seq![
        "TimeoutStartSec=infinity"@,
        "KillMode=control-group"@,
        "StandardOutput=journal"@,
        "RuntimeDirectory="@ + profile_data_dir_name(suffix),
    ]
}

/// The lines of the profiling fragment of a unit with the given start
/// commands.
pub open spec fn profile_fragment_lines(
    filtered: bool,
    t: Tracing,
    pre: Seq<Seq<char>>,
    main: Seq<Seq<char>>,
    post: Seq<Seq<char>>,
) -> Seq<Seq<char>> {
    header() + tracing_settings(filtered, t.suffix) + family_lines(t, "ExecStartPre"@, pre, 0)
        + family_lines(t, "ExecStart"@, main, traced_count(pre)) + family_lines(
        t,
        "ExecStartPost"@,
        post,
        traced_count(pre) + traced_count(main),
    ) + seq![merge_line(t, traced_count(pre) + traced_count(main) + traced_count(post))]
}

/// The lines of the hardening fragment that installs the given options.
pub open spec fn hardening_fragment_lines(options: Seq<Seq<char>>) -> Seq<Seq<char>> {
    header() + options
}

/// The text of the profiling fragment for the files that configure a unit,
/// if the tracer's data directory gets the given suffix; `None` where one of
/// the files ends in the middle of a directive that is read.
pub open spec fn profile_fragment_for(files: Seq<Seq<char>>, t: Tracing) -> Option<Seq<char>> {
    match (
        directive_values("SystemCallFilter"@, files),
        directive_values("ExecStartPre"@, files),
        directive_values("ExecStart"@, files),
        directive_values("ExecStartPost"@, files),
    ) {
        (Some(filter), Some(pre), Some(main), Some(post)) => Some(
            file_text(profile_fragment_lines(filter.len() > 0, t, pre, main, post)),
        ),
        _ => None,
    }
}

/// The error that reading the start commands from the files ends in: that of
/// the first directive, in the order in which they are read, that one of the
/// files cuts short.
pub open spec fn profile_fragment_error(files: Seq<Seq<char>>) -> Option<nat> {
    if directive_values("SystemCallFilter"@, files) is None {
        Some(crate::directive::first_truncated("SystemCallFilter"@, files))
    } else if directive_values("ExecStartPre"@, files) is None {
        Some(crate::directive::first_truncated("ExecStartPre"@, files))
    } else if directive_values("ExecStart"@, files) is None {
        Some(crate::directive::first_truncated("ExecStart"@, files))
    } else if directive_values("ExecStartPost"@, files) is None {
        Some(crate::directive::first_truncated("ExecStartPost"@, files))
    } else {
        None
    }
}

/// The commands of two lists together are traced as often as those of the
/// one and those of the other.
pub proof fn lemma_traced_count_concat(a: Seq<Seq<char>>, b: Seq<Seq<char>>)
    ensures
        traced_count(a + b) == traced_count(a) + traced_count(b),
    decreases b.len(),
{
    if b.len() == 0 {
        assert(a + b =~= a);
    } else {
        assert((a + b).drop_last() =~= a + b.drop_last());
        assert((a + b).last() == b.last());
        lemma_traced_count_concat(a, b.drop_last());
    }
}

/// The directive of the family that command `k` of all start commands
/// belongs to, where the commands before the start come first, then those
/// of the start, then those after it.
pub open spec fn start_command_key(
    pre: Seq<Seq<char>>,
    main: Seq<Seq<char>>,
    post: Seq<Seq<char>>,
    k: int,
) -> Seq<char> {
    if k < pre.len() {
        "ExecStartPre"@
    } else if k < pre.len() + main.len() {
        "ExecStart"@
    } else {
        "ExecStartPost"@
    }
}

/// The line of the profiling fragment that stands for command `k` of all
/// start commands.
pub open spec fn start_command_line(
    t: Tracing,
    pre: Seq<Seq<char>>,
    main: Seq<Seq<char>>,
    post: Seq<Seq<char>>,
    k: int,
) -> Seq<char> {
    if k < pre.len() {
        command_line(t, "ExecStartPre"@, pre, 0, k)
    } else if k < pre.len() + main.len() {
        command_line(t, "ExecStart"@, main, traced_count(pre), k - pre.len())
    } else {
        command_line(
            t,
            "ExecStartPost"@,
            post,
            traced_count(pre) + traced_count(main),
            k - pre.len() - main.len(),
        )
    }
}

/// The index under which command `k` of `all` is traced: one more than the
/// number of commands traced before it.
pub open spec fn trace_index(all: Seq<Seq<char>>, k: int) -> nat {
    traced_count(all.take(k)) + 1
}

/// The line that stands for a start command is one of the lines of the
/// profiling fragment.
pub proof fn lemma_start_command_line_is_written(
    filtered: bool,
    t: Tracing,
    pre: Seq<Seq<char>>,
    main: Seq<Seq<char>>,
    post: Seq<Seq<char>>,
    k: int,
)
    requires
        0 <= k < pre.len() + main.len() + post.len(),
    ensures
        profile_fragment_lines(filtered, t, pre, main, post).contains(
            start_command_line(t, pre, main, post, k),
        ),
{
    let head = header() + tracing_settings(filtered, t.suffix);
    let f1 = family_lines(t, "ExecStartPre"@, pre, 0);
    let f2 = family_lines(t, "ExecStart"@, main, traced_count(pre));
    let f3 = family_lines(t, "ExecStartPost"@, post, traced_count(pre) + traced_count(main));
    let last = seq![
        merge_line(t, traced_count(pre) + traced_count(main) + traced_count(post)),
    ];
    let all = profile_fragment_lines(filtered, t, pre, main, post);
    assert(all == head + f1 + f2 + f3 + last);
    let line = start_command_line(t, pre, main, post, k);
    if k < pre.len() {
        assert(f1[k + 1] == line);
        assert(all[head.len() + k + 1] == line);
    } else if k < pre.len() + main.len() {
        let j = k - pre.len();
        assert(f2[j + 1] == line);
        assert(all[head.len() + f1.len() + j + 1] == line);
    } else {
        let j = k - pre.len() - main.len();
        assert(f3[j + 1] == line);
        assert(all[head.len() + f1.len() + f2.len() + j + 1] == line);
    }
}

/// A privileged start command is never rewritten: the line that stands for
/// it is its directive with the command as it was.
pub proof fn lemma_privileged_command_is_kept(
    t: Tracing,
    pre: Seq<Seq<char>>,
    main: Seq<Seq<char>>,
    post: Seq<Seq<char>>,
    k: int,
)
    requires
        0 <= k < pre.len() + main.len() + post.len(),
        is_privileged((pre + main + post)[k]),
    ensures
        start_command_line(t, pre, main, post, k) == start_command_key(pre, main, post, k) + "="@
            + (pre + main + post)[k],
{
}

/// Any other start command is always rewritten: the line that stands for it
/// runs it under the tracer, with the index that counts the commands traced
/// so far in all three families together.
pub proof fn lemma_other_command_is_traced(
    t: Tracing,
    pre: Seq<Seq<char>>,
    main: Seq<Seq<char>>,
    post: Seq<Seq<char>>,
    k: int,
)
    requires
        0 <= k < pre.len() + main.len() + post.len(),
        !is_privileged((pre + main + post)[k]),
    ensures
        start_command_line(t, pre, main, post, k) == traced_command(
            t,
            start_command_key(pre, main, post, k),
            trace_index(pre + main + post, k),
            (pre + main + post)[k],
        ),
{
    let all = pre + main + post;
    if k < pre.len() {
        assert(all.take(k) =~= pre.take(k));
    } else if k < pre.len() + main.len() {
        let j = k - pre.len();
        assert(all.take(k) =~= pre + main.take(j));
        lemma_traced_count_concat(pre, main.take(j));
    } else {
        let j = k - pre.len() - main.len();
        assert(all.take(k) =~= pre + main + post.take(j));
        lemma_traced_count_concat(pre + main, post.take(j));
        lemma_traced_count_concat(pre, main);
    }
}

/// The indexes start at 1 and go up by one with each command that is
/// traced, and with no other: they are contiguous, and later commands have
/// greater ones.
pub proof fn lemma_trace_indexes_are_contiguous(all: Seq<Seq<char>>, k: int)
    requires
        0 <= k < all.len(),
    ensures
        trace_index(all, 0) == 1,
        trace_index(all, k + 1) == trace_index(all, k) + if is_privileged(all[k]) {
            0nat
        } else {
            1nat
        },
        forall|j: int| 0 <= j <= k ==> trace_index(all, j) <= #[trigger] trace_index(all, k),
        !is_privileged(all[k]) ==> trace_index(all, k) <= traced_count(all),
    decreases k,
{
    assert(all.take(0) =~= Seq::<Seq<char>>::empty());
    assert(all.take(k + 1).drop_last() =~= all.take(k));
    assert(all.take(k + 1).last() == all[k]);
    if k > 0 {
        lemma_trace_indexes_are_contiguous(all, k - 1);
        assert(all.take(k).drop_last() =~= all.take(k - 1));
        assert forall|j: int| 0 <= j <= k implies trace_index(all, j) <= #[trigger] trace_index(
            all,
            k,
        ) by {
            if j < k {
                assert(trace_index(all, j) <= trace_index(all, k - 1));
            }
        }
    }
    assert(all =~= all.take(k + 1) + all.skip(k + 1));
    lemma_traced_count_concat(all.take(k + 1), all.skip(k + 1));
}

/// The traces that are merged when the unit has stopped are those of all
/// commands traced, in the order of their indexes.
pub proof fn lemma_all_traces_are_merged(
    filtered: bool,
    t: Tracing,
    pre: Seq<Seq<char>>,
    main: Seq<Seq<char>>,
    post: Seq<Seq<char>>,
)
    ensures
        profile_fragment_lines(filtered, t, pre, main, post).last() == merge_line(
            t,
            traced_count(pre + main + post),
        ),
        forall|i: int|
            0 <= i < traced_count(pre + main + post) ==> #[trigger] profile_data_paths(
                t.suffix,
                traced_count(pre + main + post),
            )[i] == profile_data_path(t.suffix, (i + 1) as nat),
{
    lemma_traced_count_concat(pre + main, post);
    lemma_traced_count_concat(pre, main);
}

/// The text of a file starts with its first line and a line feed.
pub proof fn lemma_file_text_first(first: Seq<char>, rest: Seq<Seq<char>>)
    ensures
        file_text(seq![first] + rest) == first + seq!['\n'] + file_text(rest),
    decreases rest.len(),
{
    let all = seq![first] + rest;
    if rest.len() == 0 {
        assert(all.drop_last() =~= Seq::<Seq<char>>::empty());
        assert(rest =~= Seq::<Seq<char>>::empty());
        assert(file_text(Seq::<Seq<char>>::empty()) =~= Seq::<char>::empty());
        assert(all.last() == first);
        assert(file_text(all) =~= first + seq!['\n'] + file_text(rest));
    } else {
        assert(all.drop_last() =~= seq![first] + rest.drop_last());
        assert(all.last() == rest.last());
        lemma_file_text_first(first, rest.drop_last());
        assert(file_text(all) =~= first + seq!['\n'] + file_text(rest));
    }
}

/// What is written is what is read: a file of lines that hold no line feed
/// and end in no carriage return is read as those lines.
pub proof fn lemma_lines_of_file_text(lines: Seq<Seq<char>>)
    requires
        forall|i: int, j: int|
            0 <= i < lines.len() && 0 <= j < lines[i].len() ==> #[trigger] lines[i][j] != '\n',
        forall|i: int|
            0 <= i < lines.len() && lines[i].len() > 0 ==> (#[trigger] lines[i]).last() != '\r',
    ensures
        lines_of(file_text(lines)) == lines,
    decreases lines.len(),
{
    if lines.len() > 0 {
        let first = lines[0];
        let rest = lines.skip(1);
        assert(lines =~= seq![first] + rest);
        lemma_file_text_first(first, rest);
        let text = file_text(lines);
        assert forall|j: int| 0 <= j < first.len() implies other_than('\n')(#[trigger] text[j]) by {
            assert(text[j] == first[j]);
            assert(lines[0][j] != '\n');
        }
        assert(text[first.len() as int] == '\n');
        lemma_run_length_is(text, other_than('\n'), first.len() as int);
        assert(text.take(first.len() as int) =~= first);
        assert(text.skip(first.len() as int + 1) =~= file_text(rest));
        assert forall|i: int, j: int| 0 <= i < rest.len() && 0 <= j < rest[i].len() implies
            #[trigger] rest[i][j] != '\n' by {
            assert(rest[i] == lines[i + 1]);
            assert(lines[i + 1][j] != '\n');
        }
        assert forall|i: int| 0 <= i < rest.len() && rest[i].len() > 0 implies (
        #[trigger] rest[i]).last() != '\r' by {
            assert(rest[i] == lines[i + 1]);
        }
        lemma_lines_of_file_text(rest);
    }
}

/// Commands with different indexes leave their traces in different files.
pub proof fn lemma_traces_are_kept_apart(suffix: u32, i: nat, j: nat)
    requires
        i != j,
    ensures
        profile_data_path(suffix, i) != profile_data_path(suffix, j),
{
    let dir = "/run/"@ + profile_data_dir_name(suffix) + "/"@;
    crate::text::lemma_zero_padded_differs(i, j, 3);
    assert((dir + zero_padded(i, 3)).skip(dir.len() as int) =~= zero_padded(i, 3));
    assert((dir + zero_padded(j, 3)).skip(dir.len() as int) =~= zero_padded(j, 3));
}

/// Tells whether the service manager runs `cmd` unconfined.
pub fn command_is_privileged(cmd: &str) -> (b: bool)
    ensures
        b == is_privileged(cmd@),
{
    cmd.unicode_len() > 0 && cmd.get_char(0) == PRIVILEGED_PREFIX
}

/// The name of the runtime directory of the profiling run with the given
/// suffix.
pub fn profile_data_dir(suffix: u32) -> (name: String)
    ensures
        name@ == profile_data_dir_name(suffix),
{
    let mut name = String::from_str(TOOL_NAME);
    name.append("-profile-data_");
    let digits = string_of(&hex8_of(suffix));
    name.append(digits.as_str());
    name
}

/// The file that takes the trace of the start command with the given index.
fn data_path(suffix: u32, index: u128) -> (path: String)
    ensures
        path@ == profile_data_path(suffix, index as nat),
{
    let mut path = String::from_str("/run/");
    let dir = profile_data_dir(suffix);
    path.append(dir.as_str());
    path.append("/");
    let number = string_of(&zero_padded_decimal(index, 3));
    path.append(number.as_str());
    path
}

/// Adds the lines for one family of start commands, and the files that take
/// their traces.
fn push_family(
    lines: &mut Vec<String>,
    paths: &mut Vec<String>,
    key: &str,
    cmds: &[String],
    exe: &str,
    options: &str,
    suffix: u32,
)
    requires
        texts(old(paths)@) == profile_data_paths(suffix, old(paths)@.len()),
    ensures
        texts(final(lines)@) == texts(old(lines)@) + family_lines(
            Tracing { exe: exe@, options: options@, suffix },
            key@,
            texts(cmds@),
            old(paths)@.len(),
        ),
        final(paths)@.len() == old(paths)@.len() + traced_count(texts(cmds@)),
        texts(final(paths)@) == profile_data_paths(suffix, final(paths)@.len()),
{
    let ghost t = Tracing { exe: exe@, options: options@, suffix };
    let ghost all = texts(cmds@);
    let ghost before = texts(lines@);
    let ghost base = paths@.len();
    if cmds.len() == 0 {
        assert(before + Seq::<Seq<char>>::empty() =~= before);
        return ;
    }
    let mut reset = String::from_str(key);
    reset.append("=");
    lines.push(reset);
    let mut k: usize = 0;
    proof {
        assert(all.take(0) =~= Seq::<Seq<char>>::empty());
        assert(texts(lines@) =~= before + (seq![key@ + "="@] + Seq::new(
            0,
            |j: int| command_line(t, key@, all, base, j),
        )));
    }
    while k < cmds.len()
        invariant
            k <= cmds.len(),
            all == texts(cmds@),
            t == (Tracing { exe: exe@, options: options@, suffix }),
            texts(lines@) == before + (seq![key@ + "="@] + Seq::new(
                k as nat,
                |j: int| command_line(t, key@, all, base, j),
            )),
            paths@.len() == base + traced_count(all.take(k as int)),
            texts(paths@) == profile_data_paths(suffix, paths@.len()),
        decreases cmds.len() - k,
    {
        let ghost sofar = texts(lines@);
        let ghost files = texts(paths@);
        let cmd = cmds[k].as_str();
        let mut line = String::from_str(key);
        line.append("=");
        proof {
            assert(all[k as int] == cmd@);
            assert(all.take(k + 1).drop_last() =~= all.take(k as int));
            assert(all.take(k + 1).last() == all[k as int]);
        }
        if command_is_privileged(cmd) {
            line.append(cmd);
        } else {
            let path = data_path(suffix, paths.len() as u128 + 1);
            line.append(exe);
            line.append(" run ");
            line.append(options);
            line.append(" -p ");
            line.append(path.as_str());
            line.append(" -- ");
            line.append(cmd);
            paths.push(path);
            proof {
                assert(texts(paths@) =~= files.push(path@));
                assert(files.push(path@) =~= profile_data_paths(suffix, paths@.len()));
            }
        }
        assert(line@ == command_line(t, key@, all, base, k as int));
        lines.push(line);
        proof {
            assert(texts(lines@) =~= sofar.push(line@));
            assert(sofar.push(line@) =~= before + (seq![key@ + "="@] + Seq::new(
                (k + 1) as nat,
                |j: int| command_line(t, key@, all, base, j),
            )));
        }
        k += 1;
    }
    proof {
        assert(all.take(k as int) =~= all);
    }
}

/// The text of a file of the given lines.
pub fn render(lines: &Vec<String>) -> (text: String)
    ensures
        text@ == file_text(texts(lines@)),
{
    let mut text = String::new();
    let mut i: usize = 0;
    assert(texts(lines@).take(0) =~= Seq::<Seq<char>>::empty());
    while i < lines.len()
        invariant
            i <= lines.len(),
            text@ == file_text(texts(lines@).take(i as int)),
        decreases lines.len() - i,
    {
        proof {
            let upto = texts(lines@).take(i + 1);
            assert(upto.drop_last() =~= texts(lines@).take(i as int));
            assert(upto.last() == lines@[i as int]@);
            reveal_strlit("\n");
            assert("\n"@ =~= seq!['\n']);
        }
        text.append(lines[i].as_str());
        text.append("\n");
        i += 1;
    }
    assert(texts(lines@).take(i as int) =~= texts(lines@));
    text
}

/// The two lines that every fragment of this tool starts with.
fn header_lines() -> (lines: Vec<String>)
    ensures
        texts(lines@) == header(),
{
    let mut lines: Vec<String> = Vec::new();
    let mut first = String::from_str("# This file has been autogenerated by ");
    first.append(TOOL_NAME);
    lines.push(first);
    lines.push(String::from_str("[Service]"));
    assert(texts(lines@) =~= header());
    lines
}

/// The text of the profiling fragment of a unit with the given start
/// commands: `pre`, `main` and `post` are the values of `ExecStartPre`,
/// `ExecStart` and `ExecStartPost`, and `filtered` tells whether the unit
/// filters system calls.
pub fn profile_fragment(
    filtered: bool,
    suffix: u32,
    exe: &str,
    options: &str,
    pre: &[String],
    main: &[String],
    post: &[String],
) -> (text: String)
    ensures
        text@ == file_text(
            profile_fragment_lines(
                filtered,
                Tracing { exe: exe@, options: options@, suffix },
                texts(pre@),
                texts(main@),
                texts(post@),
            ),
        ),
{
    let ghost t = Tracing { exe: exe@, options: options@, suffix };
    let mut lines = header_lines();
    lines.push(String::from_str("NotifyAccess=all"));
    lines.push(String::from_str("Environment=RUST_BACKTRACE=1"));
    if filtered {
        lines.push(String::from_str("SystemCallFilter=@debug"));
    }
    lines.push(String::from_str("TimeoutStartSec=infinity"));
    lines.push(String::from_str("KillMode=control-group"));
    lines.push(String::from_str("StandardOutput=journal"));
    let mut runtime = String::from_str("RuntimeDirectory=");
    let dir = profile_data_dir(suffix);
    runtime.append(dir.as_str());
    lines.push(runtime);
    assert(texts(lines@) =~= header() + tracing_settings(filtered, suffix));
    let mut paths: Vec<String> = Vec::new();
    assert(texts(paths@) =~= profile_data_paths(suffix, 0));
    push_family(&mut lines, &mut paths, "ExecStartPre", pre, exe, options, suffix);
    push_family(&mut lines, &mut paths, "ExecStart", main, exe, options, suffix);
    push_family(&mut lines, &mut paths, "ExecStartPost", post, exe, options, suffix);
    let mut merge = String::from_str("ExecStopPost=");
    merge.append(exe);
    merge.append(" merge-profile-data ");
    merge.append(options);
    merge.append(" ");
    proof {
        reveal_strlit(" ");
    }
    let files = join(&paths, " ");
    merge.append(files.as_str());
    let ghost sofar = texts(lines@);
    lines.push(merge);
    proof {
        assert(texts(lines@) =~= sofar.push(merge@));
        assert(sofar.push(merge@) =~= profile_fragment_lines(
            filtered,
            t,
            texts(pre@),
            texts(main@),
            texts(post@),
        ));
    }
    render(&lines)
}

impl Service {
    /// The text of the profiling fragment to add to a unit that the files of
    /// the given contents configure, in their order. The fragment runs each
    /// start command that is not privileged under `exe`, this tool's own
    /// executable, with `hardening_opts` on its command line, and keeps the
    /// traces in a runtime directory whose name ends in a number drawn at
    /// random.
    pub fn add_profile_fragment(files: &[String], exe: &str, hardening_opts: &str) -> (res: Result<
        String,
        Error,
    >)
        ensures
            match res {
                Ok(text) => exists|suffix: u32|
                    Some(text@) == #[trigger] profile_fragment_for(
                        texts(files@),
                        Tracing { exe: exe@, options: hardening_opts@, suffix },
                    ),
                Err(Error::UnexpectedEndOfFile { file }) => Some(file as nat)
                    == profile_fragment_error(texts(files@)),
                Err(_) => false,
            },
            res is Ok <==> profile_fragment_error(texts(files@)) is None,
    {
        let filter = match Service::config_vals("SystemCallFilter", files) {
            Ok(values) => values,
            Err(e) => {
                return Err(e);
            },
        };
        let suffix = random_u32();
        let pre = match Service::config_vals("ExecStartPre", files) {
            Ok(values) => values,
            Err(e) => {
                return Err(e);
            },
        };
        let main = match Service::config_vals("ExecStart", files) {
            Ok(values) => values,
            Err(e) => {
                return Err(e);
            },
        };
        let post = match Service::config_vals("ExecStartPost", files) {
            Ok(values) => values,
            Err(e) => {
                return Err(e);
            },
        };
        let text = profile_fragment(
            filter.len() > 0,
            suffix,
            exe,
            hardening_opts,
            pre.as_slice(),
            main.as_slice(),
            post.as_slice(),
        );
        proof {
            let t = Tracing { exe: exe@, options: hardening_opts@, suffix };
            assert(Some(text@) == profile_fragment_for(texts(files@), t));
        }
        Ok(text)
    }

    /// The text of the hardening fragment that installs the given options,
    /// one to a line, each as it is written in a unit file.
    pub fn add_hardening_fragment(opts: &[String]) -> (text: String)
        ensures
            text@ == file_text(hardening_fragment_lines(texts(opts@))),
    {
        let mut lines = header_lines();
        let ghost head = texts(lines@);
        let mut i: usize = 0;
        assert(texts(opts@).take(0) =~= Seq::<Seq<char>>::empty());
        assert(head + Seq::<Seq<char>>::empty() =~= head);
        while i < opts.len()
            invariant
                i <= opts.len(),
                texts(lines@) == head + texts(opts@).take(i as int),
            decreases opts.len() - i,
        {
            let ghost sofar = texts(lines@);
            lines.push(opts[i].clone());
            assert(texts(lines@) =~= sofar.push(opts@[i as int]@));
            assert(sofar.push(opts@[i as int]@) =~= head + texts(opts@).take(i + 1));
            i += 1;
        }
        assert(texts(opts@).take(i as int) =~= texts(opts@));
        render(&lines)
    }
}

} // verus!
