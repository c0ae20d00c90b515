//! The files that configure a unit, as the service manager's status report
//! names them: the main unit file first, then the drop-ins in the order in
//! which the manager applies them.
//!
//! The report is read line by line. A line `Loaded:` names the main unit
//! file, between `(` and `;`. A line `Drop-In:` names the first directory of
//! drop-ins. The lines after it name further directories, each starting with
//! `/`, or the files in the current directory, separated by a comma and a
//! space and preceded by two characters that draw a tree. The first line with
//! a colon ends the list.

use crate::error::{Error, StatusFault};
use crate::outside::string_of;
use crate::text::{
    after_first, chars_of, find_from, lines, lines_of, position, skip_whitespace,
    skip_whitespace_back, slice_of, starts_with, texts, trim, trim_start, views,
};
use crate::unit::Service;
use vstd::prelude::*;

verus! {

/// What has been found so far: the paths, and the directory of the drop-ins
/// that are being listed, if the list has begun.
pub struct Located {
    pub paths: Seq<Seq<char>>,
    pub dir: Option<Seq<char>>,
}

/// What a line of the report does to the search.
pub enum Step {
    /// The search goes on with what the line has added.
    Go(Located),
    /// The list of drop-ins has ended: nothing after this line is read.
    Stop,
    /// The line cannot stand where it does.
    Fail(StatusFault),
}

/// The path that a line `Loaded:` names: what stands between the first `(`
/// and the first `;` after it.
pub open spec fn unit_path(line: Seq<char>) -> Option<Seq<char>> {
    let open = position(line, '(');
    let rest = line.skip(open + 1);
    if open < line.len() && position(rest, ';') < rest.len() {
        Some(rest.take(position(rest, ';')))
    } else {
        None
    }
}

/// The path of `name` in the directory `dir`: `name` itself where it starts
/// at the root; else `dir` and `name`, with a `/` between them unless `dir`
/// is empty or ends in one.
pub open spec fn path_join(dir: Seq<char>, name: Seq<char>) -> Seq<char> {
    if name.len() > 0 && name[0] == '/' {
        name
    } else if dir.len() == 0 || dir.last() == '/' {
        dir + name
    } else {
        dir + seq!['/'] + name
    }
}

/// The index of the first comma at or after `from` that a space follows, or
/// the length of `s` where there is none.
pub open spec fn next_separator(s: Seq<char>, from: int) -> int
    decreases s.len() - from,
{
    if from < 0 || from + 1 >= s.len() {
        s.len() as int
    } else if s[from] == ',' && s[from + 1] == ' ' {
        from
    } else {
        next_separator(s, from + 1)
    }
}

/// The items of the list that `s` holds from index `from` on: the pieces
/// between the separators, each a comma and a space.
pub open spec fn listed(s: Seq<char>, from: int) -> Seq<Seq<char>>
    decreases s.len() - from,
{
    let sep = next_separator(s, from);
    if 0 <= from <= sep && sep + 1 < s.len() {
        seq![s.subrange(from, sep)] + listed(s, sep + 2)
    } else {
        seq![s.skip(from)]
    }
}

/// The names on a line that lists drop-ins: the line without surrounding
/// whitespace and without its first two characters, cut at the separators.
pub open spec fn drop_in_names(line: Seq<char>) -> Seq<Seq<char>> {
    let entry = trim(line);
    if entry.len() >= 2 {
        listed(entry.skip(2), 0)
    } else {
        seq![Seq::<char>::empty()]
    }
}

/// The function that takes a name to its path in the directory `dir`.
pub open spec fn placed_in(dir: Seq<char>) -> spec_fn(Seq<char>) -> Seq<char> {
    |name: Seq<char>| path_join(dir, name)
}

/// The paths of the drop-ins that a line lists in the directory `dir`.
pub open spec fn drop_ins(dir: Seq<char>, line: Seq<char>) -> Seq<Seq<char>> {
    drop_in_names(line).map_values(placed_in(dir))
}

/// What the line does to the search.
pub open spec fn step(state: Located, line: Seq<char>) -> Step {
    let entry = trim_start(line);
    if "Loaded:"@.is_prefix_of(entry) {
        if state.paths.len() != 0 {
            Step::Fail(StatusFault::UnexpectedLoaded)
        } else {
            match unit_path(entry) {
                Some(path) => Step::Go(Located { paths: state.paths.push(path), dir: state.dir }),
                None => Step::Fail(StatusFault::MissingUnitPath),
            }
        }
    } else if "Drop-In:"@.is_prefix_of(entry) {
        if state.paths.len() != 1 || state.dir is Some {
            Step::Fail(StatusFault::UnexpectedDropIn)
        } else {
            Step::Go(
                Located { paths: state.paths, dir: Some(trim_start(after_first(entry, ':'))) },
            )
        }
    } else {
        match state.dir {
            None => Step::Go(state),
            Some(dir) => if position(entry, ':') < entry.len() {
                Step::Stop
            } else if entry.len() > 0 && entry[0] == '/' {
                Step::Go(Located { paths: state.paths, dir: Some(entry) })
            } else {
                Step::Go(Located { paths: state.paths + drop_ins(dir, entry), dir: state.dir })
            },
        }
    }
}

/// The paths that the lines from index `at` on lead to, or the index of the
/// line that cannot stand where it does, and why.
pub open spec fn scan(rows: Seq<Seq<char>>, at: int, state: Located) -> Result<
    Seq<Seq<char>>,
    (int, StatusFault),
>
    decreases rows.len() - at,
{
    if at < 0 || at >= rows.len() {
        Ok(state.paths)
    } else {
        match step(state, rows[at]) {
            Step::Go(next) => scan(rows, at + 1, next),
            Step::Stop => Ok(state.paths),
            Step::Fail(fault) => Err((at, fault)),
        }
    }
}

/// The files that configure the unit of which `status` is the report.
pub open spec fn located(status: Seq<char>) -> Result<Seq<Seq<char>>, (int, StatusFault)> {
    scan(lines_of(status), 0, Located { paths: Seq::empty(), dir: None })
}

/// Whether `res` is what reading the report `status` gives.
pub open spec fn is_located(status: Seq<char>, res: Result<Vec<String>, Error>) -> bool {
    match res {
        Ok(paths) => located(status) == Ok::<Seq<Seq<char>>, (int, StatusFault)>(texts(paths@)),
        Err(Error::MalformedStatus { line, fault }) => located(status) == Err::<
            Seq<Seq<char>>,
            (int, StatusFault),
        >((line as int, fault)),
        Err(_) => false,
    }
}

/// Reading the same report again gives the same: the same paths in the same
/// order, or the same fault at the same line.
pub proof fn lemma_config_paths_repeatable(
    status: Seq<char>,
    again: Seq<char>,
    first: Result<Vec<String>, Error>,
    second: Result<Vec<String>, Error>,
)
    requires
        status == again,
        is_located(status, first),
        is_located(again, second),
    ensures
        match (first, second) {
            (Ok(a), Ok(b)) => texts(a@) == texts(b@),
            (
                Err(Error::MalformedStatus { line: l1, fault: f1 }),
                Err(Error::MalformedStatus { line: l2, fault: f2 }),
            ) => l1 == l2 && f1 == f2,
            _ => false,
        },
{
}

/// The path of `name` in the directory `dir`.
pub fn join_path(dir: &Vec<char>, name: &Vec<char>) -> (path: Vec<char>)
    ensures
        path@ == path_join(dir@, name@),
{
    let mut path: Vec<char> = Vec::new();
    if !(name.len() > 0 && name[0] == '/') {
        let mut i: usize = 0;
        while i < dir.len()
            invariant
                i <= dir.len(),
                path@ == dir@.take(i as int),
            decreases dir.len() - i,
        {
            path.push(dir[i]);
            i += 1;
            assert(path@ =~= dir@.take(i as int));
        }
        assert(dir@.take(i as int) =~= dir@);
        if dir.len() > 0 && dir[dir.len() - 1] != '/' {
            path.push('/');
        }
    }
    let ghost head = path@;
    let mut i: usize = 0;
    assert(head + name@.take(0) =~= head);
    while i < name.len()
        invariant
            i <= name.len(),
            path@ == head + name@.take(i as int),
        decreases name.len() - i,
    {
        path.push(name[i]);
        i += 1;
        assert(path@ =~= head + name@.take(i as int));
    }
    assert(name@.take(i as int) =~= name@);
    assert(Seq::<char>::empty() + name@ =~= name@);
    path
}

/// The path that a line `Loaded:` names.
fn unit_path_of(line: &Vec<char>) -> (path: Option<Vec<char>>)
    ensures
        match path {
            Some(p) => unit_path(line@) == Some(p@),
            None => unit_path(line@) is None,
        },
{
    assert(line@.skip(0) =~= line@);
    let open = find_from(line, 0, '(');
    if open >= line.len() {
        return None;
    }
    let close = find_from(line, open + 1, ';');
    if close >= line.len() {
        return None;
    }
    let path = slice_of(line, open + 1, close);
    assert(path@ =~= line@.skip(open + 1).take(close - open - 1));
    Some(path)
}

/// Adds the paths of the drop-ins that `entry` lists in the directory `dir`.
fn push_drop_ins(paths: &mut Vec<String>, dir: &Vec<char>, entry: &Vec<char>)
    ensures
        texts(final(paths)@) == texts(old(paths)@) + drop_ins(dir@, entry@),
{
    let ghost before = texts(paths@);
    let ghost join = placed_in(dir@);
    assert(entry@.skip(0) =~= entry@);
    let a = skip_whitespace(entry, 0);
    let b = skip_whitespace_back(entry, a, entry.len());
    assert(entry@.subrange(a as int, entry.len() as int) =~= entry@.skip(a as int));
    let from = if b - a >= 2 {
        a + 2
    } else {
        b
    };
    let list = slice_of(entry, from, b);
    proof {
        let t = trim(entry@);
        assert(t == entry@.subrange(a as int, b as int));
        if t.len() >= 2 {
            assert(list@ =~= t.skip(2));
        } else {
            assert(list@ =~= Seq::<char>::empty());
            assert(list@.skip(0) =~= list@);
        }
        assert(drop_in_names(entry@) == listed(list@, 0));
        assert(before + Seq::<Seq<char>>::empty() =~= before);
    }
    let ghost mut done = Seq::<Seq<char>>::empty();
    let mut at: usize = 0;
    loop
        invariant
            at <= list.len(),
            listed(list@, 0) == done + listed(list@, at as int),
            texts(paths@) == before + done.map_values(join),
            join == placed_in(dir@),
            before == texts(old(paths)@),
            drop_in_names(entry@) == listed(list@, 0),
        decreases list.len() - at,
    {
        let ghost sofar = texts(paths@);
        let mut sep: usize = at;
        while list.len() - sep > 1 && !(list[sep] == ',' && list[sep + 1] == ' ')
            invariant
                at <= sep <= list.len(),
                next_separator(list@, at as int) == next_separator(list@, sep as int),
            decreases list.len() - sep,
        {
            sep += 1;
        }
        if list.len() - sep > 1 {
            let name = slice_of(&list, at, sep);
            let path = join_path(dir, &name);
            paths.push(string_of(&path));
            proof {
                assert(next_separator(list@, at as int) == sep);
                let rest = listed(list@, sep + 2);
                assert(done + (seq![name@] + rest) =~= done.push(name@) + rest);
                assert(texts(paths@) =~= sofar.push(path@));
                assert(sofar.push(path@) =~= before + done.push(name@).map_values(join));
                done = done.push(name@);
            }
            at = sep + 2;
        } else {
            let name = slice_of(&list, at, list.len());
            let path = join_path(dir, &name);
            paths.push(string_of(&path));
            proof {
                assert(next_separator(list@, sep as int) == list@.len());
                assert(name@ =~= list@.skip(at as int));
                assert(listed(list@, at as int) =~= seq![name@]);
                assert(texts(paths@) =~= sofar.push(path@));
                assert(sofar.push(path@) =~= before + done.push(name@).map_values(join));
                assert(done + seq![name@] =~= done.push(name@));
                assert(done.push(name@).map_values(join) =~= drop_ins(dir@, entry@));
            }
            return ;
        }
    }
}

impl Service {
    /// The paths of the files that configure the unit of which `status` is
    /// the service manager's report: the main unit file, then the drop-ins.
    /// A report that names no file at all gives no path.
    pub fn config_paths(status: &str) -> (res: Result<Vec<String>, Error>)
        ensures
            is_located(status@, res),
    {
        let text = chars_of(status);
        let rows = lines(&text);
        let loaded = chars_of("Loaded:");
        let drop_in = chars_of("Drop-In:");
        let ghost all = views(rows@);
        let mut paths: Vec<String> = Vec::new();
        let mut dir: Option<Vec<char>> = None;
        let mut at: usize = 0;
        assert(texts(paths@) =~= Seq::<Seq<char>>::empty());
        while at < rows.len()
            invariant
                at <= rows.len(),
                all == views(rows@),
                all == lines_of(status@),
                loaded@ == "Loaded:"@,
                drop_in@ == "Drop-In:"@,
                located(status@) == scan(
                    all,
                    at as int,
                    Located {
                        paths: texts(paths@),
                        dir: match dir {
                            Some(d) => Some(d@),
                            None => None,
                        },
                    },
                ),
            decreases rows.len() - at,
        {
            let row = &rows[at];
            assert(all[at as int] == row@);
            assert(row@.skip(0) =~= row@);
            let from = skip_whitespace(row, 0);
            let entry = slice_of(row, from, row.len());
            assert(entry@ =~= trim_start(row@));
            assert(entry@.skip(0) =~= entry@);
            let ghost sofar = texts(paths@);
            if starts_with(&entry, &loaded) {
                if paths.len() != 0 {
                    return Err(
                        Error::MalformedStatus { line: at, fault: StatusFault::UnexpectedLoaded },
                    );
                }
                match unit_path_of(&entry) {
                    Some(path) => {
                        paths.push(string_of(&path));
                        assert(texts(paths@) =~= sofar.push(path@));
                    },
                    None => {
                        return Err(
                            Error::MalformedStatus {
                                line: at,
                                fault: StatusFault::MissingUnitPath,
                            },
                        );
                    },
                }
            } else if starts_with(&entry, &drop_in) {
                if paths.len() != 1 || dir.is_some() {
                    return Err(
                        Error::MalformedStatus { line: at, fault: StatusFault::UnexpectedDropIn },
                    );
                }
                let colon = find_from(&entry, 0, ':');
                let after = if colon < entry.len() {
                    colon + 1
                } else {
                    colon
                };
                assert(entry@.skip(after as int) =~= after_first(entry@, ':'));
                let begin = skip_whitespace(&entry, after);
                let d = slice_of(&entry, begin, entry.len());
                assert(d@ =~= trim_start(after_first(entry@, ':')));
                dir = Some(d);
            } else {
                match &dir {
                    None => {},
                    Some(d) => {
                        if find_from(&entry, 0, ':') < entry.len() {
                            return Ok(paths);
                        } else if entry.len() > 0 && entry[0] == '/' {
                            dir = Some(entry);
                        } else {
                            push_drop_ins(&mut paths, d, &entry);
                        }
                    },
                }
            }
            at += 1;
        }
        Ok(paths)
    }
}

} // verus!
