//! The library against the same steps taken with the string and path
//! functions of the standard library, on many small inputs.

use std::io::BufRead;
use std::path::PathBuf;

use itertools::Itertools;
use shh::journal::SnippetScanner;

use shh::locator::join_path;
use shh::unit::Service;

/// A sequence of numbers that is the same on every run.
struct Numbers(u64);

impl Numbers {
    fn next(&mut self, below: usize) -> usize {
        self.0 = self.0.wrapping_mul(6364136223846793005).wrapping_add(1442695040888963407);
        ((self.0 >> 33) as usize) % below
    }

    fn text(&mut self, pieces: &[&str], longest: usize) -> String {
        let n = self.next(longest + 1);
        (0..n).map(|_| pieces[self.next(pieces.len())]).collect()
    }
}

fn lines_of(text: &str) -> Vec<String> {
    text.as_bytes().lines().map(|line| line.unwrap()).collect()
}

fn values_with_std(key: &str, files: &[String]) -> Option<Vec<String>> {
    let prefix = format!("{key}=");
    let mut values: Vec<String> = Vec::new();
    for file in files {
        let mut found: Vec<String> = Vec::new();
        let mut lines = lines_of(file).into_iter();
        while let Some(line) = lines.next() {
            if !line.starts_with(&prefix) {
                continue;
            }
            let mut value = line.split_once('=')?.1.trim().to_owned();
            let mut open = line.ends_with('\\');
            while open {
                value.pop();
                let next = lines.next()?;
                value.push(' ');
                value.push_str(next.trim_start());
                open = next.ends_with('\\');
            }
            found.push(value);
        }
        if let Some(reset) = found.iter().rposition(String::is_empty) {
            values.clear();
            found.drain(..=reset);
        }
        values.extend(found);
    }
    Some(values)
}

fn paths_with_std(status: &str) -> Option<Vec<String>> {
    let mut paths: Vec<PathBuf> = Vec::new();
    let mut dir: Option<PathBuf> = None;
    for line in lines_of(status) {
        let line = line.trim_start();
        if line.starts_with("Loaded:") {
            if !paths.is_empty() {
                return None;
            }
            paths.push(PathBuf::from(line.split_once('(')?.1.split_once(';')?.0));
        } else if line.starts_with("Drop-In:") {
            if paths.len() != 1 || dir.is_some() {
                return None;
            }
            dir = Some(PathBuf::from(line.split_once(':')?.1.trim_start()));
        } else if let Some(current) = dir.clone() {
            if line.contains(':') {
                break;
            } else if line.starts_with('/') {
                dir = Some(PathBuf::from(line));
            } else {
                let names: String = line.trim().chars().skip(2).collect();
                for name in names.split(", ") {
                    paths.push(current.join(name));
                }
            }
        }
    }
    Some(paths.into_iter().map(|p| p.to_str().unwrap().to_owned()).collect())
}

#[test]
fn values_agree_with_the_standard_library_on_every_short_file() {
    let alphabet = ['K', '=', '\\', ' ', '\n', 'a'];
    let mut file = String::new();
    let mut count = 0;
    for length in 0..=6u32 {
        for mut code in 0..alphabet.len().pow(length) {
            file.clear();
            for _ in 0..length {
                file.push(alphabet[code % alphabet.len()]);
                code /= alphabet.len();
            }
            let files = [file.clone()];
            assert_eq!(
                Service::config_vals("K", &files).ok(),
                values_with_std("K", &files),
                "{file:?}"
            );
            count += 1;
        }
    }
    assert_eq!(count, 55987);
}

#[test]
fn values_agree_with_the_standard_library_on_random_files() {
    let pieces = [
        "Key=", "Key", "=", "\\", "\\\n", "\n", "\r\n", "\r", " ", "\t", "\u{a0}", "\u{2003}",
        "value", "é", "Key=\n", "Key= \n", "Other=", "x",
    ];
    let mut numbers = Numbers(1);
    for round in 0..4000 {
        let n = numbers.next(4);
        let files: Vec<String> = (0..n).map(|_| numbers.text(&pieces, 12)).collect();
        for key in ["Key", "Other", "", "Key="] {
            assert_eq!(
                Service::config_vals(key, &files).ok(),
                values_with_std(key, &files),
                "round {round}, key {key:?}, files {files:?}"
            );
        }
    }
}

#[test]
fn paths_agree_with_the_standard_library_on_random_status() {
    let pieces = [
        "Loaded:", "Drop-In:", " loaded (", "(", ";", ")", ":", "/", "/etc/d", ", ", ",", " ",
        "\t", "  └─", "a.conf", "b", "\u{a0}", "..", "é",
    ];
    let lines = [
        "     Loaded: loaded (/usr/lib/systemd/system/a.service; enabled)",
        "Loaded: masked (Reason: x)",
        "    Drop-In: /etc/systemd/system/a.service.d",
        "Drop-In:relative/ ",
        "             └─one.conf, two.conf",
        "  └─three.conf",
        "             /run/systemd/system/a.service.d",
        "     Active: active (running)",
        "● a.service - A",
        "",
    ];
    let mut numbers = Numbers(2);
    let mut found = 0;
    let mut refused = 0;
    for round in 0..20000 {
        let mut status = String::new();
        let orderly = numbers.next(4) > 0;
        for at in 0..numbers.next(9) {
            if numbers.next(5) == 0 {
                status.push_str(&numbers.text(&pieces, 8));
            } else if orderly && at < 2 {
                status.push_str(lines[2 * at]);
            } else if orderly {
                status.push_str(lines[4 + numbers.next(lines.len() - 4)]);
            } else {
                status.push_str(lines[numbers.next(lines.len())]);
            }
            status.push_str(if numbers.next(8) == 0 { "\r\n" } else { "\n" });
        }
        let expected = paths_with_std(&status);
        match &expected {
            Some(paths) if paths.len() > 2 => found += 1,
            None => refused += 1,
            _ => {}
        }
        assert_eq!(
            Service::config_paths(&status).ok(),
            expected,
            "round {round}, status {status:?}"
        );
    }
    assert!(found > 1000 && refused > 1000, "{found} found, {refused} refused");
}

#[test]
fn joined_paths_agree_with_the_standard_library() {
    let pieces = ["/", "a", "b.conf", "..", ".", "//", " ", "é"];
    let mut numbers = Numbers(3);
    for _ in 0..5000 {
        let dir = numbers.text(&pieces, 4);
        let name = numbers.text(&pieces, 4);
        let dir_chars: Vec<char> = dir.chars().collect();
        let name_chars: Vec<char> = name.chars().collect();
        let joined: String = join_path(&dir_chars, &name_chars).into_iter().collect();
        assert_eq!(
            joined,
            PathBuf::from(&dir).join(&name).to_str().unwrap(),
            "{dir:?} {name:?}"
        );
    }
}

#[test]
fn fragment_paths_agree_with_the_standard_library_for_relative_names() {
    let pieces = ["a", "b", "@", ".", "-", "é", "x/y"];
    let mut numbers = Numbers(4);
    for _ in 0..2000 {
        let token = numbers.text(&pieces, 5);
        let service = Service::new(&token);
        let (name, instance) = match token.split_once('@') {
            Some((name, _)) => (name, "@"),
            None => (token.as_str(), ""),
        };
        for (kind, persistent) in [("profile", false), ("harden", true)] {
            let expected: PathBuf = [
                if persistent { "/etc" } else { "/run" },
                "systemd/system/",
                &format!("{name}{instance}.service.d"),
                &format!("zz_shh-{kind}.conf"),
            ]
            .iter()
            .collect();
            assert_eq!(service.fragment_path(kind, persistent), expected.to_str().unwrap());
        }
    }
}

fn options_with_iterators(lines: &[String], start: &str, end: &str) -> Option<Vec<String>> {
    let block: Vec<&String> = lines
        .iter()
        .skip_while(|line| *line != end)
        .take_while_inclusive(|line| *line != start)
        .collect();
    if block.len() < 2 || *block.last()? != start {
        return None;
    }
    Some(block[1..block.len() - 1].iter().rev().map(|line| line.to_string()).collect())
}

#[test]
fn options_agree_with_the_iterator_adaptors_on_every_short_log() {
    let alphabet = ["S", "E", "a", "b"];
    for (start, end) in [("S", "E"), ("S", "S")] {
        for length in 0..=7u32 {
            for mut code in 0..alphabet.len().pow(length) {
                let mut log: Vec<String> = Vec::new();
                for _ in 0..length {
                    log.push(alphabet[code % alphabet.len()].to_string());
                    code /= alphabet.len();
                }
                let expected = options_with_iterators(&log, start, end);
                assert_eq!(Service::profiling_result(&log, start, end).ok(), expected, "{log:?}");
                let mut scanner = SnippetScanner::new(start, end);
                for line in &log {
                    if !scanner.push(line.clone()) {
                        break;
                    }
                }
                assert_eq!(scanner.finish().ok(), expected, "{log:?}");
            }
        }
    }
}
