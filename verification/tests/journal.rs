use shh::error::Error;
use shh::journal::{options_of_block, SnippetScanner};
use shh::unit::Service;

const START: &str = "-------- Start of suggested service options --------";
const END: &str = "-------- End of suggested service options --------";

fn log(lines: &[&str]) -> Vec<String> {
    lines.iter().map(|s| s.to_string()).collect()
}

fn scan(lines: &[&str]) -> (Result<Vec<String>, Error>, usize) {
    let mut scanner = SnippetScanner::new(START, END);
    let mut read = 0;
    for line in lines {
        read += 1;
        if !scanner.push(line.to_string()) {
            break;
        }
    }
    (scanner.finish(), read)
}

#[test]
fn options_come_out_in_the_order_in_which_they_were_written() {
    let lines = [END, "optB", "optA", START, "older noise", START, "x", END];
    assert_eq!(
        Service::profiling_result(&log(&lines), START, END),
        Ok(log(&["optA", "optB"]))
    );
    assert_eq!(scan(&lines), (Ok(log(&["optA", "optB"])), 4));
}

#[test]
fn lines_newer_than_the_end_are_skipped() {
    let lines = ["Stopped.", START, "Stopping...", END, "o3", "o2", "o1", START, END];
    assert_eq!(
        Service::profiling_result(&log(&lines), START, END),
        Ok(log(&["o1", "o2", "o3"]))
    );
    assert_eq!(scan(&lines), (Ok(log(&["o1", "o2", "o3"])), 8));
}

#[test]
fn block_without_options_is_found_empty() {
    let lines = [END, START];
    assert_eq!(Service::profiling_result(&log(&lines), START, END), Ok(vec![]));
    assert_eq!(scan(&lines), (Ok(vec![]), 2));
}

#[test]
fn missing_start_is_an_error() {
    let lines = ["noise", END, "optB", "optA", "older"];
    assert_eq!(Service::profiling_result(&log(&lines), START, END), Err(Error::SnippetNotFound));
    assert_eq!(scan(&lines), (Err(Error::SnippetNotFound), 5));
}

#[test]
fn missing_end_is_an_error() {
    let lines = ["optB", "optA", START, "older"];
    assert_eq!(Service::profiling_result(&log(&lines), START, END), Err(Error::SnippetNotFound));
    assert_eq!(scan(&lines), (Err(Error::SnippetNotFound), 4));
    assert_eq!(Service::profiling_result(&[], START, END), Err(Error::SnippetNotFound));
    assert_eq!(scan(&[]), (Err(Error::SnippetNotFound), 0));
}

#[test]
fn fewer_than_two_lines_are_no_block() {
    let lines = ["new", END];
    assert_eq!(Service::profiling_result(&log(&lines), START, END), Err(Error::SnippetNotFound));
    assert_eq!(scan(&lines), (Err(Error::SnippetNotFound), 2));
    assert_eq!(Service::profiling_result(&log(&[START]), START, START), Err(Error::SnippetNotFound));
    assert_eq!(options_of_block(&log(&[START]), &START.to_string()), Err(Error::SnippetNotFound));
    assert_eq!(options_of_block(&log(&[]), &START.to_string()), Err(Error::SnippetNotFound));
}

#[test]
fn second_end_inside_the_block_is_an_option_like_any_other() {
    let lines = [END, "b", END, "a", START];
    assert_eq!(
        Service::profiling_result(&log(&lines), START, END),
        Ok(log(&["a", END, "b"]))
    );
    assert_eq!(scan(&lines).0, Ok(log(&["a", END, "b"])));
}

#[test]
fn sentinels_are_compared_as_whole_lines() {
    let almost_end = format!("{END} ");
    let almost_start = format!(" {START}");
    let lines = [almost_end.as_str(), END, "o", almost_start.as_str(), START];
    assert_eq!(
        Service::profiling_result(&log(&lines), START, END),
        Ok(log(&[almost_start.as_str(), "o"]))
    );
}

#[test]
fn scanner_reads_nothing_once_the_block_is_complete() {
    let mut scanner = SnippetScanner::new("S", "E");
    assert!(scanner.push("x".to_string()));
    assert!(scanner.push("E".to_string()));
    assert!(scanner.push("2".to_string()));
    assert!(scanner.push("1".to_string()));
    assert!(!scanner.push("S".to_string()));
    assert!(!scanner.push("0".to_string()));
    assert!(!scanner.push("S".to_string()));
    assert_eq!(scanner.finish(), Ok(log(&["1", "2"])));
}

#[test]
fn block_of_lines_gives_its_middle_backwards() {
    let start = "S".to_string();
    assert_eq!(options_of_block(&log(&["E", "c", "b", "a", "S"]), &start), Ok(log(&["a", "b", "c"])));
    assert_eq!(options_of_block(&log(&["E", "S"]), &start), Ok(vec![]));
    assert_eq!(options_of_block(&log(&["E", "a"]), &start), Err(Error::SnippetNotFound));
}
