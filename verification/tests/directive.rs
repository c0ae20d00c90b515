use shh::error::Error;
use shh::unit::Service;

fn file(lines: &[&str]) -> String {
    let mut text = String::new();
    for line in lines {
        text.push_str(line);
        text.push('\n');
    }
    text
}

#[test]
fn test_config_vals() {
    let cfg_file1 = file(&["blah=a", "blah=b"]);
    let cfg_file2 = file(&["blah=", "blah=c", "blih=e", "bloh=f"]);
    let cfg_file3 = file(&["blah=d"]);

    assert_eq!(
        Service::config_vals("blah", &[cfg_file1, cfg_file2, cfg_file3]).unwrap(),
        vec!["c", "d"]
    );
}

#[test]
fn test_config_val_multiline() {
    let cfg_file = file(&[
        r#"ExecStartPre=/bin/sh -c "[ ! -e /usr/bin/galera_recovery ] && VAR= || \
 VAR=`cd /usr/bin/..; /usr/bin/galera_recovery`; [ $? -eq 0 ] \
 && systemctl set-environment _WSREP_START_POSITION=$VAR || exit 1""#,
    ]);

    assert_eq!(
        Service::config_vals("ExecStartPre", &[cfg_file]).unwrap(),
        vec![
            r#"/bin/sh -c "[ ! -e /usr/bin/galera_recovery ] && VAR= ||  VAR=`cd /usr/bin/..; /usr/bin/galera_recovery`; [ $? -eq 0 ]  && systemctl set-environment _WSREP_START_POSITION=$VAR || exit 1""#
        ]
    );
}

#[test]
fn config_vals_reports_the_file_that_ends_in_a_continued_line() {
    let whole = file(&["Key=a"]);
    let cut = "Other=x\nKey=b \\\n  c \\".to_owned();
    assert_eq!(
        Service::config_vals("Key", &[whole.clone(), cut.clone(), cut]),
        Err(Error::UnexpectedEndOfFile { file: 1 })
    );
    assert_eq!(Service::config_vals("Other", &[whole]), Ok(vec![]));
}
