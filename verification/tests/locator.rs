use shh::error::{Error, StatusFault};
use shh::locator::join_path;
use shh::unit::Service;

fn chars(s: &str) -> Vec<char> {
    s.chars().collect()
}

fn joined(dir: &str, name: &str) -> String {
    join_path(&chars(dir), &chars(name)).into_iter().collect()
}

const STATUS: &str = "\
● nginx.service - A high performance web server
     Loaded: loaded (/usr/lib/systemd/system/nginx.service; enabled; preset: enabled)
    Drop-In: /etc/systemd/system/nginx.service.d
             └─override.conf, limits.conf
             /run/systemd/system/nginx.service.d
             └─zz_shh-profile.conf
     Active: active (running) since Mon 2024-01-01 00:00:00 UTC; 1h ago
       Docs: man:nginx(8)
    Process: 1 ExecStartPre=/usr/sbin/nginx -t (code=exited, status=0/SUCCESS)
";

#[test]
fn main_unit_file_comes_first_then_the_drop_ins_in_order() {
    assert_eq!(
        Service::config_paths(STATUS),
        Ok(vec![
            "/usr/lib/systemd/system/nginx.service".to_string(),
            "/etc/systemd/system/nginx.service.d/override.conf".to_string(),
            "/etc/systemd/system/nginx.service.d/limits.conf".to_string(),
            "/run/systemd/system/nginx.service.d/zz_shh-profile.conf".to_string(),
        ])
    );
}

#[test]
fn parsing_the_same_status_again_gives_the_same_paths() {
    assert_eq!(Service::config_paths(STATUS), Service::config_paths(STATUS));
    let broken = "Drop-In: /x\n";
    assert_eq!(Service::config_paths(broken), Service::config_paths(broken));
}

#[test]
fn unit_without_drop_ins_has_one_path() {
    let status = "● a.service\n     Loaded: loaded (/etc/systemd/system/a.service; disabled)\n     Active: inactive (dead)\n";
    assert_eq!(Service::config_paths(status), Ok(vec!["/etc/systemd/system/a.service".to_string()]));
}

#[test]
fn status_that_names_no_file_gives_no_path() {
    assert_eq!(Service::config_paths(""), Ok(vec![]));
    assert_eq!(Service::config_paths("Unit a.service could not be found.\n"), Ok(vec![]));
}

#[test]
fn scan_ends_at_the_first_field_after_the_drop_ins() {
    let status = "Loaded: loaded (/a; x)\nDrop-In: /d\n  └─one.conf\nActive: yes\n  └─two.conf\nLoaded: loaded (/b; x)\n";
    assert_eq!(
        Service::config_paths(status),
        Ok(vec!["/a".to_string(), "/d/one.conf".to_string()])
    );
}

#[test]
fn second_main_unit_file_is_refused() {
    let status = "Loaded: loaded (/a; x)\n  Loaded: loaded (/b; x)\n";
    assert_eq!(
        Service::config_paths(status),
        Err(Error::MalformedStatus { line: 1, fault: StatusFault::UnexpectedLoaded })
    );
}

#[test]
fn main_unit_file_without_a_path_is_refused() {
    assert_eq!(
        Service::config_paths("x\nLoaded: not-found (Reason: Unit a.service not found.)\n"),
        Err(Error::MalformedStatus { line: 1, fault: StatusFault::MissingUnitPath })
    );
    assert_eq!(
        Service::config_paths("Loaded: masked\n"),
        Err(Error::MalformedStatus { line: 0, fault: StatusFault::MissingUnitPath })
    );
    assert_eq!(
        Service::config_paths("Loaded: a; b (c)\n"),
        Err(Error::MalformedStatus { line: 0, fault: StatusFault::MissingUnitPath })
    );
}

#[test]
fn drop_ins_without_a_main_unit_file_are_refused() {
    assert_eq!(
        Service::config_paths("Drop-In: /d\n"),
        Err(Error::MalformedStatus { line: 0, fault: StatusFault::UnexpectedDropIn })
    );
}

#[test]
fn second_list_of_drop_ins_is_refused() {
    let status = "Loaded: loaded (/a; x)\nDrop-In: /d\nDrop-In: /e\n";
    assert_eq!(
        Service::config_paths(status),
        Err(Error::MalformedStatus { line: 2, fault: StatusFault::UnexpectedDropIn })
    );
    let status = "Loaded: loaded (/a; x)\nDrop-In: /d\n└─f.conf\nDrop-In: /e\n";
    assert_eq!(
        Service::config_paths(status),
        Err(Error::MalformedStatus { line: 3, fault: StatusFault::UnexpectedDropIn })
    );
}

#[test]
fn carriage_returns_before_line_feeds_are_no_part_of_a_line() {
    let status = "Loaded: loaded (/a; x)\r\nDrop-In: /d\r\n  └─f.conf\r\n";
    assert_eq!(Service::config_paths(status), Ok(vec!["/a".to_string(), "/d/f.conf".to_string()]));
}

#[test]
fn names_are_cut_at_comma_and_space_only() {
    let status = "Loaded: loaded (/a; x)\nDrop-In: /d/\n  └─a,b.conf, , c d.conf,\n";
    assert_eq!(
        Service::config_paths(status),
        Ok(vec![
            "/a".to_string(),
            "/d/a,b.conf".to_string(),
            "/d/".to_string(),
            "/d/c d.conf,".to_string(),
        ])
    );
}

#[test]
fn short_line_among_the_drop_ins_names_the_directory_itself() {
    let status = "Loaded: loaded (/a; x)\nDrop-In: /d\n\n x \n";
    assert_eq!(
        Service::config_paths(status),
        Ok(vec!["/a".to_string(), "/d/".to_string(), "/d/".to_string()])
    );
}

#[test]
fn name_joined_to_directory() {
    assert_eq!(joined("/d", "f"), "/d/f");
    assert_eq!(joined("/d/", "f"), "/d/f");
    assert_eq!(joined("", "f"), "f");
    assert_eq!(joined("/d", "/f"), "/f");
    assert_eq!(joined("/d", ""), "/d/");
    assert_eq!(joined("", ""), "");
    assert_eq!(joined("d", "e/f"), "d/e/f");
}
