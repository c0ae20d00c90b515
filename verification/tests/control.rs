use shh::control::{command_result, LOG_READER, SERVICE_MANAGER};
use shh::error::Error;
use shh::unit::Service;

#[test]
fn action_waits_unless_told_otherwise() {
    let service = Service::new("nginx");
    assert_eq!(service.action("restart", true), vec!["restart", "nginx.service"]);
    assert_eq!(service.action("stop", false), vec!["stop", "--no-block", "nginx.service"]);
    let instance = Service::new("getty@tty1");
    assert_eq!(instance.action("start", false), vec!["start", "--no-block", "getty@tty1.service"]);
}

#[test]
fn reload_asks_for_all_unit_files() {
    assert_eq!(Service::reload_unit_config(), vec!["daemon-reload"]);
}

#[test]
fn status_is_asked_without_log_lines() {
    assert_eq!(Service::new("a@b").status_query(), vec!["status", "-n", "0", "a@b.service"]);
}

#[test]
fn log_is_asked_newest_first_and_messages_only() {
    assert_eq!(
        Service::new("nginx").journal_query(),
        vec!["-r", "-o", "cat", "--output-fields=MESSAGE", "--no-tail", "-u", "nginx.service"]
    );
}

#[test]
fn programs_are_those_of_the_service_manager() {
    assert_eq!(SERVICE_MANAGER, "systemctl");
    assert_eq!(LOG_READER, "journalctl");
}

#[test]
fn command_fails_exactly_if_it_does_not_exit_with_zero() {
    assert_eq!(command_result("restart", Some(0)), Ok(()));
    for code in [Some(1), Some(-1), Some(255), Some(i32::MIN), Some(i32::MAX), None] {
        assert_eq!(
            command_result("restart", code),
            Err(Error::CommandFailed { verb: "restart".to_string(), code })
        );
    }
    assert_eq!(
        command_result("daemon-reload", Some(3)),
        Err(Error::CommandFailed { verb: "daemon-reload".to_string(), code: Some(3) })
    );
}
