use shh::unit::{Service, HARDENING_FRAGMENT_NAME, PROFILING_FRAGMENT_NAME, TOOL_NAME};

#[test]
fn plain_unit_has_no_argument() {
    let service = Service::new("nginx");
    assert_eq!(service.unit_name(), "nginx.service");
}

#[test]
fn template_instance_is_split_at_the_first_at_sign() {
    let service = Service::new("getty@tty1");
    assert_eq!(service.unit_name(), "getty@tty1.service");
    let nested = Service::new("a@b@c");
    assert_eq!(nested.unit_name(), "a@b@c.service");
    assert_eq!(
        nested.fragment_path(PROFILING_FRAGMENT_NAME, false),
        "/run/systemd/system/a@.service.d/zz_shh-profile.conf"
    );
}

#[test]
fn template_with_empty_argument_keeps_the_at_sign() {
    let service = Service::new("getty@");
    assert_eq!(service.unit_name(), "getty@.service");
    let nameless = Service::new("@x");
    assert_eq!(nameless.unit_name(), "@x.service");
    let empty = Service::new("");
    assert_eq!(empty.unit_name(), ".service");
}

#[test]
fn unit_name_gives_the_token_back() {
    for token in ["a", "a@b", "a@", "@", "x.y@z@@w", "ünï@çødé"] {
        assert_eq!(Service::new(token).unit_name(), format!("{token}.service"));
    }
}

#[test]
fn profiling_fragment_lives_in_the_transient_tree() {
    let service = Service::new("nginx");
    assert_eq!(
        service.fragment_path(PROFILING_FRAGMENT_NAME, false),
        "/run/systemd/system/nginx.service.d/zz_shh-profile.conf"
    );
}

#[test]
fn hardening_fragment_lives_in_the_persistent_tree() {
    let service = Service::new("nginx");
    assert_eq!(
        service.fragment_path(HARDENING_FRAGMENT_NAME, true),
        "/etc/systemd/system/nginx.service.d/zz_shh-harden.conf"
    );
}

#[test]
fn fragments_of_an_instance_belong_to_its_template() {
    let service = Service::new("getty@tty1");
    assert_eq!(
        service.fragment_path(HARDENING_FRAGMENT_NAME, true),
        "/etc/systemd/system/getty@.service.d/zz_shh-harden.conf"
    );
    assert_eq!(
        service.fragment_path(PROFILING_FRAGMENT_NAME, false),
        "/run/systemd/system/getty@.service.d/zz_shh-profile.conf"
    );
}

#[test]
fn fragment_file_sorts_last_and_names_the_tool() {
    let path = Service::new("u").fragment_path("kind", true);
    assert_eq!(path, format!("/etc/systemd/system/u.service.d/zz_{TOOL_NAME}-kind.conf"));
}
