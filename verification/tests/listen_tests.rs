use shm_snapshot::listen::{
    notify_address, notify_state, parse_decimal, render_decimal, split_names, EnvValue, Error,
    ListenFd, ListenInit, NotifyAddress, Stat,
};

fn names(list: &[&str]) -> Vec<String> {
    list.iter().map(|name| name.to_string()).collect()
}

#[test]
fn decimal_numbers_are_parsed_like_a_signed_integer() {
    assert_eq!(parse_decimal("0"), Some(0));
    assert_eq!(parse_decimal("3"), Some(3));
    assert_eq!(parse_decimal("+17"), Some(17));
    assert_eq!(parse_decimal("-17"), Some(-17));
    assert_eq!(parse_decimal("007"), Some(7));
    assert_eq!(parse_decimal("-0"), Some(0));
    assert_eq!(parse_decimal("2147483647"), Some(i32::MAX));
    assert_eq!(parse_decimal("-2147483648"), Some(i32::MIN));
    assert_eq!(parse_decimal("2147483648"), None);
    assert_eq!(parse_decimal("-2147483649"), None);
    assert_eq!(parse_decimal("99999999999999999999999999"), None);
    assert_eq!(parse_decimal(""), None);
    assert_eq!(parse_decimal("+"), None);
    assert_eq!(parse_decimal("-"), None);
    assert_eq!(parse_decimal(" 1"), None);
    assert_eq!(parse_decimal("1 "), None);
    assert_eq!(parse_decimal("1_000"), None);
    assert_eq!(parse_decimal("--1"), None);
    assert_eq!(parse_decimal("12a"), None);
    assert_eq!(parse_decimal("١٢"), None);
    for text in ["0", "+17", "-17", "007", "2147483648", "", "+", "12a", "-2147483648"] {
        assert_eq!(parse_decimal(text), text.parse::<i32>().ok(), "{text:?}");
    }
}

#[test]
fn names_are_split_at_colons() {
    assert_eq!(split_names("a:b"), names(&["a", "b"]));
    assert_eq!(split_names(""), names(&[""]));
    assert_eq!(split_names("SHM_SHARED_FD"), names(&["SHM_SHARED_FD"]));
    assert_eq!(split_names(":"), names(&["", ""]));
    assert_eq!(split_names("a::b:"), names(&["a", "", "b", ""]));
    assert_eq!(split_names("grüße:세계"), names(&["grüße", "세계"]));
    for text in ["", ":", "a::b:", "x:y:z", ":::"] {
        let expected: Vec<String> = text.split(':').map(String::from).collect();
        assert_eq!(split_names(text), expected);
    }
}

#[test]
fn environment_without_count_describes_nothing() {
    let listen = ListenFd::from_environment(
        EnvValue::Unset,
        EnvValue::Text("not a pid"),
        EnvValue::NotUnicode,
        1,
    );
    assert!(listen.is_none());
}

#[test]
fn environment_is_read() {
    let listen = ListenFd::from_environment(
        EnvValue::Text("2"),
        EnvValue::Text("4711"),
        EnvValue::Text("first:SHM_SHARED_FD"),
        4711,
    )
    .unwrap()
    .unwrap();
    assert_eq!(listen.fd_base, 3);
    assert_eq!(listen.fd_len, 2);
    assert_eq!(listen.names, names(&["first", "SHM_SHARED_FD"]));
    assert_eq!(listen.position("SHM_SHARED_FD"), Some(1));
    assert_eq!(listen.position("first"), Some(0));
    assert_eq!(listen.position("second"), None);

    let listen =
        ListenFd::from_environment(EnvValue::Text("1"), EnvValue::Unset, EnvValue::Unset, 1)
            .unwrap()
            .unwrap();
    assert_eq!(listen.fd_len, 1);
    assert!(listen.names.is_empty());
}

#[test]
fn environment_errors() {
    let check = |count, pid, names| {
        ListenFd::from_environment(count, pid, names, 100).unwrap().err()
    };
    assert_eq!(check(EnvValue::Text("1"), EnvValue::Text("101"), EnvValue::Unset), Some(Error::BadPid));
    assert_eq!(check(EnvValue::Text("1"), EnvValue::Text("pid"), EnvValue::Unset), Some(Error::BadPid));
    assert_eq!(check(EnvValue::Text("1"), EnvValue::NotUnicode, EnvValue::Unset), Some(Error::BadPid));
    assert_eq!(check(EnvValue::Text("x"), EnvValue::Text("101"), EnvValue::NotUnicode), Some(Error::BadPid));
    assert_eq!(check(EnvValue::Text("one"), EnvValue::Text("100"), EnvValue::Unset), Some(Error::BadFd));
    assert_eq!(check(EnvValue::NotUnicode, EnvValue::Unset, EnvValue::Unset), Some(Error::BadFd));
    assert_eq!(check(EnvValue::NotUnicode, EnvValue::Unset, EnvValue::NotUnicode), Some(Error::BadFd));
    assert_eq!(check(EnvValue::Text("1"), EnvValue::Unset, EnvValue::NotUnicode), Some(Error::BadNames));
    assert_eq!(check(EnvValue::Text("1"), EnvValue::Text("100"), EnvValue::Text("a")), None);
}

#[test]
fn named_file_is_created_when_nothing_was_passed() {
    let init = ListenInit::named_or_try_create(None, "SHM_SHARED_FD", || Ok::<_, ()>("file"))
        .unwrap();
    assert_eq!(init.target, 3);
    assert_eq!(init.file, Some("file"));
    assert_eq!(init.listen.fd_base, 3);
    assert_eq!(init.listen.fd_len, 1);
    assert_eq!(init.listen.names, names(&["SHM_SHARED_FD"]));
}

#[test]
fn named_file_is_found_among_those_passed() {
    let listen = ListenFd { fd_base: 3, fd_len: 3, names: names(&["a", "SHM_SHARED_FD", "SHM_SHARED_FD"]) };
    let init = ListenInit::<&str>::named_or_try_create(Some(listen), "SHM_SHARED_FD", || {
        Err::<&str, &str>("must not be called")
    })
    .unwrap();
    assert_eq!(init.target, 4);
    assert_eq!(init.file, None);
    assert_eq!(init.listen.fd_len, 3);
    assert_eq!(init.listen.names, names(&["a", "SHM_SHARED_FD", "SHM_SHARED_FD"]));
}

#[test]
fn named_file_is_added_behind_those_passed() {
    let listen = ListenFd { fd_base: 3, fd_len: 2, names: names(&["a", "b"]) };
    let init =
        ListenInit::named_or_try_create(Some(listen), "SHM_SHARED_FD", || Ok::<_, ()>(42u8))
            .unwrap();
    assert_eq!(init.target, 5);
    assert_eq!(init.file, Some(42));
    assert_eq!(init.listen.fd_base, 3);
    assert_eq!(init.listen.fd_len, 3);
    assert_eq!(init.listen.names, names(&["a", "b", "SHM_SHARED_FD"]));
}

#[test]
fn failure_to_create_is_passed_on() {
    let listen = ListenFd { fd_base: 3, fd_len: 2, names: names(&["a", "b"]) };
    let init = ListenInit::<u8>::named_or_try_create(Some(listen), "c", || Err("no file"));
    assert_eq!(init.err(), Some("no file"));
    let init = ListenInit::<u8>::named_or_try_create(None, "c", || Err("no file"));
    assert_eq!(init.err(), Some("no file"));
}

#[test]
fn numbers_are_rendered_in_decimal() {
    assert_eq!(render_decimal(0), "0");
    assert_eq!(render_decimal(7), "7");
    assert_eq!(render_decimal(10), "10");
    assert_eq!(render_decimal(-1), "-1");
    assert_eq!(render_decimal(1234567890), "1234567890");
    assert_eq!(render_decimal(i32::MAX), "2147483647");
    assert_eq!(render_decimal(i32::MIN), "-2147483648");
    for value in [0, 1, 9, 10, 99, 100, -5, -10, 4711, i32::MAX, i32::MIN, i32::MIN + 1] {
        assert_eq!(render_decimal(value), value.to_string());
        assert_eq!(parse_decimal(&render_decimal(value)), Some(value));
    }
}

#[test]
fn environment_of_a_child_is_rendered() {
    let listen = ListenFd { fd_base: 3, fd_len: 12, names: names(&["a", "", "SHM_SHARED_FD"]) };
    assert_eq!(listen.count_text(), "12");
    assert_eq!(listen.names_text(), "a::SHM_SHARED_FD");
    assert_eq!(split_names(&listen.names_text()), listen.names);
    let one = ListenFd { fd_base: 3, fd_len: 1, names: names(&["only"]) };
    assert_eq!(one.names_text(), "only");
    let none = ListenFd { fd_base: 3, fd_len: 0, names: vec![] };
    assert_eq!(none.names_text(), "");
    assert_eq!(none.count_text(), "0");
}

#[test]
fn file_descriptors_are_numbered_from_the_base() {
    let listen = ListenFd { fd_base: 3, fd_len: 3, names: names(&["a", "SHM_SHARED_FD", "b"]) };
    assert_eq!(listen.fd_named("SHM_SHARED_FD"), Some(4));
    assert_eq!(listen.fd_named("a"), Some(3));
    assert_eq!(listen.fd_named("c"), None);
}

#[test]
fn store_request_names_the_file_descriptor() {
    assert_eq!(notify_state("SHM_SHARED_FD"), "FDSTORE=1\nFDNAME=SHM_SHARED_FD");
    assert_eq!(notify_state(""), "FDSTORE=1\nFDNAME=");
}

#[test]
fn notify_addresses_are_paths_or_abstract_names() {
    assert_eq!(notify_address(b"/run/systemd/notify"), Some(NotifyAddress::Path(0)));
    assert_eq!(notify_address(b"@abstract"), Some(NotifyAddress::Abstract(1)));
    assert_eq!(notify_address(b"@"), Some(NotifyAddress::Abstract(1)));
    assert_eq!(notify_address(b"relative/path"), None);
    assert_eq!(notify_address(b""), None);
}

#[test]
fn size_of_a_file_is_a_length_if_it_is_not_negative() {
    let mut stat = Stat::default();
    assert_eq!(stat.area_len(), Some(0));
    stat.st_size = 4096;
    assert_eq!(stat.area_len(), Some(4096));
    stat.st_size = -1;
    assert_eq!(stat.area_len(), None);
}
