use githubdns::platform::{get_hosts_file, hosts_file_of, same_text, EnvironmentError};

#[test]
fn linux_has_etc_hosts_and_line_feeds() {
    let file = hosts_file_of(String::from("Linux")).ok().unwrap();
    assert_eq!(file.path, "/etc/hosts");
    assert_eq!(file.line_delimiter, "\n");
    assert!(!file.read_only);
}

#[test]
fn darwin_has_etc_hosts_and_carriage_returns() {
    let file = hosts_file_of(String::from("Darwin")).ok().unwrap();
    assert_eq!(file.path, "/etc/hosts");
    assert_eq!(file.line_delimiter, "\r");
    assert!(!file.read_only);
}

#[test]
fn windows_has_its_own_file_read_only() {
    let file = hosts_file_of(String::from("Windows")).ok().unwrap();
    assert_eq!(file.path, r"C:\Windows\System32\drivers\etc\hosts");
    assert_eq!(file.line_delimiter, "\r\n");
    assert!(file.read_only);
}

#[test]
fn other_systems_are_refused_by_name() {
    for name in ["", "linux", "Linux ", "FreeBSD", "solaris"] {
        match hosts_file_of(String::from(name)) {
            Err(EnvironmentError::UnsupportedSystem { name: refused }) => assert_eq!(refused, name),
            _ => panic!("{:?} has no hosts file", name),
        }
    }
}

#[test]
fn hosts_file_of_this_system_is_a_known_one() {
    match get_hosts_file() {
        Ok(file) => {
            assert!(
                (file.path == "/etc/hosts" && (file.line_delimiter == "\n" || file.line_delimiter == "\r") && !file.read_only)
                    || (file.path == r"C:\Windows\System32\drivers\etc\hosts"
                        && file.line_delimiter == "\r\n"
                        && file.read_only)
            );
        }
        Err(EnvironmentError::UnsupportedSystem { name }) => {
            assert!(name != "Linux" && name != "Darwin" && name != "Windows");
        }
        Err(EnvironmentError::UnknownSystem) => {}
    }
}

#[test]
fn same_text_compares_strings() {
    assert!(same_text("Linux", "Linux"));
    assert!(!same_text("Linux", "linux"));
    assert!(!same_text("Linux", "Linu"));
    assert!(same_text("", ""));
}
