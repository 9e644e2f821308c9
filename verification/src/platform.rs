//! Where the hosts file lies and how its lines end, by operating system.

use crate::resolution::same_chars;
use crate::text::chars_of;
use vstd::prelude::*;

verus! {

/// The hosts file of Linux and of macOS.
pub const UNIX_HOSTS: &'static str = "/etc/hosts";

/// The hosts file of Windows.
pub const WINDOWS_HOSTS: &'static str = "C:\\Windows\\System32\\drivers\\etc\\hosts";

/// The hosts file of an operating system.
pub struct HostsFile {
    /// The path of the file.
    pub path: String,
    /// What stands between two lines of the file.
    pub line_delimiter: String,
    /// The system keeps the file read-only: that has to be lifted before the
    /// file is written.
    pub read_only: bool,
}

/// Why no hosts file is known.
pub enum EnvironmentError {
    /// The operating system did not tell its name.
    UnknownSystem,
    /// The operating system is none of those whose hosts file is known.
    UnsupportedSystem { name: String },
}

/// The error of `sys_info`.
#[verifier::external_type_specification]
#[verifier::external_body]
pub struct ExSystemError(sys_info::Error);

/// The hosts file of the system `name` is known.
pub open spec fn known_system(name: Seq<char>) -> bool {
    name == "Linux"@ || name == "Darwin"@ || name == "Windows"@
}

/// `file` is the hosts file of the system `name`.
pub open spec fn is_hosts_file_of(file: HostsFile, name: Seq<char>) -> bool {
    if name == "Linux"@ {
        file.path@ == UNIX_HOSTS@ && file.line_delimiter@ == "\n"@ && !file.read_only
    } else if name == "Darwin"@ {
        file.path@ == UNIX_HOSTS@ && file.line_delimiter@ == "\r"@ && !file.read_only
    } else if name == "Windows"@ {
        file.path@ == WINDOWS_HOSTS@ && file.line_delimiter@ == "\r\n"@ && file.read_only
    } else {
        false
    }
}

/// Asks `sys_info::os_type` for the name of the operating system. What it
/// answers depends on the machine, so nothing is claimed of it.
#[verifier::external_body]
fn os_type() -> Result<String, sys_info::Error> {
    sys_info::os_type()
}

/// Whether two strings hold the same text.
pub fn same_text(a: &str, b: &str) -> (same: bool)
    ensures
        same == (a@ == b@),
{
    same_chars(&chars_of(a), &chars_of(b))
}

/// The hosts file of the operating system `system`, for the three systems
/// whose hosts file is known; for every other name the error holds the name.
pub fn hosts_file_of(system: String) -> (file: Result<HostsFile, EnvironmentError>)
    ensures
        match file {
            Ok(found) => known_system(system@) && is_hosts_file_of(found, system@),
            Err(EnvironmentError::UnsupportedSystem { name }) => !known_system(system@) && name@
                == system@,
            Err(EnvironmentError::UnknownSystem) => false,
        },
{
    if same_text(system.as_str(), "Linux") {
        Ok(HostsFile { path: UNIX_HOSTS.to_owned(), line_delimiter: "\n".to_owned(), read_only: false })
    } else if same_text(system.as_str(), "Darwin") {
        Ok(HostsFile { path: UNIX_HOSTS.to_owned(), line_delimiter: "\r".to_owned(), read_only: false })
    } else if same_text(system.as_str(), "Windows") {
        Ok(
            HostsFile {
                path: WINDOWS_HOSTS.to_owned(),
                line_delimiter: "\r\n".to_owned(),
                read_only: true,
            },
        )
    } else {
        Err(EnvironmentError::UnsupportedSystem { name: system })
    }
}

/// The hosts file of the operating system that runs the program. Whatever
/// the system answers: a file that is given is the hosts file of a known
/// system, and a name that is refused is the name of no known system.
pub fn get_hosts_file() -> (file: Result<HostsFile, EnvironmentError>)
    ensures
        match file {
            Ok(found) => exists|name: Seq<char>|
                known_system(name) && #[trigger] is_hosts_file_of(found, name),
            Err(EnvironmentError::UnsupportedSystem { name }) => !known_system(name@),
            Err(EnvironmentError::UnknownSystem) => true,
        },
{
    match os_type() {
        Ok(name) => hosts_file_of(name),
        Err(_) => Err(EnvironmentError::UnknownSystem),
    }
}

} // verus!
