//! Shell-script snippets for managing Linux users, groups and systemd
//! units; package hooks embed them verbatim.

use vstd::prelude::*;

verus! {

use crate::checksums::base_name_of;
use crate::checksums::file_base_name;

/// The script that creates an account where it does not exist yet.
pub open spec fn user_add_script(account: Seq<char>) -> Seq<char> {
    "\n        if [ -z \"$(getent passwd | grep "@ + account
        + ")\" ]; then \n            useradd -r "@ + account + ";\n        fi\n    "@
}

/// The script that removes an account and its home directory.
pub open spec fn user_remove_script(account: Seq<char>) -> Seq<char> {
    "userdel -r "@ + account + ";"@
}

/// The script that creates a group where it does not exist yet.
pub open spec fn group_add_script(group: Seq<char>) -> Seq<char> {
    "\n        if [ -z \"$(getent group | grep "@ + group
        + ")\" ]; then \n            groupadd -r "@ + group + ";\n        fi\n    "@
}

/// The script that removes a group.
pub open spec fn group_remove_script(group: Seq<char>) -> Seq<char> {
    "groupdel "@ + group + ";"@
}

/// The script that reloads the systemd daemon.
pub open spec fn reload_daemon_script() -> Seq<char> {
    "systemctl daemon-reload;"@
}

/// The script that disables and stops a unit where it is known.
pub open spec fn disable_and_stop_script(unit: Seq<char>) -> Seq<char> {
    "\n            if [ $(systemctl list-unit-files "@ + unit
        + " &> /dev/null; echo $?) -eq 0 ]; then\n                systemctl disable "@ + unit
        + ";\n                systemctl stop "@ + unit + ";\n            fi;\n        "@
}

/// The script that restarts a unit only where it is active.
pub open spec fn restart_if_active_script(unit: Seq<char>) -> Seq<char> {
    "systemctl is-active --quiet "@ + unit + " && systemctl restart "@ + unit + ";"@
}

/// A Linux account name.
pub struct LinuxUser(pub String);

/// A Linux group name.
pub struct LinuxGroup(pub String);

impl LinuxUser {
    /// The script that creates the account where it does not exist yet.
    pub fn bash_add(&self) -> (r: String)
        ensures
            r@ == user_add_script(self.0@),
    {
        let mut r = String::new();
        r.append("\n        if [ -z \"$(getent passwd | grep ");
        r.append(self.0.as_str());
        r.append(")\" ]; then \n            useradd -r ");
        r.append(self.0.as_str());
        r.append(";\n        fi\n    ");
        r
    }

    /// The script that removes the account and its home directory.
    pub fn bash_remove(&self) -> (r: String)
        ensures
            r@ == user_remove_script(self.0@),
    {
        let mut r = String::new();
        r.append("userdel -r ");
        r.append(self.0.as_str());
        r.append(";");
        r
    }
}

impl LinuxGroup {
    /// The script that creates the group where it does not exist yet.
    pub fn bash_add(&self) -> (r: String)
        ensures
            r@ == group_add_script(self.0@),
    {
        let mut r = String::new();
        r.append("\n        if [ -z \"$(getent group | grep ");
        r.append(self.0.as_str());
        r.append(")\" ]; then \n            groupadd -r ");
        r.append(self.0.as_str());
        r.append(";\n        fi\n    ");
        r
    }

    /// The script that removes the group.
    pub fn bash_remove(&self) -> (r: String)
        ensures
            r@ == group_remove_script(self.0@),
    {
        let mut r = String::new();
        r.append("groupdel ");
        r.append(self.0.as_str());
        r.append(";");
        r
    }
}

/// A systemd unit, held by its unit file name.
#[derive(Debug)]
pub struct SystemdUnit(pub String);

impl SystemdUnit {
    /// A unit named after the base name of a unit file path; nothing
    /// where the path has no base name.
    pub fn try_from_path(path: &str) -> (r: Option<SystemdUnit>)
        ensures
            r is Some <==> base_name_of(path@).len() > 0,
            r matches Some(u) ==> u.0@ == base_name_of(path@),
    {
        match file_base_name(path) {
            Some(n) => Some(SystemdUnit(n)),
            None => None,
        }
    }

    /// The script that reloads the systemd daemon.
    pub fn bash_reload_daemon() -> (r: String)
        ensures
            r@ == reload_daemon_script(),
    {
        let mut r = String::new();
        r.append("systemctl daemon-reload;");
        r
    }

    /// The script that disables and stops the unit where it is known.
    pub fn bash_disable_and_stop(&self) -> (r: String)
        ensures
            r@ == disable_and_stop_script(self.0@),
    {
        let mut r = String::new();
        r.append("\n            if [ $(systemctl list-unit-files ");
        r.append(self.0.as_str());
        r.append(" &> /dev/null; echo $?) -eq 0 ]; then\n                systemctl disable ");
        r.append(self.0.as_str());
        r.append(";\n                systemctl stop ");
        r.append(self.0.as_str());
        r.append(";\n            fi;\n        ");
        r
    }

    /// The script that restarts the unit only where it is active.
    pub fn bash_restart_if_active(&self) -> (r: String)
        ensures
            r@ == restart_if_active_script(self.0@),
    {
        let mut r = String::new();
        r.append("systemctl is-active --quiet ");
        r.append(self.0.as_str());
        r.append(" && systemctl restart ");
        r.append(self.0.as_str());
        r.append(";");
        r
    }
}

} // verus!
