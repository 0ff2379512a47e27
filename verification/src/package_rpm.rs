//! The hook scripts of an RPM package: what runs before and after
//! install and uninstall. Driving the package builder itself is the
//! caller's step; every script is planned here.

use vstd::prelude::*;

verus! {

use crate::linux_utils::LinuxUser;
use crate::linux_utils::SystemdUnit;
use crate::linux_utils::disable_and_stop_script;
use crate::linux_utils::reload_daemon_script;
use crate::linux_utils::restart_if_active_script;
use crate::linux_utils::user_add_script;

/// The sequence ends with the given suffix.
pub open spec fn has_suffix(s: Seq<char>, suf: Seq<char>) -> bool {
    suf.len() <= s.len() && s.skip(s.len() - suf.len()) == suf
}

/// Decides whether `s` ends with `suf`.
pub fn str_has_suffix(s: &str, suf: &str) -> (r: bool)
    ensures
        r == has_suffix(s@, suf@),
{
    let slen = s.unicode_len();
    let suflen = suf.unicode_len();
    if suflen > slen {
        return false;
    }
    let mut j: usize = 0;
    #[verifier::loop_isolation(false)]
    loop
        invariant
            j <= suflen,
            suflen <= slen,
            forall|k: int| 0 <= k < j ==> s@[slen - suflen + k] == suf@[k],
        decreases suflen - j,
    {
        if j >= suflen {
            proof {
                assert(s@.skip(slen as int - suflen as int) =~= suf@);
            }
            return true;
        }
        if s.get_char(slen - suflen + j) != suf.get_char(j) {
            proof {
                assert(s@.skip(slen as int - suflen as int)[j as int] == s@[slen - suflen
                    + j as int]);
            }
            return false;
        }
        j += 1;
    }
}

/// Whether uninstall hooks manage the unit: timers and services do.
pub open spec fn is_uninstall_unit(u: SystemdUnit) -> bool {
    has_suffix(u.0@, ".timer"@) || has_suffix(u.0@, ".service"@)
}

/// The disable-and-stop block of the pre-uninstall hook: one script per
/// managed unit, each behind a line break, in the given order.
pub open spec fn remove_block(units: Seq<SystemdUnit>) -> Seq<char>
    decreases units.len(),
{
    if units.len() == 0 {
        Seq::empty()
    } else if is_uninstall_unit(units.last()) {
        remove_block(units.drop_last()) + "\n"@ + disable_and_stop_script(units.last().0@)
    } else {
        remove_block(units.drop_last())
    }
}

/// The restart block of the pre-uninstall hook: one script per managed
/// unit, each behind a line break, in the given order.
pub open spec fn restart_block(units: Seq<SystemdUnit>) -> Seq<char>
    decreases units.len(),
{
    if units.len() == 0 {
        Seq::empty()
    } else if is_uninstall_unit(units.last()) {
        restart_block(units.drop_last()) + "\n"@ + restart_if_active_script(units.last().0@)
    } else {
        restart_block(units.drop_last())
    }
}

/// The whole pre-uninstall hook: on removal the managed units are
/// disabled and stopped; on upgrade they are restarted instead.
pub open spec fn pre_uninstall_script(units: Seq<SystemdUnit>) -> Seq<char> {
    "\n        IS_UPGRADED=\"$1\"\n        case \"$IS_UPGRADED\" in\n           0) # This is a yum remove.\n              "@
        + remove_block(units)
        + "\n           ;;\n           1) # This is a yum upgrade.\n              "@
        + restart_block(units) + "\n              exit 0;\n           ;;\n         esac\n    "@
}

/// The pre-install hook: creates the service account where one is
/// wanted, and is empty otherwise.
pub open spec fn pre_install_hook(create_user: Option<Seq<char>>) -> Seq<char> {
    match create_user {
        Option::Some(u) => user_add_script(u),
        Option::None => Seq::empty(),
    }
}

/// The pre-uninstall hook script for the given units, in their order.
pub fn rpm_pre_uninstall(units: &Vec<SystemdUnit>) -> (r: String)
    ensures
        r@ == pre_uninstall_script(units@),
{
    let mut remove = String::new();
    let mut restart = String::new();
    let mut i: usize = 0;
    #[verifier::loop_isolation(false)]
    while i < units.len()
        invariant
            i <= units@.len(),
            remove@ == remove_block(units@.take(i as int)),
            restart@ == restart_block(units@.take(i as int)),
        decreases units@.len() - i,
    {
        proof {
            assert(units@.take(i as int + 1).drop_last() =~= units@.take(i as int));
            assert(units@.take(i as int + 1).last() == units@[i as int]);
        }
        if str_has_suffix(units[i].0.as_str(), ".timer") || str_has_suffix(
            units[i].0.as_str(),
            ".service",
        ) {
            let stop = units[i].bash_disable_and_stop();
            remove.append("\n");
            remove.append(stop.as_str());
            let re = units[i].bash_restart_if_active();
            restart.append("\n");
            restart.append(re.as_str());
        }
        i += 1;
    }
    proof {
        assert(units@.take(units@.len() as int) =~= units@);
    }
    let mut r = String::new();
    r.append(
        "\n        IS_UPGRADED=\"$1\"\n        case \"$IS_UPGRADED\" in\n           0) # This is a yum remove.\n              ",
    );
    r.append(remove.as_str());
    r.append("\n           ;;\n           1) # This is a yum upgrade.\n              ");
    r.append(restart.as_str());
    r.append("\n              exit 0;\n           ;;\n         esac\n    ");
    r
}

/// The pre-install hook script.
pub fn rpm_pre_install(create_user: &Option<String>) -> (r: String)
    ensures
        r@ == pre_install_hook(
            match create_user {
                Option::Some(u) => Option::Some(u@),
                Option::None => Option::None,
            },
        ),
{
    match create_user {
        Some(u) => LinuxUser(u.clone()).bash_add(),
        None => String::new(),
    }
}

/// The post-install hook script: reloads the systemd daemon.
pub fn rpm_post_install() -> (r: String)
    ensures
        r@ == reload_daemon_script(),
{
    SystemdUnit::bash_reload_daemon()
}

/// The post-uninstall hook script: reloads the systemd daemon.
pub fn rpm_post_uninstall() -> (r: String)
    ensures
        r@ == reload_daemon_script(),
{
    SystemdUnit::bash_reload_daemon()
}

/// Where a unit's file is installed.
pub fn unit_install_path(unit: &SystemdUnit) -> (r: String)
    ensures
        r@ == "/etc/systemd/system/"@ + unit.0@,
{
    let mut r = String::new();
    r.append("/etc/systemd/system/");
    r.append(unit.0.as_str());
    r
}

} // verus!
