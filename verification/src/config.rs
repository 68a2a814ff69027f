//! Where the files of the module stand.

use vstd::prelude::*;
use vstd::string::*;

verus! {

/// Module directory: scripts, binary, socket and log live here. Its contents
/// are replaced on module update, so user data must NOT live here.
pub const MODULE_DIR: &'static str = "/data/adb/modules/ningshi";

/// Persistent data directory: survives module updates/reinstalls.
pub const DATA_DIR: &'static str = "/data/adb/ningshi";

/// cgroup v2 mount point (standard Android path).
pub const CGROUP_ROOT: &'static str = "/sys/fs/cgroup";

/// The path of `name` inside directory `dir`.
pub open spec fn path_in(dir: Seq<char>, name: Seq<char>) -> Seq<char> {
    dir + "/"@ + name
}

fn join(dir: &str, name: &str) -> (r: String)
    ensures
        r@ == path_in(dir@, name@),
{
    dir.to_owned().concat("/").concat(name)
}

/// Path inside the module directory.
pub fn module_file(name: &str) -> (r: String)
    ensures
        r@ == path_in("/data/adb/modules/ningshi"@, name@),
{
    join(MODULE_DIR, name)
}

/// Path inside the persistent data directory.
pub fn data_file(name: &str) -> (r: String)
    ensures
        r@ == path_in("/data/adb/ningshi"@, name@),
{
    join(DATA_DIR, name)
}

/// The live rules.
pub fn rules_path() -> (r: String)
    ensures
        r@ == path_in("/data/adb/ningshi"@, "rules.json"@),
{
    data_file("rules.json")
}

/// Last known good rule set: refreshed after every successful parse and used
/// when the live file becomes unreadable, so a corrupt write can never silently
/// disarm the module.
pub fn rules_backup_path() -> (r: String)
    ensures
        r@ == path_in("/data/adb/ningshi"@, "rules.json.ok"@),
{
    data_file("rules.json.ok")
}

/// Held with flock() by the running daemon. Two instances would attach two sets
/// of probes with two conflicting block maps, so the second one exits.
pub fn lock_path() -> (r: String)
    ensures
        r@ == path_in("/data/adb/ningshi"@, "daemon.lock"@),
{
    data_file("daemon.lock")
}

/// The counters that survive a restart.
pub fn state_path() -> (r: String)
    ensures
        r@ == path_in("/data/adb/ningshi"@, "state.json"@),
{
    data_file("state.json")
}

/// The socket the daemon listens on.
pub fn socket_path() -> (r: String)
    ensures
        r@ == path_in("/data/adb/modules/ningshi"@, "ningshi.sock"@),
{
    module_file("ningshi.sock")
}

/// The log.
pub fn log_path() -> (r: String)
    ensures
        r@ == path_in("/data/adb/modules/ningshi"@, "ningshi.log"@),
{
    module_file("ningshi.log")
}

// ---------------------------------------------------------------------------
// Laws
// ---------------------------------------------------------------------------

/// A path is its directory, a slash and the name: two names in one directory are two
/// files.
pub proof fn names_are_different_files(dir: Seq<char>, a: Seq<char>, b: Seq<char>)
    ensures
        path_in(dir, a) == dir + seq!['/'] + a,
        path_in(dir, a) == path_in(dir, b) ==> a == b,
{
    reveal_strlit("/");
    assert("/"@ =~= seq!['/']);
    let n = dir.len() as int + 1;
    assert(path_in(dir, a).skip(n) =~= a);
    assert(path_in(dir, b).skip(n) =~= b);
}

} // verus!
