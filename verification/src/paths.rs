//! Where the host keeps its isolated Hermes installation.
//!
//! Paths are text here; joining follows `Path::join` on Unix: an absolute
//! component replaces the base, a relative one is appended after a `'/'`
//! unless the base is empty or already ends with one.
use vstd::prelude::*;

use crate::text::{chars_of, push_char, string_of};

verus! {

/// `base` joined with `rel` (`Path::join` on Unix).
pub open spec fn path_join(base: Seq<char>, rel: Seq<char>) -> Seq<char> {
    if rel.len() > 0 && rel[0] == '/' {
        rel
    } else if base.len() == 0 || base.last() == '/' {
        base + rel
    } else {
        base + seq!['/'] + rel
    }
}

/// Joins two paths (`Path::join` on Unix).
pub fn join_path(base: &str, rel: &str) -> (r: String)
    ensures
        r@ == path_join(base@, rel@),
{
    let b = chars_of(base);
    let rc = chars_of(rel);
    if rc.len() > 0 && rc[0] == '/' {
        return string_of(&rc);
    }
    let mut out = string_of(&b);
    if !(b.len() == 0 || b[b.len() - 1] == '/') {
        push_char(&mut out, '/');
    }
    out.append(rel);
    out
}

/// The isolated Hermes home under a user home: `<home>/.neuraldeep/hermes`.
pub open spec fn hermes_home_of(home: Seq<char>) -> Seq<char> {
    path_join(path_join(home, ".neuraldeep"@), "hermes"@)
}

/// The isolated Hermes home under the user home `home`.
pub fn hermes_home_in(home: &str) -> (r: String)
    ensures
        r@ == hermes_home_of(home@),
{
    let a = join_path(home, ".neuraldeep");
    join_path(a.as_str(), "hermes")
}

/// The user's home directory as `dirs::home_dir` finds it (`$HOME`, else the
/// password database), as text. Trusted; nothing is claimed of the result,
/// which depends on the environment.
#[verifier::external_body]
fn home_dir() -> Option<String> {
    dirs::home_dir().map(|p| p.to_string_lossy().into_owned())
}

/// Whether something exists at `path` (`Path::exists`). Trusted; nothing is
/// claimed of the result, which depends on the disk.
#[verifier::external_body]
fn path_exists(path: &str) -> bool {
    std::path::Path::new(path).exists()
}

/// The home directory text for what the lookup found: the directory, or
/// empty when it found none.
pub fn home_or_empty(found: Option<String>) -> (r: String)
    ensures
        r@ == match found {
            Some(h) => h@,
            None => Seq::<char>::empty(),
        },
{
    match found {
        Some(h) => h,
        None => String::new(),
    }
}

/// The user's home directory, empty when it cannot be found.
pub fn home() -> (r: String) {
    home_or_empty(home_dir())
}

/// The isolated Hermes home, `~/.neuraldeep/hermes`, never the user's
/// `~/.hermes`.
pub fn hermes_home() -> (r: String)
    ensures
        exists|h: Seq<char>| r@ == hermes_home_of(h),
{
    let h = home();
    hermes_home_in(h.as_str())
}

/// The `hermes` launcher inside the provisioned venv of a Hermes home.
pub open spec fn launcher_of(hh: Seq<char>) -> Seq<char> {
    path_join(hh, "hermes-agent/venv/bin/hermes"@)
}

/// The `hermes` launcher of the isolated Hermes home, when it exists
/// (`None` until provisioning has run).
pub fn hermes_launcher() -> (r: Option<String>)
    ensures
        r matches Some(p) ==> exists|h: Seq<char>| p@ == launcher_of(hermes_home_of(h)),
{
    let hh = hermes_home();
    let present = path_exists(join_path(hh.as_str(), "hermes-agent/venv/bin/hermes").as_str());
    launcher_if_present(hh.as_str(), present)
}

/// The launcher of the Hermes home `hermes_home`, given whether it is
/// present on disk: its path when present, else `None`.
pub fn launcher_if_present(hermes_home: &str, present: bool) -> (r: Option<String>)
    ensures
        match r {
            Some(p) => present && p@ == launcher_of(hermes_home@),
            None => !present,
        },
{
    if present {
        Some(join_path(hermes_home, "hermes-agent/venv/bin/hermes"))
    } else {
        None
    }
}

/// Whether the first-run installer has produced a runnable Hermes.
pub fn provisioned() -> (b: bool) {
    hermes_launcher().is_some()
}

/// The sandbox marker file of a Hermes home.
pub open spec fn sandbox_marker_of(hh: Seq<char>) -> Seq<char> {
    path_join(hh, ".nd-sandbox"@)
}

/// The marker file whose content `1` runs the gateway under the sandbox.
pub fn sandbox_marker() -> (r: String)
    ensures
        exists|h: Seq<char>| r@ == sandbox_marker_of(hermes_home_of(h)),
{
    let hh = hermes_home();
    join_path(hh.as_str(), ".nd-sandbox")
}

/// A file inside the isolated Hermes home (`.env`, `config.yaml`, ...).
pub fn hermes_file(name: &str) -> (r: String)
    ensures
        exists|h: Seq<char>| r@ == path_join(hermes_home_of(h), name@),
{
    let hh = hermes_home();
    join_path(hh.as_str(), name)
}

} // verus!
