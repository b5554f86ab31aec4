//! Decisions of the Hermes gateway lifecycle: reuse or spawn, the sandbox
//! profile, and the coarse status shown on the boot screen.
use vstd::prelude::*;

use crate::paths::{join_path, path_join};
use crate::text::{chars_eq_str, chars_of, trim, trimmed};

verus! {

/// Whether the sandbox marker's content turns the sandbox on: it must read
/// `1` once trimmed; an unreadable marker means off.
pub open spec fn sandbox_on(contents: Option<Seq<char>>) -> bool {
    match contents {
        Some(c) => trim(c) == "1"@,
        None => false,
    }
}

/// Reads the sandbox marker (`None` when the file cannot be read).
pub fn sandbox_enabled(contents: Option<String>) -> (b: bool)
    ensures
        b == sandbox_on(match contents {
            Some(c) => Some(c@),
            None => None,
        }),
{
    match contents {
        Some(c) => {
            let t = trimmed(&chars_of(c.as_str()));
            chars_eq_str(&t, "1")
        },
        None => false,
    }
}

/// What the sandbox marker is set to: `1` on, `0` off.
pub fn sandbox_marker_text(on: bool) -> (s: &'static str)
    ensures
        s@ == (if on { "1"@ } else { "0"@ }),
{
    if on {
        "1"
    } else {
        "0"
    }
}

/// The macOS Seatbelt profile for the gateway: everything allowed except
/// file writes, which are confined to the workspace, the Hermes home, the
/// temporary directories, the user's caches and `/dev`.
pub open spec fn seatbelt_profile_text(ws: Seq<char>, hh: Seq<char>, home: Seq<char>) -> Seq<char> {
    "(version 1)\n(allow default)\n(deny file-write*)\n(allow file-write*\n  (subpath \""@ + ws
        + "\")\n  (subpath \""@ + hh
        + "\")\n  (subpath \"/tmp\")\n  (subpath \"/private/tmp\")\n  (subpath \"/private/var/folders\")\n  (subpath \""@
        + home + "/Library/Caches\")\n  (subpath \""@ + home
        + "/.cache\")\n  (subpath \"/dev\"))\n"@
}

/// Builds the Seatbelt profile for a workspace, Hermes home and user home.
pub fn seatbelt_profile(workspace: &str, hermes_home: &str, home: &str) -> (s: String)
    ensures
        s@ == seatbelt_profile_text(workspace@, hermes_home@, home@),
{
    let mut s = String::from_str(
        "(version 1)\n(allow default)\n(deny file-write*)\n(allow file-write*\n  (subpath \"",
    );
    s.append(workspace);
    s.append("\")\n  (subpath \"");
    s.append(hermes_home);
    s.append(
        "\")\n  (subpath \"/tmp\")\n  (subpath \"/private/tmp\")\n  (subpath \"/private/var/folders\")\n  (subpath \"",
    );
    s.append(home);
    s.append("/Library/Caches\")\n  (subpath \"");
    s.append(home);
    s.append("/.cache\")\n  (subpath \"/dev\"))\n");
    s
}

/// How the gateway is brought up.
#[derive(Debug)]
pub enum BackendPlan {
    /// A healthy gateway already answers: reuse it.
    Reuse,
    /// Hermes is not provisioned: there is nothing to start.
    NoLauncher,
    /// Start `program args..` in `cwd`, with `HERMES_HOME` set to
    /// `hermes_home` and output appended to `log_path`; when `profile` is
    /// present, its text is first written to its path.
    Spawn {
        program: String,
        args: Vec<String>,
        cwd: String,
        hermes_home: String,
        log_path: String,
        profile: Option<(String, String)>,
    },
}

/// Mathematical form of a [`BackendPlan`].
pub enum PlanView {
    Reuse,
    NoLauncher,
    Spawn {
        program: Seq<char>,
        args: Seq<Seq<char>>,
        cwd: Seq<char>,
        hermes_home: Seq<char>,
        log_path: Seq<char>,
        profile: Option<(Seq<char>, Seq<char>)>,
    },
}

pub open spec fn strings_view(v: Seq<String>) -> Seq<Seq<char>> {
    v.map_values(|s: String| s@)
}

impl View for BackendPlan {
    type V = PlanView;

    open spec fn view(&self) -> PlanView {
        match self {
            BackendPlan::Reuse => PlanView::Reuse,
            BackendPlan::NoLauncher => PlanView::NoLauncher,
            BackendPlan::Spawn { program, args, cwd, hermes_home, log_path, profile } =>
                PlanView::Spawn {
                program: program@,
                args: strings_view(args@),
                cwd: cwd@,
                hermes_home: hermes_home@,
                log_path: log_path@,
                profile: match profile {
                    Some(p) => Some((p.0@, p.1@)),
                    None => None,
                },
            },
        }
    }
}

/// The plan for bringing up the gateway: reuse a healthy one; without a
/// launcher there is nothing to start; else run `<launcher> gateway` in the
/// workspace, under `sandbox-exec -f <profile>` when the sandbox is on.
pub open spec fn backend_plan(
    healthy: bool,
    launcher: Option<Seq<char>>,
    sandboxed: bool,
    ws: Seq<char>,
    hh: Seq<char>,
    home: Seq<char>,
) -> PlanView {
    if healthy {
        PlanView::Reuse
    } else if launcher is None {
        PlanView::NoLauncher
    } else {
        let l = launcher->0;
        let profile_path = path_join(hh, ".nd-sandbox.sb"@);
        let log_path = path_join(hh, "logs/devrun-gateway.log"@);
        if sandboxed {
            PlanView::Spawn {
                program: "sandbox-exec"@,
                args: seq!["-f"@, profile_path, l, "gateway"@],
                cwd: ws,
                hermes_home: hh,
                log_path,
                profile: Some((profile_path, seatbelt_profile_text(ws, hh, home))),
            }
        } else {
            PlanView::Spawn {
                program: l,
                args: seq!["gateway"@],
                cwd: ws,
                hermes_home: hh,
                log_path,
                profile: None,
            }
        }
    }
}

/// How the gateway is brought up. A healthy gateway is reused; without a
/// launcher nothing is started; otherwise the gateway is spawned, always in
/// the workspace and with `HERMES_HOME` set to the isolated Hermes home, its
/// output appended to `logs/devrun-gateway.log` there. Unsandboxed it runs
/// `<launcher> gateway`; the sandbox changes only what is run: the same
/// command is run by `sandbox-exec -f <profile>`, with the profile written to
/// `.nd-sandbox.sb` in the Hermes home, and the working directory, home and
/// log stay those of the unsandboxed spawn.
pub proof fn law_gateway_runs_in_workspace(
    healthy: bool,
    launcher: Option<Seq<char>>,
    sandboxed: bool,
    ws: Seq<char>,
    hh: Seq<char>,
    home: Seq<char>,
)
    ensures
        healthy ==> backend_plan(healthy, launcher, sandboxed, ws, hh, home) is Reuse,
        !healthy && launcher is None ==> backend_plan(healthy, launcher, sandboxed, ws, hh, home)
            is NoLauncher,
        !healthy && launcher is Some ==> {
            let plain = backend_plan(healthy, launcher, false, ws, hh, home);
            let boxed = backend_plan(healthy, launcher, true, ws, hh, home);
            let profile_path = path_join(hh, ".nd-sandbox.sb"@);
            &&& plain matches PlanView::Spawn { program: p0, args: a0, cwd: c0, hermes_home: h0, log_path: g0, profile: f0 }
            &&& boxed matches PlanView::Spawn { program: p1, args: a1, cwd: c1, hermes_home: h1, log_path: g1, profile: f1 }
            &&& c0 == ws && c1 == ws
            &&& h0 == hh && h1 == hh
            &&& g0 == path_join(hh, "logs/devrun-gateway.log"@) && g1 == g0
            &&& p0 == launcher->0 && a0 == seq!["gateway"@] && f0 is None
            &&& p1 == "sandbox-exec"@ && a1 == seq!["-f"@, profile_path, p0] + a0
            &&& f1 == Some((profile_path, seatbelt_profile_text(ws, hh, home)))
        },
{
    let profile_path = path_join(hh, ".nd-sandbox.sb"@);
    if !healthy && launcher is Some {
        assert(seq!["-f"@, profile_path, launcher->0, "gateway"@] == seq!["-f"@, profile_path, launcher->0]
            + seq!["gateway"@]);
    }
}

/// Decides how to bring up the gateway from what was observed: whether
/// `:8642` answered the health check, the launcher (if provisioned) and the
/// sandbox setting.
pub fn plan_backend(
    healthy: bool,
    launcher: Option<String>,
    sandboxed: bool,
    workspace: &str,
    hermes_home: &str,
    home: &str,
) -> (p: BackendPlan)
    ensures
        p@ == backend_plan(
            healthy,
            match launcher {
                Some(l) => Some(l@),
                None => None,
            },
            sandboxed,
            workspace@,
            hermes_home@,
            home@,
        ),
        p@ matches PlanView::Spawn { cwd, hermes_home: h, .. } ==> cwd == workspace@ && h
            == hermes_home@,
{
    if healthy {
        return BackendPlan::Reuse;
    }
    let l = match launcher {
        Some(l) => l,
        None => return BackendPlan::NoLauncher,
    };
    let profile_path = join_path(hermes_home, ".nd-sandbox.sb");
    let log_path = join_path(hermes_home, "logs/devrun-gateway.log");
    if sandboxed {
        let text = seatbelt_profile(workspace, hermes_home, home);
        let args = vec![
            String::from_str("-f"),
            profile_path.clone(),
            l,
            String::from_str("gateway"),
        ];
        proof {
            assert(strings_view(args@) == seq!["-f"@, profile_path@, launcher->0@, "gateway"@]);
        }
        BackendPlan::Spawn {
            program: String::from_str("sandbox-exec"),
            args,
            cwd: String::from_str(workspace),
            hermes_home: String::from_str(hermes_home),
            log_path,
            profile: Some((profile_path, text)),
        }
    } else {
        let args = vec![String::from_str("gateway")];
        proof {
            assert(strings_view(args@) == seq!["gateway"@]);
        }
        BackendPlan::Spawn {
            program: l,
            args,
            cwd: String::from_str(workspace),
            hermes_home: String::from_str(hermes_home),
            log_path,
            profile: None,
        }
    }
}

/// The boot-screen state: `online` when the gateway answers, else
/// `needs_provision` when Hermes is not installed, else the recorded
/// provisioning state (`starting` while none is recorded).
pub open spec fn status_state(online: bool, provisioned: bool, recorded: Seq<char>) -> Seq<char> {
    if online {
        "online"@
    } else if !provisioned {
        "needs_provision"@
    } else if recorded.len() == 0 {
        "starting"@
    } else {
        recorded
    }
}

/// Computes the coarse backend state for the boot screen.
pub fn backend_status_state(online: bool, provisioned: bool, recorded: &str) -> (s: String)
    ensures
        s@ == status_state(online, provisioned, recorded@),
{
    if online {
        String::from_str("online")
    } else if !provisioned {
        String::from_str("needs_provision")
    } else if recorded.is_empty() {
        String::from_str("starting")
    } else {
        String::from_str(recorded)
    }
}

/// How many times a restart tries to stop the old gateway.
pub const RESTART_ATTEMPTS: u32 = 30;

/// Whether a restart keeps trying to stop the old gateway: it stops as soon
/// as `:8642` no longer answers, and after [`RESTART_ATTEMPTS`] tries.
pub fn keep_stopping(attempts_done: u32, still_up: bool) -> (b: bool)
    ensures
        b == (still_up && attempts_done < RESTART_ATTEMPTS),
{
    still_up && attempts_done < RESTART_ATTEMPTS
}

} // verus!
