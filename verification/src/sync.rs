//! Pulling one tunnel config down from a server and putting it where the
//! client reads it.
//!
//! The client imports a config once and never looks at that file again: it
//! reads its own copy. So a config that changes on the server reaches the
//! tunnel only when that copy is written and the tunnel is restarted. What
//! is fetched, where it goes, and what each outcome means is decided here;
//! the fetching, writing and restarting are done outside.

use vstd::prelude::*;

use crate::fetch::{origin, origin_of, Origin};
use crate::paths::{
    below, given, given_value, path_text, place, then_below, Environment, Location, LocationView,
    Platform,
};
use crate::subtract::temporary_name;
use crate::text::{
    contains, contains_char, debug_form, debug_text, decimal, decimal_text, has_char, has_text,
    is_white_space, law_trim_takes_white_space, occurs_at, owned, same, text_result, trim, trim_end,
    trimmed, trimmed_end, Class,
};
use crate::wgconf::{conf, has_allowed_ips_line, law_lines_with_a_value, values, WgConfig};

verus! {

// ---------------------------------------------------------------------------
// The store
// ---------------------------------------------------------------------------

/// The folder in which the client keeps the copy it dials.
pub open spec fn store_place(platform: Platform, env: Environment) -> LocationView {
    match given(env.conf_store) {
        Some(d) => place(d, Seq::empty()),
        None => match platform {
            Platform::Windows => place(
                "C:\\Program Files\\AmnesiaWG\\Data\\Configurations"@,
                Seq::empty(),
            ),
            Platform::Unix => match given(env.xdg_config_home) {
                Some(x) => place(x, seq!["amneziawg"@, "Configurations"@]),
                None => place(
                    match env.home {
                        Some(h) => h@,
                        None => "/"@,
                    },
                    seq![".config"@, "amneziawg"@, "Configurations"@],
                ),
            },
        },
    }
}

/// The folder in which the client keeps the copy it dials.
/// `WIREUTILS_CONF_STORE` wins when set.
pub fn config_store_dir(platform: Platform, env: &Environment) -> (r: Location)
    ensures
        r@ == store_place(platform, *env),
{
    if let Some(d) = given_value(&env.conf_store) {
        let r = below(d, &[]);
        assert(r@.parts =~= Seq::<Seq<char>>::empty());
        return r;
    }
    match platform {
        Platform::Windows => {
            let r = below(owned("C:\\Program Files\\AmnesiaWG\\Data\\Configurations"), &[]);
            assert(r@.parts =~= Seq::<Seq<char>>::empty());
            r
        },
        Platform::Unix => {
            if let Some(x) = given_value(&env.xdg_config_home) {
                let r = below(x, &["amneziawg", "Configurations"]);
                assert(r@.parts =~= seq!["amneziawg"@, "Configurations"@]);
                return r;
            }
            let home = match &env.home {
                Some(h) => h.clone(),
                None => owned("/"),
            };
            let r = below(home, &[".config", "amneziawg", "Configurations"]);
            assert(r@.parts =~= seq![".config"@, "amneziawg"@, "Configurations"@]);
            r
        },
    }
}

/// The folder in which the client keeps the copy it dials, for printing.
pub fn store_dir_label(platform: Platform, env: &Environment) -> (r: String)
    ensures
        ({
            let dir = store_place(platform, *env);
            r@ == path_text(platform, dir.base, dir.parts)
        }),
{
    config_store_dir(platform, env).text(platform)
}

/// True for a text that names a path and not a tunnel.
pub open spec fn names_a_path(name: Seq<char>) -> bool {
    contains_char(name, '/') || contains_char(name, '\\') || contains(name, ".."@)
}

/// The name of a tunnel, or why it is none. A name that would leave the
/// folder is refused rather than mended.
pub open spec fn tunnel(name: Seq<char>) -> std::result::Result<Seq<char>, Seq<char>> {
    if trim(name).len() == 0 {
        Err("the tunnel name is empty"@)
    } else if names_a_path(trim(name)) {
        Err(
            "the tunnel name "@ + debug_form(trim(name))
                + " names a path, not a tunnel — refusing it"@,
        )
    } else {
        Ok(trim(name))
    }
}

fn checked_name(name: &str) -> (r: std::result::Result<String, String>)
    ensures
        text_result(r) == tunnel(name@),
{
    let name = trimmed(name);
    if name.as_str().is_empty() {
        return Err(owned("the tunnel name is empty"));
    }
    if has_char(name.as_str(), '/') || has_char(name.as_str(), '\\') || has_text(
        name.as_str(),
        "..",
    ) {
        let mut e: String = owned("the tunnel name ");
        e.append(debug_text(name.as_str()).as_str());
        e.append(" names a path, not a tunnel — refusing it");
        return Err(e);
    }
    Ok(name)
}

/// The file a named tunnel is stored in.
pub fn config_path(platform: Platform, env: &Environment, tunnel_name: &str) -> (r:
    std::result::Result<Location, String>)
    ensures
        match (r, tunnel(tunnel_name@)) {
            (Ok(l), Ok(name)) => {
                let dir = store_place(platform, *env);
                l@ == place(dir.base, dir.parts.push(name + ".conf"@))
            },
            (Err(e), Err(m)) => e@ == m,
            _ => false,
        },
{
    match checked_name(tunnel_name) {
        Ok(name) => {
            let mut file: String = name;
            file.append(".conf");
            let dir = config_store_dir(platform, env);
            Ok(then_below(&dir, file.as_str()))
        },
        Err(e) => Err(e),
    }
}

// ---------------------------------------------------------------------------
// Fetching
// ---------------------------------------------------------------------------

/// The URL of a tunnel's config.
pub open spec fn config_url(base_url: Seq<char>, name: Seq<char>) -> Seq<char> {
    trim_end(base_url, Class::One('/')) + "/"@ + name + ".conf"@
}

/// What to fetch: the URL, for the words of an error, and where it leads.
#[derive(Debug, Clone, PartialEq, Eq)]
pub struct Request {
    pub url: String,
    pub origin: Origin,
}

/// What to fetch for a tunnel, or why nothing is fetched.
pub fn request(base_url: &str, tunnel_name: &str) -> (r: std::result::Result<Request, String>)
    ensures
        match (r, tunnel(tunnel_name@)) {
            (Ok(q), Ok(name)) => q.url@ == config_url(base_url@, name) && q.origin@ == origin(
                config_url(base_url@, name),
            ),
            (Err(e), Err(m)) => e@ == m,
            _ => false,
        },
{
    match checked_name(tunnel_name) {
        Ok(name) => {
            let mut url: String = trimmed_end(base_url, Class::One('/'));
            url.append("/");
            url.append(name.as_str());
            url.append(".conf");
            let origin = origin_of(url.as_str());
            Ok(Request { url, origin })
        },
        Err(e) => Err(e),
    }
}

/// What came back for a request.
#[derive(Debug, PartialEq, Eq)]
pub enum Reply {
    /// Nothing could be read, with the words of the failure.
    Failed(String),
    /// A server answered with a status, and its body could be read or not.
    Answered { status: u16, body: std::result::Result<String, String> },
    /// A file was read.
    Read(String),
}

/// The text that a reply brought, or what went wrong.
pub open spec fn reply_text(
    url: Seq<char>,
    reply: Reply,
) -> std::result::Result<Seq<char>, Seq<char>> {
    match reply {
        Reply::Failed(e) => Err(url + ": "@ + e@),
        Reply::Answered { status, body } => if status != 200 {
            Err(url + ": HTTP "@ + decimal(status as nat))
        } else {
            match body {
                Ok(t) => Ok(t@),
                Err(e) => Err(url + ": "@ + e@),
            }
        },
        Reply::Read(t) => Ok(t@),
    }
}

/// The config that a reply brought, or why there is none to install: one
/// without an `AllowedIPs` line is not installed.
pub open spec fn fetched(
    url: Seq<char>,
    reply: Reply,
) -> std::result::Result<Seq<char>, Seq<char>> {
    match reply_text(url, reply) {
        Ok(t) => if has_allowed_ips_line(conf(t)) {
            Ok(t)
        } else {
            Err(
                url + ": fetched, but it has no AllowedIPs line — refusing to install it"@,
            )
        },
        Err(e) => Err(e),
    }
}

/// `url`, a colon and the words of a failure.
pub(crate) fn failed(url: &str, e: &str) -> (r: String)
    ensures
        r@ == url@ + ": "@ + e@,
{
    let mut m: String = owned(url);
    m.append(": ");
    m.append(e);
    m
}

/// The text of a config, from the reply to a request for it.
pub fn fetch_text(url: &str, reply: Reply) -> (r: std::result::Result<String, String>)
    ensures
        text_result(r) == fetched(url@, reply),
{
    let text = match reply {
        Reply::Failed(e) => {
            return Err(failed(url, e.as_str()));
        },
        Reply::Answered { status, body } => {
            if status != 200 {
                let mut m: String = owned(url);
                m.append(": HTTP ");
                m.append(decimal_text(status as u128).as_str());
                return Err(m);
            }
            match body {
                Ok(t) => t,
                Err(e) => {
                    return Err(failed(url, e.as_str()));
                },
            }
        },
        Reply::Read(t) => t,
    };
    let parsed = WgConfig::parse(text.as_str());
    if !parsed.has_allowed_ips() {
        let mut m: String = owned(url);
        m.append(": fetched, but it has no AllowedIPs line — refusing to install it");
        return Err(m);
    }
    Ok(text)
}

// ---------------------------------------------------------------------------
// Installing
// ---------------------------------------------------------------------------

/// Where a config was installed, and whether that changed anything.
#[derive(Debug, Clone, PartialEq, Eq)]
pub struct Install<P> {
    pub path: P,
    /// False when the store already held exactly this text.
    pub changed: bool,
}

/// True when the text has to be written: nothing could be read at its
/// place, or something else.
pub open spec fn is_change(existing: Option<Seq<char>>, text: Seq<char>) -> bool {
    match existing {
        Some(e) => e != text,
        None => true,
    }
}

/// What installing a text at a place comes to, given what is there. When
/// nothing changes, nothing is written and no tunnel restarted.
pub fn install<P>(path: P, existing: Option<&str>, text: &str) -> (r: Install<P>)
    ensures
        r.path == path,
        r.changed == is_change(
            match existing {
                Some(e) => Some(e@),
                None => None,
            },
            text@,
        ),
{
    let changed: bool = match existing {
        Some(e) => !same(e, text),
        None => true,
    };
    Install { path, changed }
}

/// A step of installing a config.
#[derive(Debug, Clone, Copy, PartialEq, Eq, Structural)]
pub enum InstallStep {
    /// Make the folder of the store, unless it is there.
    MakeFolder,
    /// Write the text beside the config, so that a fetch that dies half way
    /// cannot leave the client with half a config.
    WriteTemporary,
    /// Move it over the config.
    RenameOver,
    /// Take it away again, since it could not be moved.
    DropTemporary,
}

/// The step of an install that comes next, given the one that was done and
/// whether it succeeded; `None` when the install is over. No config is
/// touched but the one that changes.
pub open spec fn next_step(
    changed: bool,
    done: Option<(InstallStep, bool)>,
) -> Option<InstallStep> {
    match done {
        None => if changed {
            Some(InstallStep::MakeFolder)
        } else {
            None
        },
        Some((InstallStep::MakeFolder, true)) => Some(InstallStep::WriteTemporary),
        Some((InstallStep::WriteTemporary, true)) => Some(InstallStep::RenameOver),
        Some((InstallStep::RenameOver, false)) => Some(InstallStep::DropTemporary),
        Some(_) => None,
    }
}

/// The step of an install that comes next, given the one that was done and
/// whether it succeeded; `None` when the install is over.
pub fn install_next(changed: bool, done: Option<(InstallStep, bool)>) -> (r: Option<InstallStep>)
    ensures
        r == next_step(changed, done),
{
    match done {
        None => if changed {
            Some(InstallStep::MakeFolder)
        } else {
            None
        },
        Some((InstallStep::MakeFolder, true)) => Some(InstallStep::WriteTemporary),
        Some((InstallStep::WriteTemporary, true)) => Some(InstallStep::RenameOver),
        Some((InstallStep::RenameOver, false)) => Some(InstallStep::DropTemporary),
        Some(_) => None,
    }
}

/// True when `dir` can be a config store: it is a folder, or is not there
/// yet.
pub fn store_is_usable(dir: &str, exists: bool, is_dir: bool) -> (r: std::result::Result<
    (),
    String,
>)
    ensures
        match r {
            Ok(_) => !(exists && !is_dir),
            Err(e) => exists && !is_dir && e@ == dir@ + " is not a directory"@,
        },
{
    if exists && !is_dir {
        let mut e: String = owned(dir);
        e.append(" is not a directory");
        Err(e)
    } else {
        Ok(())
    }
}

// ---------------------------------------------------------------------------
// The tunnel service
// ---------------------------------------------------------------------------

/// Where the client's program is: as the variable says, or in one of the two
/// places it is installed in.
pub fn amnesiawg_exe(
    variable: &Option<String>,
    first_exists: bool,
    second_exists: bool,
) -> (r: std::result::Result<String, String>)
    ensures
        text_result(r) == (match given(*variable) {
            Some(p) => Ok(p),
            None => if first_exists {
                Ok("C:\\Program Files\\AmnesiaWG\\amnesiawg.exe"@)
            } else if second_exists {
                Ok("C:\\Program Files\\AmnesiaWG\\AmnesiaWG.exe"@)
            } else {
                Err(
                    "amnesiawg.exe was not found in C:\\Program Files\\AmnesiaWG — set WIREUTILS_AMNESIAWG to its full path"@,
                )
            },
        }),
{
    match given_value(variable) {
        Some(p) => Ok(p),
        None => if first_exists {
            Ok(owned("C:\\Program Files\\AmnesiaWG\\amnesiawg.exe"))
        } else if second_exists {
            Ok(owned("C:\\Program Files\\AmnesiaWG\\AmnesiaWG.exe"))
        } else {
            Err(
                owned(
                    "amnesiawg.exe was not found in C:\\Program Files\\AmnesiaWG — set WIREUTILS_AMNESIAWG to its full path",
                ),
            )
        },
    }
}

/// How far a restart of the tunnel got.
#[derive(Debug, Clone, PartialEq, Eq)]
pub enum Restart {
    /// The platform has no tunnel service.
    NoService,
    /// There is no config at its place.
    NoConfig { path: String },
    /// The client's program could not be run.
    NotRun { exe: String, error: String },
    /// The service was stopped or did not run, and did not start.
    NotStarted { exe: String, path: String, stderr: String },
    /// The service runs again, or for the first time.
    Started { was_running: bool },
}

/// What is said of a restart.
pub open spec fn restart_text(r: Restart) -> std::result::Result<Seq<char>, Seq<char>> {
    match r {
        Restart::NoService => Ok(
            "no tunnel service on this platform — restart the client yourself"@,
        ),
        Restart::NoConfig { path } => Err(
            path@ + " does not exist yet — fetch a config before restarting the tunnel"@,
        ),
        Restart::NotRun { exe, error } => Err(exe@ + ": "@ + error@),
        Restart::NotStarted { exe, path, stderr } => Err(
            exe@ + " /installtunnelservice "@ + path@ + " failed: "@ + trim(stderr@),
        ),
        Restart::Started { was_running } => Ok(
            if was_running {
                "tunnel service stopped, tunnel service started"@
            } else {
                "no tunnel service was running, tunnel service started"@
            },
        ),
    }
}

/// What is said of a restart of the tunnel service.
pub fn restart_tunnel(done: Restart) -> (r: std::result::Result<String, String>)
    ensures
        text_result(r) == restart_text(done),
{
    match done {
        Restart::NoService => Ok(
            owned("no tunnel service on this platform — restart the client yourself"),
        ),
        Restart::NoConfig { path } => {
            let mut e: String = path;
            e.append(" does not exist yet — fetch a config before restarting the tunnel");
            Err(e)
        },
        Restart::NotRun { exe, error } => Err(failed(exe.as_str(), error.as_str())),
        Restart::NotStarted { exe, path, stderr } => {
            let mut e: String = exe;
            e.append(" /installtunnelservice ");
            e.append(path.as_str());
            e.append(" failed: ");
            e.append(trimmed(stderr.as_str()).as_str());
            Err(e)
        },
        Restart::Started { was_running } => Ok(
            if was_running {
                owned("tunnel service stopped, tunnel service started")
            } else {
                owned("no tunnel service was running, tunnel service started")
            },
        ),
    }
}

/// True for a platform on which the client runs a tunnel as a service.
pub fn has_tunnel_service(platform: Platform) -> (r: bool)
    ensures
        r == (platform == Platform::Windows),
{
    match platform {
        Platform::Windows => true,
        Platform::Unix => false,
    }
}

/// What the client's program is run for.
#[derive(Debug, Clone, Copy, PartialEq, Eq, Structural)]
pub enum TunnelStep {
    /// Stop the service of a tunnel, named by the tunnel.
    Stop,
    /// Start it again, named by its config.
    Start { was_running: bool },
}

/// The argument that asks the client's program for a step.
pub fn step_flag(step: TunnelStep) -> (r: String)
    ensures
        r@ == (match step {
            TunnelStep::Stop => "/uninstalltunnelservice"@,
            TunnelStep::Start { .. } => "/installtunnelservice"@,
        }),
{
    match step {
        TunnelStep::Stop => owned("/uninstalltunnelservice"),
        TunnelStep::Start { .. } => owned("/installtunnelservice"),
    }
}

/// What came of running the client's program.
#[derive(Debug, Clone, PartialEq, Eq)]
pub enum Ran {
    /// It could not be run, with the words of the failure.
    NotRun(String),
    /// It ran to its end.
    Ended { success: bool, stderr: String },
}

/// What a restart comes to next.
#[derive(Debug, Clone, PartialEq, Eq)]
pub enum RestartNext {
    /// Run the client's program for this.
    Run(TunnelStep),
    /// Nothing more.
    Over(Restart),
}

/// How a restart begins: by stopping the service, unless there is no config
/// to start it with.
pub fn restart_first(path: &str, exists: bool) -> (r: RestartNext)
    ensures
        match r {
            RestartNext::Run(step) => exists && step == TunnelStep::Stop,
            RestartNext::Over(Restart::NoConfig { path: p }) => !exists && p@ == path@,
            RestartNext::Over(_) => false,
        },
{
    if exists {
        RestartNext::Run(TunnelStep::Stop)
    } else {
        RestartNext::Over(Restart::NoConfig { path: owned(path) })
    }
}

/// How a restart goes on after a step. That there was no service to stop is
/// the normal case after a first fetch, and no failure; that the client's
/// program could not be run ends the restart.
pub fn restart_next(exe: &str, path: &str, step: TunnelStep, ran: Ran) -> (r: RestartNext)
    ensures
        match ran {
            Ran::NotRun(e) => r matches RestartNext::Over(Restart::NotRun { exe: x, error }) && x@
                == exe@ && error@ == e@,
            Ran::Ended { success, stderr } => match step {
                TunnelStep::Stop => r == RestartNext::Run(
                    TunnelStep::Start { was_running: success },
                ),
                TunnelStep::Start { was_running } => if success {
                    r == RestartNext::Over(Restart::Started { was_running })
                } else {
                    r matches RestartNext::Over(Restart::NotStarted { exe: x, path: p, stderr: w })
                        && x@ == exe@ && p@ == path@ && w@ == stderr@
                },
            },
        },
{
    match ran {
        Ran::NotRun(error) => RestartNext::Over(Restart::NotRun { exe: owned(exe), error }),
        Ran::Ended { success, stderr } => match step {
            TunnelStep::Stop => RestartNext::Run(TunnelStep::Start { was_running: success }),
            TunnelStep::Start { was_running } => if success {
                RestartNext::Over(Restart::Started { was_running })
            } else {
                RestartNext::Over(
                    Restart::NotStarted { exe: owned(exe), path: owned(path), stderr },
                )
            },
        },
    }
}

/// How stopping the tunnel went.
#[derive(Debug, Clone, PartialEq, Eq)]
pub enum Stop {
    /// The platform has no tunnel service.
    NoService,
    /// The client's program could not be run.
    NotRun { exe: String, error: String },
    /// The service did not stop.
    NotStopped { exe: String, stderr: String },
    Stopped,
}

/// How stopping the tunnel went, from what came of running the client's
/// program for it.
pub fn stop_done(exe: &str, ran: Ran) -> (r: Stop)
    ensures
        match ran {
            Ran::NotRun(e) => r matches Stop::NotRun { exe: x, error } && x@ == exe@ && error@ == e@,
            Ran::Ended { success, stderr } => if success {
                r == Stop::Stopped
            } else {
                r matches Stop::NotStopped { exe: x, stderr: w } && x@ == exe@ && w@ == stderr@
            },
        },
{
    match ran {
        Ran::NotRun(error) => Stop::NotRun { exe: owned(exe), error },
        Ran::Ended { success, stderr } => if success {
            Stop::Stopped
        } else {
            Stop::NotStopped { exe: owned(exe), stderr }
        },
    }
}

/// What is said of stopping the tunnel service.
pub fn stop_tunnel(done: Stop) -> (r: std::result::Result<(), String>)
    ensures
        match done {
            Stop::NoService => r is Ok,
            Stop::Stopped => r is Ok,
            Stop::NotRun { exe, error } => r matches Err(e) && e@ == exe@ + ": "@ + error@,
            Stop::NotStopped { exe, stderr } => r matches Err(e) && e@ == exe@
                + ": stopping the tunnel failed: "@ + trim(stderr@),
        },
{
    match done {
        Stop::NoService => Ok(()),
        Stop::Stopped => Ok(()),
        Stop::NotRun { exe, error } => Err(failed(exe.as_str(), error.as_str())),
        Stop::NotStopped { exe, stderr } => {
            let mut e: String = exe;
            e.append(": stopping the tunnel failed: ");
            e.append(trimmed(stderr.as_str()).as_str());
            Err(e)
        },
    }
}

// ---------------------------------------------------------------------------
// Laws
// ---------------------------------------------------------------------------

/// A tunnel that has a name stays in the store: the name of its file holds
/// no separator.
pub proof fn law_config_file_stays_in_store(name: Seq<char>)
    requires
        tunnel(name) is Ok,
    ensures
        !contains_char(tunnel(name)->Ok_0 + ".conf"@, '/'),
        !contains_char(tunnel(name)->Ok_0 + ".conf"@, '\\'),
        tunnel(name)->Ok_0.len() > 0,
{
    reveal_strlit(".conf");
    let t = tunnel(name)->Ok_0;
    let f = t + ".conf"@;
    assert forall|c: char| (c == '/' || c == '\\') implies !#[trigger] contains_char(f, c) by {
        if contains_char(f, c) {
            let k = choose|k: int| 0 <= k < f.len() && f[k] == c;
            if k < t.len() {
                assert(t[k] == c);
            } else {
                assert(f[k] == ".conf"@[k - t.len()]);
            }
        }
    }
}

/// What was installed is found unchanged when it is fetched again.
pub proof fn law_same_text_is_no_change(text: Seq<char>)
    ensures
        !is_change(Some(text), text),
        is_change(None, text),
{
}

/// The files of the store, by name, after one step of installing `text` as
/// the file `name`.
pub open spec fn install_step_done(
    store: Map<Seq<char>, Seq<char>>,
    name: Seq<char>,
    text: Seq<char>,
    step: InstallStep,
) -> Map<Seq<char>, Seq<char>> {
    match step {
        InstallStep::MakeFolder => store,
        InstallStep::WriteTemporary => store.insert(temporary_name(name), text),
        InstallStep::RenameOver => store.remove(temporary_name(name)).insert(
            name,
            store[temporary_name(name)],
        ),
        InstallStep::DropTemporary => store.remove(temporary_name(name)),
    }
}

/// The files of the store after the steps that succeeded, where `renamed`
/// says whether the one that moves the text over the config did.
pub open spec fn installed(
    store: Map<Seq<char>, Seq<char>>,
    name: Seq<char>,
    text: Seq<char>,
    renamed: bool,
    done: Option<(InstallStep, bool)>,
    changed: bool,
) -> Map<Seq<char>, Seq<char>>
    decreases steps_left(done),
{
    match next_step(changed, done) {
        None => store,
        Some(step) => {
            let ok = step == InstallStep::RenameOver ==> renamed;
            installed(
                if ok {
                    install_step_done(store, name, text, step)
                } else {
                    store
                },
                name,
                text,
                renamed,
                Some((step, ok)),
                changed,
            )
        },
    }
}

/// How many steps of an install can follow.
pub open spec fn steps_left(done: Option<(InstallStep, bool)>) -> nat {
    match done {
        None => 4,
        Some((InstallStep::MakeFolder, _)) => 3,
        Some((InstallStep::WriteTemporary, _)) => 2,
        Some((InstallStep::RenameOver, _)) => 1,
        Some((InstallStep::DropTemporary, _)) => 0,
    }
}

/// One whole install: where the store holds exactly this text already, no
/// file of it is touched. Otherwise the config of the tunnel has the text
/// afterwards and every other file is as it was, but for the one that the
/// text was written to first, which is gone; and where the text could not be
/// moved over the config, the config is as it was too. What was installed is
/// found unchanged when it is fetched again.
pub proof fn law_install_touches_one_config(
    store: Map<Seq<char>, Seq<char>>,
    tunnel_name: Seq<char>,
    text: Seq<char>,
)
    requires
        tunnel(tunnel_name) is Ok,
    ensures
        ({
            let name = tunnel(tunnel_name)->Ok_0 + ".conf"@;
            let there = if store.contains_key(name) {
                Some(store[name])
            } else {
                None
            };
            let changed = is_change(there, text);
            let after = installed(store, name, text, true, None, changed);
            &&& !changed ==> after == store
            &&& changed ==> after == store.insert(name, text).remove(temporary_name(name))
            &&& changed ==> installed(store, name, text, false, None, changed) == store.remove(
                temporary_name(name),
            )
            &&& after.contains_key(name)
            &&& after[name] == text
            &&& !is_change(Some(after[name]), text)
        }),
{
    reveal_strlit(".conf");
    reveal_strlit(".conf.tmp");
    let name = tunnel(tunnel_name)->Ok_0 + ".conf"@;
    let tmp = temporary_name(name);
    assert(name.last() == 'f');
    assert(tmp.last() == 'p');
    let there = if store.contains_key(name) {
        Some(store[name])
    } else {
        None
    };
    let changed = is_change(there, text);
    reveal_with_fuel(installed, 5);
    if changed {
        let written = store.insert(tmp, text);
        assert(written.remove(tmp).insert(name, text) =~= store.insert(name, text).remove(tmp));
        assert(written.remove(tmp) =~= store.remove(tmp));
    }
}

/// Nothing is installed that has no `AllowedIPs` line.
pub proof fn law_only_configs_are_installed(url: Seq<char>, reply: Reply)
    requires
        fetched(url, reply) is Ok,
    ensures
        has_allowed_ips_line(conf(fetched(url, reply)->Ok_0)),
{
}

/// A text names a tunnel if and only if something is left of it without the
/// white space round it, and that holds no separator and no two dots in a
/// row; the tunnel is what is left.
pub proof fn law_names_of_tunnels(a: Seq<char>, name: Seq<char>, b: Seq<char>)
    requires
        forall|k: int| 0 <= k < a.len() ==> is_white_space(#[trigger] a[k]),
        forall|k: int| 0 <= k < b.len() ==> is_white_space(#[trigger] b[k]),
        name.len() > 0 ==> !is_white_space(name[0]) && !is_white_space(name.last()),
    ensures
        tunnel(a + name + b) is Ok <==> {
            &&& name.len() > 0
            &&& forall|k: int| 0 <= k < name.len() ==> #[trigger] name[k] != '/' && name[k] != '\\'
            &&& forall|k: int|
                0 <= k < name.len() - 1 ==> !(#[trigger] name[k] == '.' && name[k + 1] == '.')
        },
        tunnel(a + name + b) matches Ok(t) ==> t == name,
{
    law_trim_takes_white_space(a, name, b);
    reveal_strlit("..");
    if contains(name, ".."@) {
        let i = choose|i: int| occurs_at(name, ".."@, i);
        let at = name.subrange(i, i + 2);
        assert(at[0] == '.' && at[1] == '.');
        assert(name[i] == '.' && name[i + 1] == '.');
    }
    if exists|k: int| 0 <= k < name.len() - 1 && #[trigger] name[k] == '.' && name[k + 1] == '.' {
        let k = choose|k: int|
            0 <= k < name.len() - 1 && #[trigger] name[k] == '.' && name[k + 1] == '.';
        assert(name.subrange(k, k + 2) =~= ".."@);
        assert(occurs_at(name, ".."@, k));
    }
}

/// The URL of a tunnel's config has one slash before its name, however many
/// the base ends with.
pub proof fn law_one_slash_before_the_name(base: Seq<char>, slashes: Seq<char>, name: Seq<char>)
    requires
        base.len() > 0 ==> base.last() != '/',
        forall|k: int| 0 <= k < slashes.len() ==> #[trigger] slashes[k] == '/',
    ensures
        config_url(base + slashes, name) == base + "/"@ + name + ".conf"@,
    decreases slashes.len(),
{
    if slashes.len() == 0 {
        assert(base + slashes =~= base);
    } else {
        let d = slashes.drop_last();
        assert forall|k: int| 0 <= k < d.len() implies #[trigger] d[k] == '/' by {
            assert(d[k] == slashes[k]);
        }
        law_one_slash_before_the_name(base, d, name);
        assert((base + slashes).last() == slashes[slashes.len() - 1]);
        assert((base + slashes).drop_last() =~= base + d);
    }
}

/// A config is installed if and only if a text came back, from a file or
/// with the status 200, and the text has an `AllowedIPs` line; it is
/// installed as it came. Every failure is told with the URL in front.
pub proof fn law_what_is_installed(url: Seq<char>, reply: Reply)
    ensures
        ({
            let came = match reply {
                Reply::Read(t) => Some(t@),
                Reply::Answered { status, body: Ok(t) } => if status == 200 {
                    Some(t@)
                } else {
                    None
                },
                _ => None,
            };
            match fetched(url, reply) {
                Ok(t) => came == Some(t) && values(conf(t)).len() > 0,
                Err(e) => url.is_prefix_of(e) && (came matches Some(t) ==> values(conf(t)).len()
                    == 0),
            }
        }),
{
    match reply_text(url, reply) {
        Ok(t) => {
            law_lines_with_a_value(conf(t));
        },
        Err(e) => {
            assert(e.take(url.len() as int) =~= url);
        },
    }
    if let Err(e) = fetched(url, reply) {
        assert(e.take(url.len() as int) =~= url);
    }
}

/// A text is written unless the very same text is there.
pub proof fn law_any_other_text_is_a_change(existing: Option<Seq<char>>, text: Seq<char>)
    ensures
        is_change(existing, text) <==> existing != Some(text),
{
}

/// The folder of the store is the one that is given, wherever that is; where
/// none is given, it is fixed on Windows and below the config home, or the
/// home, elsewhere. A variable that is set to nothing is as good as not set.
pub proof fn law_given_store_wins(platform: Platform, env: Environment)
    ensures
        ({
            let dir = store_place(platform, env);
            let set = env.conf_store matches Some(d) && d@.len() > 0;
            let xdg = env.xdg_config_home matches Some(x) && x@.len() > 0;
            &&& set ==> dir.base == env.conf_store->0@ && dir.parts.len() == 0
            &&& !set && platform == Platform::Windows ==> dir.base
                == "C:\\Program Files\\AmnesiaWG\\Data\\Configurations"@ && dir.parts.len() == 0
            &&& !set && platform == Platform::Unix && xdg ==> dir.base == env.xdg_config_home->0@
                && dir.parts == seq!["amneziawg"@, "Configurations"@]
            &&& !set && platform == Platform::Unix && !xdg && env.home is Some ==> dir.base
                == env.home->0@ && dir.parts == seq![
                ".config"@,
                "amneziawg"@,
                "Configurations"@,
            ]
            &&& !set && platform == Platform::Unix && !xdg && env.home is None ==> dir.base == "/"@
                && dir.parts == seq![".config"@, "amneziawg"@, "Configurations"@]
        }),
{
}

/// A restart is reported as a failure if and only if there was no config,
/// the client's program could not be run, or the service did not start.
pub proof fn law_failed_restarts_are_errors(r: Restart)
    ensures
        restart_text(r) is Err <==> r is NoConfig || r is NotRun || r is NotStarted,
        r matches Restart::NoConfig { path } ==> path@.is_prefix_of(restart_text(r)->Err_0),
        r matches Restart::NotRun { exe, .. } ==> exe@.is_prefix_of(restart_text(r)->Err_0),
        r matches Restart::NotStarted { exe, .. } ==> exe@.is_prefix_of(restart_text(r)->Err_0),
{
    match r {
        Restart::NoConfig { path } => {
            assert(restart_text(r)->Err_0.take(path@.len() as int) =~= path@);
        },
        Restart::NotRun { exe, .. } => {
            assert(restart_text(r)->Err_0.take(exe@.len() as int) =~= exe@);
        },
        Restart::NotStarted { exe, .. } => {
            assert(restart_text(r)->Err_0.take(exe@.len() as int) =~= exe@);
        },
        _ => {},
    }
}

} // verus!
