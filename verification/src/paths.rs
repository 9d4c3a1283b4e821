//! Where things live on disk, on each of the two kinds of platform.
//!
//! A place is given as a base and the names below it.

use vstd::prelude::*;

use crate::list::copied;
use crate::text::{chars_of, lemma_texts_push, owned, text_option, texts};

verus! {

/// The file name of the host list.
pub const STORE_FILE: &'static str = "hosts.json";

/// The two kinds of platform.
#[derive(Debug, Clone, Copy, PartialEq, Eq, Structural)]
pub enum Platform {
    Windows,
    Unix,
}

/// The environment variables that decide where things live.
#[derive(Debug, Clone, Default)]
pub struct Environment {
    /// `WIREUTILS_CONFIG_DIR`
    pub config_dir: Option<String>,
    /// `WIREUTILS_CONF_STORE`
    pub conf_store: Option<String>,
    /// `APPDATA`
    pub appdata: Option<String>,
    /// `USERPROFILE`
    pub userprofile: Option<String>,
    /// `XDG_CONFIG_HOME`
    pub xdg_config_home: Option<String>,
    /// `HOME`
    pub home: Option<String>,
}

/// A place on disk: a base, and the names to go down from it.
#[derive(Debug, Clone, PartialEq, Eq)]
pub struct Location {
    pub base: String,
    pub parts: Vec<String>,
}

/// A [`Location`] as character sequences.
#[verifier::ext_equal]
pub struct LocationView {
    pub base: Seq<char>,
    pub parts: Seq<Seq<char>>,
}

impl View for Location {
    type V = LocationView;

    open spec fn view(&self) -> LocationView {
        LocationView { base: self.base@, parts: texts(self.parts@) }
    }
}

/// A variable that is set to something.
pub open spec fn given(v: Option<String>) -> Option<Seq<char>> {
    match v {
        Some(s) => if s@.len() > 0 {
            Some(s@)
        } else {
            None
        },
        None => None,
    }
}

/// A place by its parts.
pub open spec fn place(base: Seq<char>, parts: Seq<Seq<char>>) -> LocationView {
    LocationView { base, parts }
}

/// The folder below the home directory.
pub open spec fn below_home(home: Option<String>) -> Option<LocationView> {
    match given(home) {
        Some(h) => Some(place(h, seq![".config"@, "wireutils"@])),
        None => None,
    }
}

/// The folder that holds the host list.
pub open spec fn config_place(platform: Platform, env: Environment) -> Option<LocationView> {
    match given(env.config_dir) {
        Some(d) => Some(place(d, Seq::empty())),
        None => match platform {
            Platform::Windows => match given(env.appdata) {
                Some(a) => Some(place(a, seq!["wireutils"@])),
                None => below_home(env.userprofile),
            },
            Platform::Unix => match given(env.xdg_config_home) {
                Some(x) => Some(place(x, seq!["wireutils"@])),
                None => below_home(env.home),
            },
        },
    }
}

/// The value of a variable that is set to something.
pub fn given_value(v: &Option<String>) -> (r: Option<String>)
    ensures
        text_option(r) == given(*v),
{
    match v {
        Some(s) => if s.as_str().is_empty() {
            None
        } else {
            Some(s.clone())
        },
        None => None,
    }
}

/// A place below a base.
pub fn below(base: String, names: &[&str]) -> (r: Location)
    ensures
        r@.base == base@,
        r@.parts == Seq::new(names@.len(), |i: int| names@[i]@),
{
    let mut parts: Vec<String> = Vec::new();
    let mut i: usize = 0;
    while i < names.len()
        invariant
            i <= names@.len(),
            parts@.len() == i,
            forall|k: int| 0 <= k < i ==> (#[trigger] parts@[k])@ == names@[k]@,
        decreases names@.len() - i,
    {
        parts.push(owned(names[i]));
        i = i + 1;
    }
    assert(texts(parts@) =~= Seq::new(names@.len(), |i: int| names@[i]@));
    Location { base, parts }
}

/// A place with one name more.
pub fn then_below(at: &Location, name: &str) -> (r: Location)
    ensures
        r@ == place(at@.base, at@.parts.push(name@)),
{
    let mut parts = copied(at.parts.as_slice());
    let n = owned(name);
    proof {
        lemma_texts_push(parts@, n);
    }
    parts.push(n);
    Location { base: at.base.clone(), parts }
}

fn wireutils_below(base: String) -> (r: Location)
    ensures
        r@ == place(base@, seq!["wireutils"@]),
{
    let r = below(base, &["wireutils"]);
    assert(r@.parts =~= seq!["wireutils"@]);
    r
}

fn wireutils_below_home(home: &Option<String>) -> (r: Option<Location>)
    ensures
        match r {
            Some(l) => below_home(*home) == Some(l@),
            None => below_home(*home) is None,
        },
{
    match given_value(home) {
        Some(h) => {
            let r = below(h, &[".config", "wireutils"]);
            assert(r@.parts =~= seq![".config"@, "wireutils"@]);
            Some(r)
        },
        None => None,
    }
}

/// The folder holding the host list. `WIREUTILS_CONFIG_DIR` wins when set.
pub fn config_dir(platform: Platform, env: &Environment) -> (r: Option<Location>)
    ensures
        match r {
            Some(l) => config_place(platform, *env) == Some(l@),
            None => config_place(platform, *env) is None,
        },
{
    if let Some(d) = given_value(&env.config_dir) {
        let r = below(d, &[]);
        assert(r@.parts =~= Seq::<Seq<char>>::empty());
        return Some(r);
    }
    match platform {
        Platform::Windows => match given_value(&env.appdata) {
            Some(a) => Some(wireutils_below(a)),
            None => wireutils_below_home(&env.userprofile),
        },
        Platform::Unix => match given_value(&env.xdg_config_home) {
            Some(x) => Some(wireutils_below(x)),
            None => wireutils_below_home(&env.home),
        },
    }
}

/// The full path of the host list.
pub fn store_path(platform: Platform, env: &Environment) -> (r: Option<Location>)
    ensures
        match (r, config_place(platform, *env)) {
            (Some(l), Some(d)) => l@ == place(d.base, d.parts.push("hosts.json"@)),
            (None, None) => true,
            _ => false,
        },
{
    match config_dir(platform, env) {
        Some(d) => Some(then_below(&d, STORE_FILE)),
        None => None,
    }
}

// ---------------------------------------------------------------------------
// Paths as text
// ---------------------------------------------------------------------------

/// True for a character that separates the names of a path.
pub open spec fn is_separator(platform: Platform, c: char) -> bool {
    c == '/' || (platform == Platform::Windows && c == '\\')
}

/// True for the bare name of a drive.
pub open spec fn is_drive(path: Seq<char>) -> bool {
    path.len() == 2 && path[1] == ':' && (('a' <= path[0] && path[0] <= 'z') || ('A' <= path[0]
        && path[0] <= 'Z'))
}

/// True when a separator goes between a path and a name below it.
pub open spec fn separates(platform: Platform, path: Seq<char>) -> bool {
    &&& path.len() > 0
    &&& !is_separator(platform, path.last())
    &&& !(platform == Platform::Windows && is_drive(path))
}

/// The separator that a platform writes.
pub open spec fn separator(platform: Platform) -> Seq<char> {
    match platform {
        Platform::Windows => "\\"@,
        Platform::Unix => "/"@,
    }
}

/// A path with names below it.
pub open spec fn path_text(
    platform: Platform,
    base: Seq<char>,
    parts: Seq<Seq<char>>,
) -> Seq<char>
    decreases parts.len(),
{
    if parts.len() == 0 {
        base
    } else {
        let done = path_text(platform, base, parts.drop_last());
        if separates(platform, done) {
            done + separator(platform) + parts.last()
        } else {
            done + parts.last()
        }
    }
}

fn needs_separator(platform: Platform, path: &str) -> (r: bool)
    ensures
        r == separates(platform, path@),
{
    let cs = chars_of(path);
    let n: usize = cs.len();
    if n == 0 {
        return false;
    }
    let last: char = cs[n - 1];
    match platform {
        Platform::Unix => last != '/',
        Platform::Windows => {
            let drive: bool = n == 2 && cs[1] == ':' && (('a' <= cs[0] && cs[0] <= 'z') || ('A'
                <= cs[0] && cs[0] <= 'Z'));
            last != '/' && last != '\\' && !drive
        },
    }
}

impl Location {
    /// The path, as the platform writes it.
    pub fn text(&self, platform: Platform) -> (r: String)
        ensures
            r@ == path_text(platform, self@.base, self@.parts),
    {
        let mut s: String = self.base.clone();
        let mut i: usize = 0;
        let ghost all = self@.parts;
        while i < self.parts.len()
            invariant
                all == self@.parts,
                i <= self.parts@.len() == all.len(),
                s@ == path_text(platform, self@.base, all.take(i as int)),
            decreases self.parts@.len() - i,
        {
            proof {
                assert(all.take(i + 1).drop_last() =~= all.take(i as int));
                assert(all.take(i + 1).last() == self.parts@[i as int]@);
            }
            if needs_separator(platform, s.as_str()) {
                match platform {
                    Platform::Windows => s.append("\\"),
                    Platform::Unix => s.append("/"),
                }
            }
            s.append(self.parts[i].as_str());
            i = i + 1;
        }
        assert(all.take(all.len() as int) =~= all);
        s
    }
}

// ---------------------------------------------------------------------------
// Laws
// ---------------------------------------------------------------------------

/// A variable counts if and only if it is set to something.
pub proof fn law_empty_variable_is_not_given(v: Option<String>)
    ensures
        given(v) is Some <==> v is Some && v->0@.len() > 0,
        given(v) is Some ==> given(v)->0 == v->0@,
{
}

/// The folder of the host list is the one that is given, wherever that is.
/// Where none is given, it is below the config home of the platform, and
/// failing that below the home; without either there is none.
pub proof fn law_given_folder_wins(platform: Platform, env: Environment)
    ensures
        ({
            let dir = config_place(platform, env);
            let first = match platform {
                Platform::Windows => env.appdata,
                Platform::Unix => env.xdg_config_home,
            };
            let second = match platform {
                Platform::Windows => env.userprofile,
                Platform::Unix => env.home,
            };
            let set = |v: Option<String>| v matches Some(s) && s@.len() > 0;
            &&& set(env.config_dir) ==> dir == Some(place(env.config_dir->0@, Seq::empty()))
            &&& !set(env.config_dir) && set(first) ==> dir == Some(
                place(first->0@, seq!["wireutils"@]),
            )
            &&& !set(env.config_dir) && !set(first) && set(second) ==> dir == Some(
                place(second->0@, seq![".config"@, "wireutils"@]),
            )
            &&& dir is None <==> !set(env.config_dir) && !set(first) && !set(second)
        }),
{
}

/// A path is written name by name: a separator goes before a name, unless
/// the path so far is empty, ends with one, or is the bare name of a drive.
pub proof fn law_one_separator_between_names(
    platform: Platform,
    base: Seq<char>,
    parts: Seq<Seq<char>>,
    name: Seq<char>,
)
    ensures
        path_text(platform, base, Seq::empty()) == base,
        ({
            let done = path_text(platform, base, parts);
            let longer = path_text(platform, base, parts.push(name));
            &&& platform == Platform::Unix && done.len() > 0 && done.last() != '/' ==> longer
                == done + seq!['/'] + name
            &&& platform == Platform::Unix && (done.len() == 0 || done.last() == '/') ==> longer
                == done + name
            &&& platform == Platform::Windows && done.len() > 0 && done.last() != '/'
                && done.last() != '\\' && !(done.len() == 2 && done[1] == ':') ==> longer == done
                + seq!['\\'] + name
            &&& platform == Platform::Windows && done.len() == 2 && done[1] == ':' && ('A'
                <= done[0] && done[0] <= 'Z' || 'a' <= done[0] && done[0] <= 'z') ==> longer == done
                + name
            &&& platform == Platform::Windows && (done.len() == 0 || done.last() == '/'
                || done.last() == '\\') ==> longer == done + name
        }),
{
    assert(parts.push(name).drop_last() =~= parts);
    assert(parts.push(name).last() == name);
    reveal_strlit("/");
    reveal_strlit("\\");
    assert("/"@ =~= seq!['/']);
    assert("\\"@ =~= seq!['\\']);
}

} // verus!
