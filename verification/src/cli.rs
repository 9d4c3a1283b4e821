//! The command line: what is asked for, what it does to the list, and the
//! lines that are printed.
//!
//! Every command prints what it did in plain lines. Files are read and
//! written, names looked up and lines printed outside.

use vstd::prelude::*;

use crate::address::is_ip_or_network;
use crate::apply::{count, law_counts_are_over_all_files, ConfResult, Kind, Report};
use crate::hosts::{
    distinct_targets, group_removed, has_target, host_added, host_index, host_label, host_ref_views,
    host_views, law_chosen_hosts, lemma_has_target, lemma_host_index, members, renamed_host,
    unresolved_hosts, Host, HostStore, HostView, StoreView,
};
use crate::import::{apply_import, as_groups, imported_into, newly_imported, Imported};
use crate::list::{lemma_without, with_text};
use crate::resolve::{Outcome, OutcomeView};
use crate::templates::{
    found, group_ensured, law_template_becomes_a_group, lemma_template_index, new_domains,
    template_applied, template_index, template_ref_views, Catalog, DEFAULT_CATALOG_URL, Template,
    TemplateView,
};
use crate::text::{
    cat2, cat3, cat4, cat5, contains, count_text, decimal, decimal_text, has_member, join, joined,
    law_contains_is_in_the_middle, lemma_texts_push, owned, same, text_option, text_result, texts,
    trim,
};

verus! {

/// What is printed when help is asked for.
pub const USAGE: &'static str = "\
wireutils — one host list, many WireGuard configs

Usage:
  wireutils <command> [options]

Commands:
  init                     create hosts.json if it is missing
  set-conf-dir <dir>       set the folder of .conf files
  show                     print the config dir and the host list
  add <target> [-g GROUP]  add a host by domain or IP (repeat -g for more)
  rm <target>              remove a host
  rename <old> <new>       rename a host
  group add <name>         create a group
  group rm <name>          remove a group (its hosts stay in the list)
  group apply <name>       add a template's hosts as a group
  resolve [--force]        fill in addresses for every domain
  apply [--dry-run]        write the list into every .conf in the folder
  templates [QUERY]        list the catalog, or search it
  templates-update [URL]   fetch a newer catalog from the internet
  import <file.conf>       read a base config's AllowedIPs into the host list
  gui                      open the window (only when built with --features gui)

Options:
  -g, --group <name>       group to put a newly added host in
  --force                  re-resolve hosts that already have addresses
  --dry-run                show what apply would write, change nothing
  -h, --help               this text
";

// ---------------------------------------------------------------------------
// What is asked for
// ---------------------------------------------------------------------------

/// True for an argument that says that a group follows.
pub open spec fn is_group_flag(arg: Seq<char>) -> bool {
    arg == "-g"@ || arg == "--group"@
}

/// The groups that arguments name with `-g` or `--group`, and the arguments
/// that are left. A flag with nothing behind it is an argument like others.
pub open spec fn split_groups(args: Seq<Seq<char>>) -> (Seq<Seq<char>>, Seq<Seq<char>>)
    decreases args.len(),
{
    if args.len() == 0 {
        (Seq::empty(), Seq::empty())
    } else if is_group_flag(args[0]) && args.len() > 1 {
        let (groups, rest) = split_groups(args.skip(2));
        (seq![args[1]] + groups, rest)
    } else {
        let (groups, rest) = split_groups(args.skip(1));
        (groups, seq![args[0]] + rest)
    }
}

/// Pull `-g` and `--group` values out of an argument list.
pub fn take_groups(args: &[String]) -> (r: (Vec<String>, Vec<String>))
    ensures
        (texts(r.0@), texts(r.1@)) == split_groups(texts(args@)),
{
    let mut groups: Vec<String> = Vec::new();
    let mut rest: Vec<String> = Vec::new();
    let mut i: usize = 0;
    let total: usize = args.len();
    let ghost all = texts(args@);
    let ghost whole = split_groups(all);
    proof {
        assert(all.skip(0) =~= all);
        assert(texts(groups@) + whole.0 =~= whole.0);
        assert(texts(rest@) + whole.1 =~= whole.1);
    }
    while i < total
        invariant
            all == texts(args@),
            total == args@.len(),
            i <= total,
            whole == split_groups(all),
            texts(groups@) + split_groups(all.skip(i as int)).0 == whole.0,
            texts(rest@) + split_groups(all.skip(i as int)).1 == whole.1,
        decreases total - i,
    {
        let ghost tail = all.skip(i as int);
        let ghost g = groups@;
        let ghost r = rest@;
        assert(tail[0] == args@[i as int]@);
        let flag: bool = same(args[i].as_str(), "-g") || same(args[i].as_str(), "--group");
        if flag && total - i > 1 {
            let value = args[i + 1].clone();
            proof {
                assert(tail[1] == value@);
                assert(tail.skip(2) =~= all.skip(i + 2));
                lemma_texts_push(g, value);
                assert(texts(g).push(value@) + split_groups(all.skip(i + 2)).0 =~= texts(g)
                    + split_groups(tail).0);
            }
            groups.push(value);
            i = i + 2;
        } else {
            let arg = args[i].clone();
            proof {
                assert(tail.skip(1) =~= all.skip(i + 1));
                lemma_texts_push(r, arg);
                assert(texts(r).push(arg@) + split_groups(all.skip(i + 1)).1 =~= texts(r)
                    + split_groups(tail).1);
            }
            rest.push(arg);
            i = i + 1;
        }
    }
    proof {
        assert(all.skip(i as int) =~= Seq::<Seq<char>>::empty());
        assert(texts(groups@) + Seq::<Seq<char>>::empty() =~= texts(groups@));
        assert(texts(rest@) + Seq::<Seq<char>>::empty() =~= texts(rest@));
    }
    (groups, rest)
}

/// A command.
#[derive(Debug, PartialEq, Eq)]
pub enum Command {
    Init,
    SetConfDir { dir: String },
    Show,
    Edit(Edit),
    Resolve { force: bool },
    Apply { dry_run: bool },
    Import { file: String, group: Option<String> },
    Templates { query: String },
    TemplatesUpdate { url: String },
}

/// A command that changes the list and nothing else.
#[derive(Debug, PartialEq, Eq)]
pub enum Edit {
    Add { target: String, groups: Vec<String> },
    Remove { target: String },
    Rename { old: String, new: String },
    GroupAdd { name: String },
    GroupRemove { name: String },
    GroupApply { name: String },
}

/// A [`Command`] as character sequences.
pub enum CommandView {
    Init,
    SetConfDir { dir: Seq<char> },
    Show,
    Edit(EditView),
    Resolve { force: bool },
    Apply { dry_run: bool },
    Import { file: Seq<char>, group: Option<Seq<char>> },
    Templates { query: Seq<char> },
    TemplatesUpdate { url: Seq<char> },
}

/// An [`Edit`] as character sequences.
pub enum EditView {
    Add { target: Seq<char>, groups: Seq<Seq<char>> },
    Remove { target: Seq<char> },
    Rename { old: Seq<char>, new: Seq<char> },
    GroupAdd { name: Seq<char> },
    GroupRemove { name: Seq<char> },
    GroupApply { name: Seq<char> },
}

impl View for Edit {
    type V = EditView;

    open spec fn view(&self) -> EditView {
        match self {
            Edit::Add { target, groups } => EditView::Add {
                target: target@,
                groups: texts(groups@),
            },
            Edit::Remove { target } => EditView::Remove { target: target@ },
            Edit::Rename { old, new } => EditView::Rename { old: old@, new: new@ },
            Edit::GroupAdd { name } => EditView::GroupAdd { name: name@ },
            Edit::GroupRemove { name } => EditView::GroupRemove { name: name@ },
            Edit::GroupApply { name } => EditView::GroupApply { name: name@ },
        }
    }
}

impl View for Command {
    type V = CommandView;

    open spec fn view(&self) -> CommandView {
        match self {
            Command::Init => CommandView::Init,
            Command::SetConfDir { dir } => CommandView::SetConfDir { dir: dir@ },
            Command::Show => CommandView::Show,
            Command::Edit(e) => CommandView::Edit(e@),
            Command::Resolve { force } => CommandView::Resolve { force: *force },
            Command::Apply { dry_run } => CommandView::Apply { dry_run: *dry_run },
            Command::Import { file, group } => CommandView::Import {
                file: file@,
                group: text_option(*group),
            },
            Command::Templates { query } => CommandView::Templates { query: query@ },
            Command::TemplatesUpdate { url } => CommandView::TemplatesUpdate { url: url@ },
        }
    }
}

/// What `group` asks for.
pub open spec fn group_command(rest: Seq<Seq<char>>) -> Result<EditView, Seq<char>> {
    if rest.len() == 0 {
        Err("group needs add/rm/apply"@)
    } else if rest.len() == 1 {
        Err("group needs a name"@)
    } else if rest[0] == "add"@ {
        Ok(EditView::GroupAdd { name: rest[1] })
    } else if rest[0] == "rm"@ {
        Ok(EditView::GroupRemove { name: rest[1] })
    } else if rest[0] == "apply"@ {
        Ok(EditView::GroupApply { name: rest[1] })
    } else {
        Err("unknown group subcommand "@ + rest[0])
    }
}

/// What a command and the arguments behind it ask for, or what is missing.
pub open spec fn asked(
    name: Seq<char>,
    groups: Seq<Seq<char>>,
    rest: Seq<Seq<char>>,
) -> Result<CommandView, Seq<char>> {
    if name == "init"@ {
        Ok(CommandView::Init)
    } else if name == "set-conf-dir"@ {
        if rest.len() == 0 {
            Err("set-conf-dir needs a folder"@)
        } else {
            Ok(CommandView::SetConfDir { dir: rest[0] })
        }
    } else if name == "show"@ {
        Ok(CommandView::Show)
    } else if name == "add"@ {
        if rest.len() == 0 {
            Err("add needs a domain or IP"@)
        } else {
            Ok(CommandView::Edit(EditView::Add { target: rest[0], groups }))
        }
    } else if name == "rm"@ {
        if rest.len() == 0 {
            Err("rm needs a domain or IP"@)
        } else {
            Ok(CommandView::Edit(EditView::Remove { target: rest[0] }))
        }
    } else if name == "rename"@ {
        if rest.len() == 0 {
            Err("rename needs the old target"@)
        } else if rest.len() == 1 {
            Err("rename needs the new target"@)
        } else {
            Ok(CommandView::Edit(EditView::Rename { old: rest[0], new: rest[1] }))
        }
    } else if name == "group"@ {
        match group_command(rest) {
            Ok(e) => Ok(CommandView::Edit(e)),
            Err(m) => Err(m),
        }
    } else if name == "resolve"@ {
        Ok(CommandView::Resolve { force: rest.contains("--force"@) })
    } else if name == "apply"@ {
        Ok(CommandView::Apply { dry_run: rest.contains("--dry-run"@) })
    } else if name == "import"@ {
        if rest.len() == 0 {
            Err("import needs the path to a .conf file"@)
        } else {
            Ok(
                CommandView::Import {
                    file: rest[0],
                    group: if groups.len() > 0 {
                        Some(groups[0])
                    } else {
                        None
                    },
                },
            )
        }
    } else if name == "templates"@ {
        Ok(
            CommandView::Templates {
                query: if rest.len() > 0 {
                    rest[0]
                } else {
                    ""@
                },
            },
        )
    } else if name == "templates-update"@ {
        Ok(
            CommandView::TemplatesUpdate {
                url: if rest.len() > 0 {
                    rest[0]
                } else {
                    DEFAULT_CATALOG_URL@
                },
            },
        )
    } else {
        Err("unknown command "@ + name + "\n\n"@ + USAGE@)
    }
}

/// True for a command or a message that is the one asked for.
pub open spec fn is_asked(
    r: Result<Command, String>,
    asked: Result<CommandView, Seq<char>>,
) -> bool {
    match (r, asked) {
        (Ok(c), Ok(v)) => c@ == v,
        (Err(e), Err(m)) => e@ == m,
        _ => false,
    }
}

fn parse_group(rest: &[String]) -> (r: Result<Edit, String>)
    ensures
        match (r, group_command(texts(rest@))) {
            (Ok(e), Ok(v)) => e@ == v,
            (Err(e), Err(m)) => e@ == m,
            _ => false,
        },
{
    if rest.len() == 0 {
        return Err(owned("group needs add/rm/apply"));
    }
    if rest.len() == 1 {
        return Err(owned("group needs a name"));
    }
    let sub = rest[0].as_str();
    let name = rest[1].clone();
    if same(sub, "add") {
        Ok(Edit::GroupAdd { name })
    } else if same(sub, "rm") {
        Ok(Edit::GroupRemove { name })
    } else if same(sub, "apply") {
        Ok(Edit::GroupApply { name })
    } else {
        Err(cat2("unknown group subcommand ", sub))
    }
}

/// What a command and the arguments behind it ask for, or what is missing.
pub fn parse(name: &str, args: &[String]) -> (r: Result<Command, String>)
    ensures
        ({
            let (groups, rest) = split_groups(texts(args@));
            is_asked(r, asked(name@, groups, rest))
        }),
{
    let (groups, rest) = take_groups(args);
    let n: usize = rest.len();
    assert(texts(rest@).len() == n);
    assert(texts(groups@).len() == groups@.len());
    if same(name, "init") {
        Ok(Command::Init)
    } else if same(name, "set-conf-dir") {
        if n == 0 {
            Err(owned("set-conf-dir needs a folder"))
        } else {
            Ok(Command::SetConfDir { dir: rest[0].clone() })
        }
    } else if same(name, "show") {
        Ok(Command::Show)
    } else if same(name, "add") {
        if n == 0 {
            Err(owned("add needs a domain or IP"))
        } else {
            Ok(Command::Edit(Edit::Add { target: rest[0].clone(), groups }))
        }
    } else if same(name, "rm") {
        if n == 0 {
            Err(owned("rm needs a domain or IP"))
        } else {
            Ok(Command::Edit(Edit::Remove { target: rest[0].clone() }))
        }
    } else if same(name, "rename") {
        if n == 0 {
            Err(owned("rename needs the old target"))
        } else if n == 1 {
            Err(owned("rename needs the new target"))
        } else {
            Ok(Command::Edit(Edit::Rename { old: rest[0].clone(), new: rest[1].clone() }))
        }
    } else if same(name, "group") {
        match parse_group(rest.as_slice()) {
            Ok(e) => Ok(Command::Edit(e)),
            Err(e) => Err(e),
        }
    } else if same(name, "resolve") {
        Ok(Command::Resolve { force: has_member(rest.as_slice(), "--force") })
    } else if same(name, "apply") {
        Ok(Command::Apply { dry_run: has_member(rest.as_slice(), "--dry-run") })
    } else if same(name, "import") {
        if n == 0 {
            Err(owned("import needs the path to a .conf file"))
        } else {
            let group: Option<String> = if groups.len() > 0 {
                Some(groups[0].clone())
            } else {
                None
            };
            Ok(Command::Import { file: rest[0].clone(), group })
        }
    } else if same(name, "templates") {
        let query: String = if n > 0 {
            rest[0].clone()
        } else {
            owned("")
        };
        Ok(Command::Templates { query })
    } else if same(name, "templates-update") {
        let url: String = if n > 0 {
            rest[0].clone()
        } else {
            owned(DEFAULT_CATALOG_URL)
        };
        Ok(Command::TemplatesUpdate { url })
    } else {
        Err(cat4("unknown command ", name, "\n\n", USAGE))
    }
}

/// True when the help text is asked for.
pub fn wants_help(args: &[String]) -> (r: bool)
    ensures
        r == (args@.len() == 0 || args@[0]@ == "-h"@ || args@[0]@ == "--help"@),
{
    args.len() == 0 || same(args[0].as_str(), "-h") || same(args[0].as_str(), "--help")
}

/// The folder of `.conf` files: an option wins, and otherwise it is the one
/// the list knows.
pub fn conf_dir(store: &HostStore, opt: Option<String>) -> (r: Result<String, String>)
    ensures
        text_result(r) == (match (opt, store@.conf_dir) {
            (Some(d), _) => Ok(d@),
            (None, Some(d)) => Ok(d),
            (None, None) => Err(
                "no conf folder set — run `wireutils set-conf-dir <dir>`"@,
            ),
        }),
{
    if let Some(d) = opt {
        return Ok(d);
    }
    match &store.conf_dir {
        Some(d) => Ok(d.clone()),
        None => Err(owned("no conf folder set — run `wireutils set-conf-dir <dir>`")),
    }
}

// ---------------------------------------------------------------------------
// Changing the list
// ---------------------------------------------------------------------------

/// What an edit comes to: the list after it and the lines to print, or the
/// words of the refusal.
pub open spec fn edited(
    s: StoreView,
    e: EditView,
    catalog: Seq<TemplateView>,
) -> Result<(StoreView, Seq<Seq<char>>), Seq<char>> {
    match e {
        EditView::Add { target, groups } => Ok(
            (
                host_added(s, target, groups),
                seq!["added "@ + target] + if groups.len() > 0 {
                    seq!["group(s): "@ + join(groups, ", "@)]
                } else {
                    Seq::empty()
                },
            ),
        ),
        EditView::Remove { target } => if has_target(s.hosts, target) {
            Ok(
                (
                    StoreView { hosts: s.hosts.remove(host_index(s.hosts, target) as int), ..s },
                    seq!["removed "@ + target],
                ),
            )
        } else {
            Err("not found: "@ + target)
        },
        EditView::Rename { old, new } => {
            let i = host_index(s.hosts, old) as int;
            if has_target(s.hosts, trim(new)) {
                Err(trim(new) + " is already in the list"@)
            } else if !has_target(s.hosts, old) {
                Err("not found: "@ + old)
            } else {
                Ok(
                    (
                        StoreView {
                            hosts: s.hosts.update(i, renamed_host(s.hosts[i], trim(new))),
                            ..s
                        },
                        seq!["renamed "@ + old + " to "@ + new],
                    ),
                )
            }
        },
        EditView::GroupAdd { name } => Ok(
            (
                StoreView { groups: with_text(s.groups, name), ..s },
                seq!["group "@ + name + " added"@],
            ),
        ),
        EditView::GroupRemove { name } => if s.groups.contains(name) {
            Ok(
                (
                    group_removed(s, name),
                    seq![
                        "group "@ + name + " removed; "@ + decimal(members(s.hosts, name).len())
                            + " host(s) kept in the list"@,
                    ],
                ),
            )
        } else {
            Err("not found: "@ + ("group "@ + name))
        },
        EditView::GroupApply { name } => {
            let i = template_index(catalog, name) as int;
            if i < catalog.len() {
                let t = catalog[i];
                Ok(
                    (
                        template_applied(s, t),
                        seq![
                            "template "@ + name + ": "@ + decimal(
                                new_domains(group_ensured(s, t.name), t.domains, t.name),
                            ) + " host(s) added"@,
                        ],
                    ),
                )
            } else {
                Err("no template named "@ + name)
            }
        },
    }
}

fn line(a: String) -> (r: Vec<String>)
    ensures
        r@.len() == 1,
        texts(r@) == seq![a@],
{
    let mut v: Vec<String> = Vec::new();
    v.push(a);
    assert(texts(v@) =~= seq![a@]);
    v
}

fn push_line(lines: &mut Vec<String>, a: String)
    ensures
        texts(final(lines)@) == texts(old(lines)@).push(a@),
{
    proof {
        lemma_texts_push(lines@, a);
    }
    lines.push(a);
}

/// Make a change to the list. Gives the lines to print, or the words of the
/// refusal, with the list as it was.
pub fn edit(store: &mut HostStore, e: &Edit, catalog: &Catalog) -> (r: Result<Vec<String>, String>)
    ensures
        match (r, edited(old(store)@, e@, catalog@.templates)) {
            (Ok(lines), Ok((after, said))) => final(store)@ == after && texts(lines@) == said,
            (Err(m), Err(said)) => *final(store) == *old(store) && m@ == said,
            _ => false,
        },
{
    match e {
        Edit::Add { target, groups } => {
            let ghost before = store@;
            {
                let _added = store.add_host(target.as_str(), groups.as_slice());
            }
            proof {
                let new = host_added(before, target@, texts(groups@));
                let at = host_index(before.hosts, trim(target@)) as int;
                lemma_host_index(before.hosts, trim(target@));
                assert(new.hosts.update(at, new.hosts[at]) =~= new.hosts);
                assert(texts(groups@).len() == groups@.len());
            }
            let mut lines = line(cat2("added ", target.as_str()));
            if groups.len() > 0 {
                push_line(
                    &mut lines,
                    cat2("group(s): ", joined(groups.as_slice(), ", ").as_str()),
                );
            }
            assert(texts(lines@) =~= edited(before, e@, catalog@.templates)->Ok_0.1);
            Ok(lines)
        },
        Edit::Remove { target } => match store.remove_host(target.as_str()) {
            Ok(_) => Ok(line(cat2("removed ", target.as_str()))),
            Err(m) => Err(m.to_string()),
        },
        Edit::Rename { old, new } => match store.rename_host(old.as_str(), new.as_str()) {
            Ok(_) => Ok(line(cat4("renamed ", old.as_str(), " to ", new.as_str()))),
            Err(m) => Err(m.to_string()),
        },
        Edit::GroupAdd { name } => {
            store.ensure_group(name.as_str());
            Ok(line(cat3("group ", name.as_str(), " added")))
        },
        Edit::GroupRemove { name } => match store.remove_group(name.as_str()) {
            Ok(n) => Ok(
                line(
                    cat5(
                        "group ",
                        name.as_str(),
                        " removed; ",
                        count_text(n).as_str(),
                        " host(s) kept in the list",
                    ),
                ),
            ),
            Err(m) => Err(m.to_string()),
        },
        Edit::GroupApply { name } => match catalog.apply(store, name.as_str()) {
            Ok(n) => Ok(
                line(
                    cat5(
                        "template ",
                        name.as_str(),
                        ": ",
                        count_text(n).as_str(),
                        " host(s) added",
                    ),
                ),
            ),
            Err(m) => Err(m),
        },
    }
}

// ---------------------------------------------------------------------------
// Showing the list
// ---------------------------------------------------------------------------

/// The line of one host.
pub open spec fn host_line(h: HostView) -> Seq<char> {
    "  "@ + host_label(h) + (if h.groups.len() > 0 {
        "  ["@ + join(h.groups, ", "@) + "]"@
    } else {
        ""@
    }) + (if h.ips.len() > 0 {
        "  "@ + join(h.ips, " "@)
    } else {
        "  (unresolved)"@
    })
}

/// The lines that show the list.
pub open spec fn shown(s: StoreView, path: Seq<char>) -> Seq<Seq<char>> {
    let top = seq![
        "store:      "@ + path,
        "conf dir:   "@ + (match s.conf_dir {
            Some(d) => d,
            None => "(not set)"@,
        }),
    ];
    let hosts = if s.hosts.len() == 0 {
        seq!["hosts:      (none)"@]
    } else {
        seq!["hosts:      "@ + decimal(s.hosts.len())] + Seq::new(
            s.hosts.len(),
            |i: int| host_line(s.hosts[i]),
        )
    };
    let groups = if s.groups.len() > 0 {
        seq!["groups:     "@ + join(s.groups, ", "@)]
    } else {
        Seq::empty()
    };
    top + hosts + groups
}

fn show_host(h: &Host) -> (r: String)
    ensures
        r@ == host_line(h@),
{
    assert(texts(h.groups@).len() == h.groups@.len());
    assert(texts(h.ips@).len() == h.ips@.len());
    let groups: String = if h.groups.len() > 0 {
        cat3("  [", joined(h.groups.as_slice(), ", ").as_str(), "]")
    } else {
        owned("")
    };
    let ips: String = if h.ips.len() > 0 {
        cat2("  ", joined(h.ips.as_slice(), " ").as_str())
    } else {
        owned("  (unresolved)")
    };
    cat4("  ", h.label(), groups.as_str(), ips.as_str())
}

/// The lines that show the list, which is kept at `path`.
pub fn show_lines(store: &HostStore, path: &str) -> (r: Vec<String>)
    ensures
        texts(r@) == shown(store@, path@),
{
    let mut out = line(cat2("store:      ", path));
    let dir: String = match &store.conf_dir {
        Some(d) => d.clone(),
        None => owned("(not set)"),
    };
    push_line(&mut out, cat2("conf dir:   ", dir.as_str()));
    if store.hosts.len() == 0 {
        push_line(&mut out, owned("hosts:      (none)"));
    } else {
        push_line(&mut out, cat2("hosts:      ", count_text(store.hosts.len()).as_str()));
        let ghost head = texts(out@);
        let mut i: usize = 0;
        let ghost all = store@.hosts;
        assert(head + Seq::new(0, |k: int| host_line(all[k])) =~= head);
        while i < store.hosts.len()
            invariant
                all == store@.hosts,
                i <= store.hosts@.len() == all.len(),
                texts(out@) == head + Seq::new(i as nat, |k: int| host_line(all[k])),
            decreases store.hosts@.len() - i,
        {
            push_line(&mut out, show_host(&store.hosts[i]));
            i = i + 1;
            assert(texts(out@) =~= head + Seq::new(i as nat, |k: int| host_line(all[k])));
        }
    }
    assert(texts(store.groups@).len() == store.groups@.len());
    if store.groups.len() > 0 {
        push_line(
            &mut out,
            cat2("groups:     ", joined(store.groups.as_slice(), ", ").as_str()),
        );
    }
    assert(texts(out@) =~= shown(store@, path@));
    out
}

/// What is said of making the list file: it is there already, or was made.
pub fn init_line(path: &str, existed: bool) -> (r: String)
    ensures
        r@ == (if existed {
            path@ + " already exists"@
        } else {
            "created "@ + path@
        }),
{
    if existed {
        cat2(path, " already exists")
    } else {
        cat2("created ", path)
    }
}

/// Remember the folder of `.conf` files, unless it is no folder.
pub fn set_conf_dir(store: &mut HostStore, dir: &str, is_dir: bool) -> (r: Result<(), String>)
    ensures
        match r {
            Ok(_) => is_dir && final(store)@ == (StoreView {
                conf_dir: Some(dir@),
                ..old(store)@
            }),
            Err(e) => !is_dir && e@ == dir@ + " is not a folder"@ && *final(store) == *old(store),
        },
{
    if !is_dir {
        return Err(cat2(dir, " is not a folder"));
    }
    store.conf_dir = Some(owned(dir));
    Ok(())
}

/// The lines about the folder that was set.
pub fn conf_dir_lines(dir: &str, found: usize) -> (r: Vec<String>)
    ensures
        texts(r@) == seq![
            "conf folder: "@ + dir@,
            decimal(found as nat) + " .conf file(s) found"@,
        ],
{
    let mut out = line(cat2("conf folder: ", dir));
    push_line(&mut out, cat2(count_text(found).as_str(), " .conf file(s) found"));
    assert(texts(out@) =~= seq![
        "conf folder: "@ + dir@,
        decimal(found as nat) + " .conf file(s) found"@,
    ]);
    out
}

// ---------------------------------------------------------------------------
// Resolving
// ---------------------------------------------------------------------------

/// The line about one host, if there is one.
pub open spec fn outcome_line(target: Seq<char>, o: OutcomeView) -> Seq<Seq<char>> {
    match o {
        OutcomeView::Literal => Seq::empty(),
        OutcomeView::Fresh => seq![target + ": cached"@],
        OutcomeView::Resolved(ips) => seq![target + ": "@ + decimal(ips.len()) + " address(es)"@],
        OutcomeView::Failed(e) => seq![target + ": FAILED — "@ + e],
    }
}

/// The lines about a pass over the list.
pub open spec fn outcome_lines(outcomes: Seq<(String, Outcome)>) -> Seq<Seq<char>>
    decreases outcomes.len(),
{
    if outcomes.len() == 0 {
        Seq::empty()
    } else {
        outcome_lines(outcomes.drop_last()) + outcome_line(
            outcomes.last().0@,
            outcomes.last().1@,
        )
    }
}

/// The lines about a pass over the list.
pub fn resolve_lines(outcomes: &Vec<(String, Outcome)>) -> (r: Vec<String>)
    ensures
        texts(r@) == outcome_lines(outcomes@),
{
    let mut out: Vec<String> = Vec::new();
    let mut i: usize = 0;
    assert(texts(out@) =~= Seq::<Seq<char>>::empty());
    while i < outcomes.len()
        invariant
            i <= outcomes@.len(),
            texts(out@) == outcome_lines(outcomes@.take(i as int)),
        decreases outcomes@.len() - i,
    {
        let ghost done = texts(out@);
        let target = outcomes[i].0.as_str();
        proof {
            assert(outcomes@.take(i + 1).drop_last() =~= outcomes@.take(i as int));
            assert(outcomes@.take(i + 1).last() == outcomes@[i as int]);
        }
        match &outcomes[i].1 {
            Outcome::Literal => {},
            Outcome::Fresh => {
                push_line(&mut out, cat2(target, ": cached"));
            },
            Outcome::Resolved(ips) => {
                assert(texts(ips@).len() == ips@.len());
                push_line(
                    &mut out,
                    cat4(target, ": ", count_text(ips.len()).as_str(), " address(es)"),
                );
            },
            Outcome::Failed(e) => {
                push_line(&mut out, cat3(target, ": FAILED — ", e.as_str()));
            },
        }
        assert(texts(out@) =~= done + outcome_line(
            outcomes@[i as int].0@,
            outcomes@[i as int].1@,
        ));
        i = i + 1;
    }
    assert(outcomes@.take(outcomes@.len() as int) =~= outcomes@);
    out
}

/// True when some host without addresses carries an error.
pub open spec fn some_failed(hosts: Seq<HostView>) -> bool {
    exists|i: int|
        0 <= i < unresolved_hosts(hosts).len() && (#[trigger] unresolved_hosts(
            hosts,
        )[i]).error is Some
}

/// How a pass over the list ends: a host that could not be resolved is a
/// failure, since the configs would be written without it.
pub fn resolve_verdict(store: &HostStore) -> (r: Result<(), String>)
    ensures
        match r {
            Ok(_) => !some_failed(store@.hosts),
            Err(e) => some_failed(store@.hosts) && e@ == "some hosts could not be resolved"@,
        },
{
    let hosts = store.unresolved();
    let ghost all = unresolved_hosts(store@.hosts);
    let mut i: usize = 0;
    while i < hosts.len()
        invariant
            all == unresolved_hosts(store@.hosts),
            all == host_ref_views(hosts@),
            i <= hosts@.len(),
            forall|k: int| 0 <= k < i ==> (#[trigger] all[k]).error is None,
        decreases hosts@.len() - i,
    {
        assert(all[i as int] == hosts@[i as int]@);
        if hosts[i].error.is_some() {
            assert(unresolved_hosts(store@.hosts)[i as int].error is Some);
            return Err(owned("some hosts could not be resolved"));
        }
        i = i + 1;
    }
    Ok(())
}

// ---------------------------------------------------------------------------
// Applying
// ---------------------------------------------------------------------------

/// What is said of one file.
pub open spec fn result_text(r: ConfResult<String>) -> Seq<char> {
    match r {
        ConfResult::Unchanged { .. } => "unchanged"@,
        ConfResult::Written { removed, .. } => "written, "@ + decimal(removed as nat)
            + " removed"@,
        ConfResult::Emptied { removed } => "SKIPPED — every one of its "@ + decimal(
            removed as nat,
        ) + " entries was being removed, and an empty AllowedIPs routes nothing"@,
        ConfResult::NoAllowedIps { .. } => "SKIPPED — no AllowedIPs line"@,
    }
}

/// The lines about a pass over a folder.
pub open spec fn report_lines(
    files: Seq<(String, ConfResult<String>)>,
    errors: Seq<(String, String)>,
) -> Seq<Seq<char>> {
    Seq::new(files.len(), |i: int| files[i].0@ + ": "@ + result_text(files[i].1)) + Seq::new(
        errors.len(),
        |i: int| errors[i].0@ + ": ERROR — "@ + errors[i].1@,
    ) + seq![
        decimal(count(files, Kind::Written)) + " written, "@ + decimal(
            count(files, Kind::Unchanged),
        ) + " unchanged"@,
    ]
}

fn say_result(r: &ConfResult<String>) -> (s: String)
    ensures
        s@ == result_text(*r),
{
    match r {
        ConfResult::Unchanged { .. } => owned("unchanged"),
        ConfResult::Written { removed, .. } => cat3(
            "written, ",
            count_text(*removed).as_str(),
            " removed",
        ),
        ConfResult::Emptied { removed } => cat3(
            "SKIPPED — every one of its ",
            count_text(*removed).as_str(),
            " entries was being removed, and an empty AllowedIPs routes nothing",
        ),
        ConfResult::NoAllowedIps { .. } => owned("SKIPPED — no AllowedIPs line"),
    }
}

/// The lines about a pass over a folder, whose files are named by their
/// paths.
pub fn apply_lines(report: &Report<String>) -> (r: Vec<String>)
    ensures
        texts(r@) == report_lines(report.files@, report.errors@),
{
    let mut out: Vec<String> = Vec::new();
    let mut i: usize = 0;
    let ghost files = report.files@;
    let ghost errors = report.errors@;
    while i < report.files.len()
        invariant
            files == report.files@,
            i <= files.len(),
            out@.len() == i,
            forall|k: int|
                0 <= k < i ==> (#[trigger] out@[k])@ == files[k].0@ + ": "@ + result_text(
                    files[k].1,
                ),
        decreases files.len() - i,
    {
        let what = say_result(&report.files[i].1);
        out.push(cat3(report.files[i].0.as_str(), ": ", what.as_str()));
        i = i + 1;
    }
    let ghost first = out@;
    let mut k: usize = 0;
    while k < report.errors.len()
        invariant
            errors == report.errors@,
            k <= errors.len(),
            out@.len() == first.len() + k,
            forall|j: int| 0 <= j < first.len() ==> #[trigger] out@[j] == first[j],
            forall|j: int|
                0 <= j < k ==> (#[trigger] out@[first.len() + j])@ == errors[j].0@
                    + ": ERROR — "@ + errors[j].1@,
        decreases errors.len() - k,
    {
        out.push(
            cat3(report.errors[k].0.as_str(), ": ERROR — ", report.errors[k].1.as_str()),
        );
        k = k + 1;
    }
    let ghost both = out@;
    let last = cat4(
        count_text(report.written()).as_str(),
        " written, ",
        count_text(report.unchanged()).as_str(),
        " unchanged",
    );
    out.push(last);
    proof {
        let goal = report_lines(files, errors);
        assert forall|j: int| 0 <= j < goal.len() implies texts(out@)[j] == goal[j] by {
            if j < files.len() {
                assert(both[j] == first[j]);
                assert(out@[j] == both[j]);
            } else if j < files.len() + errors.len() {
                let n = j - files.len();
                assert(both[first.len() + n]@ == errors[n].0@ + ": ERROR — "@ + errors[n].1@);
                assert(out@[j] == both[j]);
            }
        }
        assert(texts(out@) =~= goal);
    }
    out
}

/// How a pass over a folder ends.
pub fn apply_verdict(report: &Report<String>) -> (r: Result<(), String>)
    ensures
        match r {
            Ok(_) => report.errors@.len() == 0,
            Err(e) => report.errors@.len() > 0 && e@ == decimal(report.errors@.len())
                + " file(s) failed"@,
        },
{
    if report.errors.len() > 0 {
        Err(cat2(count_text(report.errors.len()).as_str(), " file(s) failed"))
    } else {
        Ok(())
    }
}

/// The lines of a dry run.
pub fn dry_run_lines(value: &str, paths: &[String]) -> (r: Vec<String>)
    ensures
        texts(r@) == seq!["AllowedIPs = "@ + value@] + Seq::new(
            paths@.len(),
            |i: int| "would write "@ + paths@[i]@,
        ),
{
    let mut out = line(cat2("AllowedIPs = ", value));
    let ghost head = out@;
    let mut i: usize = 0;
    while i < paths.len()
        invariant
            head.len() == 1,
            texts(head) == seq!["AllowedIPs = "@ + value@],
            i <= paths@.len(),
            out@.len() == 1 + i,
            out@[0] == head[0],
            forall|k: int|
                0 <= k < i ==> (#[trigger] out@[1 + k])@ == "would write "@ + paths@[k]@,
        decreases paths@.len() - i,
    {
        out.push(cat2("would write ", paths[i].as_str()));
        i = i + 1;
    }
    proof {
        let goal = seq!["AllowedIPs = "@ + value@] + Seq::new(
            paths@.len(),
            |i: int| "would write "@ + paths@[i]@,
        );
        assert forall|j: int| 0 <= j < goal.len() implies texts(out@)[j] == goal[j] by {
            if j == 0 {
                assert(texts(head)[0] == head[0]@);
            } else {
                assert(out@[1 + (j - 1)]@ == "would write "@ + paths@[j - 1]@);
            }
        }
        assert(texts(out@) =~= goal);
    }
    out
}

// ---------------------------------------------------------------------------
// Importing
// ---------------------------------------------------------------------------

/// How many addresses some hosts have.
pub open spec fn address_count(hosts: Seq<HostView>) -> nat
    decreases hosts.len(),
{
    if hosts.len() == 0 {
        0
    } else {
        address_count(hosts.drop_last()) + hosts.last().ips.len()
    }
}

/// How many addresses some hosts have.
pub fn count_addresses(hosts: &Vec<Host>) -> (r: u128)
    ensures
        r == address_count(host_views(hosts@)),
{
    let mut n: u128 = 0;
    let mut i: usize = 0;
    let ghost all = host_views(hosts@);
    while i < hosts.len()
        invariant
            all == host_views(hosts@),
            i <= hosts@.len(),
            n == address_count(all.take(i as int)),
            n <= i * 0xffff_ffff_ffff_ffff,
        decreases hosts@.len() - i,
    {
        let more: usize = hosts[i].ips.len();
        proof {
            assert(all.take(i + 1).drop_last() =~= all.take(i as int));
            assert(all.take(i + 1).last() == hosts@[i as int]@);
            assert(hosts@[i as int]@.ips.len() == more);
            assert((i + 1) * 0xffff_ffff_ffff_ffff == i * 0xffff_ffff_ffff_ffff
                + 0xffff_ffff_ffff_ffff) by (nonlinear_arith);
            assert((i + 1) * 0xffff_ffff_ffff_ffff <= 0xffff_ffff_ffff_ffff
                * 0xffff_ffff_ffff_ffff) by (nonlinear_arith)
                requires
                    i + 1 <= 0xffff_ffff_ffff_ffff,
            ;
        }
        n = n + more as u128;
        i = i + 1;
    }
    assert(all.take(all.len() as int) =~= all);
    n
}

/// The lines about hosts that were imported.
pub open spec fn import_lines(
    file: Seq<char>,
    hosts: Seq<HostView>,
    added: nat,
    group: Option<Seq<char>>,
) -> Seq<Seq<char>> {
    seq![
        file + ": "@ + decimal(hosts.len()) + " host(s) from "@ + decimal(address_count(hosts))
            + " address(es)"@,
        decimal(added) + " new, "@ + decimal((hosts.len() - added) as nat) + " already known"@,
    ] + (match group {
        Some(g) => seq!["group: "@ + g],
        None => Seq::empty(),
    }) + seq![
        "base config remembered as "@ + file,
        "note: addresses resolve normally — run `resolve` before `apply`"@,
    ]
}

proof fn lemma_newly_imported(s: StoreView, hosts: Seq<HostView>, groups: Seq<Seq<char>>)
    ensures
        newly_imported(s, hosts, groups) <= hosts.len(),
    decreases hosts.len(),
{
    if hosts.len() > 0 {
        lemma_newly_imported(s, hosts.drop_last(), groups);
    }
}

/// Take what a config holds into the list, under a group if one is named.
/// Gives the lines to print, and whether the list was changed.
pub fn import(
    store: &mut HostStore,
    found: Imported,
    file: &str,
    group: Option<&str>,
) -> (r: (Vec<String>, bool))
    ensures
        match found {
            Imported::FullTunnel => {
                &&& !r.1
                &&& *final(store) == *old(store)
                &&& texts(r.0@) == seq![
                    file@ + ": full tunnel (0.0.0.0/0) — nothing to import"@,
                    "a config that takes every address has no site list to take"@,
                ]
            },
            Imported::Nothing => {
                &&& !r.1
                &&& *final(store) == *old(store)
                &&& texts(r.0@) == seq![file@ + ": no AllowedIPs to import"@]
            },
            Imported::Hosts(hosts) => {
                let h = host_views(hosts@);
                let g = as_groups(group);
                &&& r.1
                &&& final(store)@ == (StoreView {
                    base_conf: Some(file@),
                    ..imported_into(old(store)@, h, g)
                })
                &&& texts(r.0@) == import_lines(
                    file@,
                    h,
                    newly_imported(old(store)@, h, g),
                    match group {
                        Some(x) => Some(x@),
                        None => None,
                    },
                )
            },
        },
{
    match found {
        Imported::FullTunnel => {
            let mut out = line(cat2(file, ": full tunnel (0.0.0.0/0) — nothing to import"));
            push_line(
                &mut out,
                owned("a config that takes every address has no site list to take"),
            );
            assert(texts(out@) =~= seq![
                file@ + ": full tunnel (0.0.0.0/0) — nothing to import"@,
                "a config that takes every address has no site list to take"@,
            ]);
            (out, false)
        },
        Imported::Nothing => (line(cat2(file, ": no AllowedIPs to import")), false),
        Imported::Hosts(hosts) => {
            let ghost h = host_views(hosts@);
            let total: usize = hosts.len();
            let addresses: u128 = count_addresses(&hosts);
            proof {
                lemma_newly_imported(store@, h, as_groups(group));
            }
            let added: usize = apply_import(store, hosts, group);
            store.base_conf = Some(owned(file));
            let mut out = line(
                cat5(
                    file,
                    ": ",
                    count_text(total).as_str(),
                    " host(s) from ",
                    cat2(
                        decimal_text(addresses).as_str(),
                        " address(es)",
                    ).as_str(),
                ),
            );
            push_line(
                &mut out,
                cat4(
                    count_text(added).as_str(),
                    " new, ",
                    count_text(total - added).as_str(),
                    " already known",
                ),
            );
            if let Some(g) = group {
                push_line(&mut out, cat2("group: ", g));
            }
            push_line(&mut out, cat2("base config remembered as ", file));
            push_line(
                &mut out,
                owned("note: addresses resolve normally — run `resolve` before `apply`"),
            );
            assert(texts(out@) =~~= import_lines(
                file@,
                h,
                added as nat,
                match group {
                    Some(x) => Some(x@),
                    None => None,
                },
            ));
            (out, true)
        },
    }
}

// ---------------------------------------------------------------------------
// The catalog
// ---------------------------------------------------------------------------

/// The lines about one template.
pub open spec fn template_lines(t: TemplateView) -> Seq<Seq<char>> {
    seq![t.name + " — "@ + decimal(t.domains.len()) + " host(s)"@] + Seq::new(
        t.domains.len(),
        |i: int| "  "@ + t.domains[i],
    )
}

/// The lines about some templates.
pub open spec fn catalog_lines(templates: Seq<TemplateView>) -> Seq<Seq<char>>
    decreases templates.len(),
{
    if templates.len() == 0 {
        Seq::empty()
    } else {
        catalog_lines(templates.drop_last()) + template_lines(templates.last())
    }
}

fn say_template(t: &Template) -> (r: Vec<String>)
    ensures
        texts(r@) == template_lines(t@),
{
    let mut out = line(
        cat4(t.name.as_str(), " — ", count_text(t.domains.len()).as_str(), " host(s)"),
    );
    let ghost head = texts(out@);
    let ghost all = t@.domains;
    let mut i: usize = 0;
    assert(head + Seq::new(0, |k: int| "  "@ + all[k]) =~= head);
    while i < t.domains.len()
        invariant
            all == t@.domains,
            i <= t.domains@.len() == all.len(),
            texts(out@) == head + Seq::new(i as nat, |k: int| "  "@ + all[k]),
        decreases t.domains@.len() - i,
    {
        push_line(&mut out, cat2("  ", t.domains[i].as_str()));
        i = i + 1;
        assert(texts(out@) =~= head + Seq::new(i as nat, |k: int| "  "@ + all[k]));
    }
    assert(texts(out@) =~= template_lines(t@));
    out
}

/// The lines about the templates that answer a query.
pub fn search_lines(catalog: &Catalog, query: &str) -> (r: Vec<String>)
    ensures
        texts(r@) == catalog_lines(found(catalog@.templates, query@)),
{
    let hits = catalog.search(query);
    let ghost all = template_ref_views(hits@);
    let mut out: Vec<String> = Vec::new();
    let mut i: usize = 0;
    assert(texts(out@) =~= Seq::<Seq<char>>::empty());
    while i < hits.len()
        invariant
            all == template_ref_views(hits@),
            i <= hits@.len(),
            texts(out@) == catalog_lines(all.take(i as int)),
        decreases hits@.len() - i,
    {
        let ghost done = out@;
        let mut more = say_template(hits[i]);
        proof {
            assert(all.take(i + 1).drop_last() =~= all.take(i as int));
            assert(all.take(i + 1).last() == hits@[i as int]@);
            assert(texts(done + more@) =~= texts(done) + texts(more@));
        }
        out.append(&mut more);
        i = i + 1;
    }
    assert(all.take(all.len() as int) =~= all);
    out
}

/// The lines about a catalog that was fetched.
pub fn update_lines(count: usize) -> (r: Vec<String>)
    ensures
        texts(r@) == seq![
            "catalog updated: "@ + decimal(count as nat) + " template(s)"@,
            "note: the catalog is compiled into this binary — rebuild to ship it, or point the GUI at "@
                + DEFAULT_CATALOG_URL@,
        ],
{
    let mut out = line(
        cat3("catalog updated: ", count_text(count).as_str(), " template(s)"),
    );
    push_line(
        &mut out,
        cat2(
            "note: the catalog is compiled into this binary — rebuild to ship it, or point the GUI at ",
            DEFAULT_CATALOG_URL,
        ),
    );
    assert(texts(out@) =~= seq![
        "catalog updated: "@ + decimal(count as nat) + " template(s)"@,
        "note: the catalog is compiled into this binary — rebuild to ship it, or point the GUI at "@
            + DEFAULT_CATALOG_URL@,
    ]);
    out
}

// ---------------------------------------------------------------------------
// Laws
// ---------------------------------------------------------------------------

/// A group may be named anywhere among the arguments, by either flag and as
/// often as wanted; the other arguments keep their order. A flag with
/// nothing behind it is an argument like others.
pub proof fn law_groups_stand_anywhere(
    a: Seq<Seq<char>>,
    flag: Seq<char>,
    group: Seq<char>,
    b: Seq<Seq<char>>,
)
    requires
        forall|k: int| 0 <= k < a.len() ==> #[trigger] a[k] != "-g"@ && a[k] != "--group"@,
        flag == "-g"@ || flag == "--group"@,
    ensures
        split_groups(a + seq![flag, group] + b) == (
            seq![group] + split_groups(b).0,
            a + split_groups(b).1,
        ),
        split_groups(a) == (Seq::<Seq<char>>::empty(), a),
        split_groups(a.push(flag)) == (Seq::<Seq<char>>::empty(), a.push(flag)),
    decreases a.len(),
{
    let all = a + seq![flag, group] + b;
    let none = Seq::<Seq<char>>::empty();
    if a.len() == 0 {
        assert(all[0] == flag && all[1] == group);
        assert(all.skip(2) =~= b);
        assert(a + split_groups(b).1 =~= split_groups(b).1);
        assert(split_groups(a).1 =~= a);
        let one = a.push(flag);
        reveal_with_fuel(split_groups, 2);
        assert(one.skip(1) =~= none);
        assert(one[0] == flag);
        assert(seq![flag] + none =~= one);
        assert(split_groups(one).1 =~= one);
        assert(split_groups(one).0 =~= none);
    } else {
        let d = a.skip(1);
        assert forall|k: int| 0 <= k < d.len() implies #[trigger] d[k] != "-g"@ && d[k]
            != "--group"@ by {
            assert(d[k] == a[k + 1]);
        }
        law_groups_stand_anywhere(d, flag, group, b);
        assert(a[0] != "-g"@ && a[0] != "--group"@);
        assert(all[0] == a[0]);
        assert(all.skip(1) =~= d + seq![flag, group] + b);
        assert(seq![a[0]] + (d + split_groups(b).1) =~= a + split_groups(b).1);
        assert(seq![a[0]] + d =~= a);
        let one = a.push(flag);
        assert(one[0] == a[0]);
        assert(one.skip(1) =~= d.push(flag));
        assert(seq![a[0]] + d.push(flag) =~= one);
    }
}

/// The names of the commands differ in their length or their first letter.
proof fn lemma_command_names()
    ensures
        "init"@.len() == 4 && "init"@[0] == 'i',
        "set-conf-dir"@.len() == 12 && "set-conf-dir"@[0] == 's',
        "show"@.len() == 4 && "show"@[0] == 's',
        "add"@.len() == 3 && "add"@[0] == 'a',
        "rm"@.len() == 2 && "rm"@[0] == 'r',
        "rename"@.len() == 6 && "rename"@[0] == 'r',
        "group"@.len() == 5 && "group"@[0] == 'g',
        "resolve"@.len() == 7 && "resolve"@[0] == 'r',
        "apply"@.len() == 5 && "apply"@[0] == 'a',
        "import"@.len() == 6 && "import"@[0] == 'i',
        "templates"@.len() == 9 && "templates"@[0] == 't',
        "templates-update"@.len() == 16 && "templates-update"@[0] == 't',
{
    reveal_strlit("init");
    reveal_strlit("set-conf-dir");
    reveal_strlit("show");
    reveal_strlit("add");
    reveal_strlit("rm");
    reveal_strlit("rename");
    reveal_strlit("group");
    reveal_strlit("resolve");
    reveal_strlit("apply");
    reveal_strlit("import");
    reveal_strlit("templates");
    reveal_strlit("templates-update");
}

/// Each command takes the arguments that it needs, in order, and ignores the
/// others; the ones it needs it asks for.
pub proof fn law_commands_take_what_they_need(groups: Seq<Seq<char>>, rest: Seq<Seq<char>>)
    ensures
        asked("init"@, groups, rest) == Ok::<CommandView, Seq<char>>(CommandView::Init),
        asked("show"@, groups, rest) == Ok::<CommandView, Seq<char>>(CommandView::Show),
        rest.len() > 0 ==> asked("set-conf-dir"@, groups, rest) == Ok::<CommandView, Seq<char>>(
            CommandView::SetConfDir { dir: rest[0] },
        ),
        rest.len() > 0 ==> asked("add"@, groups, rest) == Ok::<CommandView, Seq<char>>(
            CommandView::Edit(EditView::Add { target: rest[0], groups }),
        ),
        rest.len() > 0 ==> asked("rm"@, groups, rest) == Ok::<CommandView, Seq<char>>(
            CommandView::Edit(EditView::Remove { target: rest[0] }),
        ),
        rest.len() > 1 ==> asked("rename"@, groups, rest) == Ok::<CommandView, Seq<char>>(
            CommandView::Edit(EditView::Rename { old: rest[0], new: rest[1] }),
        ),
        rest.len() == 0 ==> asked("set-conf-dir"@, groups, rest) is Err && asked(
            "add"@,
            groups,
            rest,
        ) is Err && asked("rm"@, groups, rest) is Err && asked("import"@, groups, rest) is Err,
        rest.len() < 2 ==> asked("rename"@, groups, rest) is Err && asked(
            "group"@,
            groups,
            rest,
        ) is Err,
{
    lemma_command_names();
}

/// The options of the commands that go on: `--force` and `--dry-run` count
/// wherever they stand, the first group is that of an import, and a query or
/// a URL may be left out.
pub proof fn law_options_of_commands(groups: Seq<Seq<char>>, rest: Seq<Seq<char>>)
    ensures
        asked("resolve"@, groups, rest) == Ok::<CommandView, Seq<char>>(
            CommandView::Resolve { force: rest.contains("--force"@) },
        ),
        asked("apply"@, groups, rest) == Ok::<CommandView, Seq<char>>(
            CommandView::Apply { dry_run: rest.contains("--dry-run"@) },
        ),
        rest.len() > 0 && groups.len() > 0 ==> asked("import"@, groups, rest) == Ok::<
            CommandView,
            Seq<char>,
        >(CommandView::Import { file: rest[0], group: Some(groups[0]) }),
        rest.len() > 0 && groups.len() == 0 ==> asked("import"@, groups, rest) == Ok::<
            CommandView,
            Seq<char>,
        >(CommandView::Import { file: rest[0], group: None }),
        rest.len() > 0 ==> asked("templates"@, groups, rest) == Ok::<CommandView, Seq<char>>(
            CommandView::Templates { query: rest[0] },
        ),
        rest.len() == 0 ==> asked("templates"@, groups, rest) == Ok::<CommandView, Seq<char>>(
            CommandView::Templates { query: ""@ },
        ),
        rest.len() > 0 ==> asked("templates-update"@, groups, rest) == Ok::<CommandView, Seq<char>>(
            CommandView::TemplatesUpdate { url: rest[0] },
        ),
        rest.len() == 0 ==> asked("templates-update"@, groups, rest) == Ok::<
            CommandView,
            Seq<char>,
        >(CommandView::TemplatesUpdate { url: DEFAULT_CATALOG_URL@ }),
        rest.len() > 1 && rest[0] == "add"@ ==> asked("group"@, groups, rest) == Ok::<
            CommandView,
            Seq<char>,
        >(CommandView::Edit(EditView::GroupAdd { name: rest[1] })),
        rest.len() > 1 && rest[0] == "rm"@ ==> asked("group"@, groups, rest) == Ok::<
            CommandView,
            Seq<char>,
        >(CommandView::Edit(EditView::GroupRemove { name: rest[1] })),
        rest.len() > 1 && rest[0] == "apply"@ ==> asked("group"@, groups, rest) == Ok::<
            CommandView,
            Seq<char>,
        >(CommandView::Edit(EditView::GroupApply { name: rest[1] })),
{
    lemma_command_names();
}

/// A host is removed if and only if it is in the list: the first with that
/// target goes, the others stay as they are and in their order, and where no
/// target occurs twice it is no longer in the list.
pub proof fn law_removed_host_is_gone(
    s: StoreView,
    target: Seq<char>,
    catalog: Seq<TemplateView>,
    k: int,
)
    requires
        0 <= k <= s.hosts.len(),
        k < s.hosts.len() ==> s.hosts[k].target == target,
        forall|j: int| 0 <= j < k ==> (#[trigger] s.hosts[j]).target != target,
    ensures
        ({
            let r = edited(s, EditView::Remove { target }, catalog);
            &&& k == s.hosts.len() ==> r is Err
            &&& k < s.hosts.len() ==> {
                &&& r matches Ok((after, _)) && after == (StoreView {
                    hosts: s.hosts.take(k) + s.hosts.skip(k + 1),
                    ..s
                })
                &&& distinct_targets(s.hosts) ==> !has_target(r->Ok_0.0.hosts, target)
            }
        }),
{
    lemma_host_index(s.hosts, target);
    if k < s.hosts.len() {
        let after = s.hosts.remove(k);
        assert(after =~= s.hosts.take(k) + s.hosts.skip(k + 1));
        lemma_host_index(after, target);
        if distinct_targets(s.hosts) && has_target(after, target) {
            let i = host_index(after, target) as int;
            if i < k {
                assert(after[i] == s.hosts[i]);
            } else {
                assert(after[i] == s.hosts[i + 1]);
                assert(s.hosts[k].target != s.hosts[i + 1].target);
            }
        }
    }
}

/// A host is renamed if and only if it is in the list and the new name,
/// without the white space round it, is not. The list then has the new name
/// in the place of the old one, and no other host is touched.
pub proof fn law_renamed_host_has_the_new_name(
    s: StoreView,
    old: Seq<char>,
    new: Seq<char>,
    catalog: Seq<TemplateView>,
)
    ensures
        ({
            let r = edited(s, EditView::Rename { old, new }, catalog);
            let known = |t: Seq<char>|
                exists|j: int| 0 <= j < s.hosts.len() && (#[trigger] s.hosts[j]).target == t;
            &&& r is Ok <==> known(old) && !known(trim(new))
            &&& r matches Ok((after, _)) ==> {
                &&& after == (StoreView { hosts: after.hosts, ..s })
                &&& after.hosts.len() == s.hosts.len()
                &&& exists|k: int|
                    0 <= k < s.hosts.len() && (#[trigger] s.hosts[k]).target == old
                        && after.hosts[k].target == trim(new) && after.hosts[k].groups
                        == s.hosts[k].groups && forall|j: int|
                        0 <= j < s.hosts.len() && j != k ==> #[trigger] after.hosts[j]
                            == s.hosts[j]
                &&& distinct_targets(s.hosts) ==> distinct_targets(after.hosts)
            }
        }),
{
    let known = |t: Seq<char>|
        exists|j: int| 0 <= j < s.hosts.len() && (#[trigger] s.hosts[j]).target == t;
    lemma_host_index(s.hosts, old);
    lemma_host_index(s.hosts, trim(new));
    if known(old) {
        let j = choose|j: int| 0 <= j < s.hosts.len() && (#[trigger] s.hosts[j]).target == old;
        lemma_has_target(s.hosts, old, j);
    }
    if known(trim(new)) {
        let j = choose|j: int|
            0 <= j < s.hosts.len() && (#[trigger] s.hosts[j]).target == trim(new);
        lemma_has_target(s.hosts, trim(new), j);
    }
    if has_target(s.hosts, old) {
        assert(s.hosts[host_index(s.hosts, old) as int].target == old);
    }
    if has_target(s.hosts, trim(new)) {
        assert(s.hosts[host_index(s.hosts, trim(new)) as int].target == trim(new));
    }
    if let Ok((after, _)) = edited(s, EditView::Rename { old, new }, catalog) {
        let k = host_index(s.hosts, old) as int;
        assert(s.hosts[k].target == old && after.hosts[k].target == trim(new));
        if distinct_targets(s.hosts) {
            assert forall|i: int, j: int| 0 <= i < j < after.hosts.len() implies (
            #[trigger] after.hosts[i]).target != (#[trigger] after.hosts[j]).target by {
                assert(s.hosts[i].target != s.hosts[j].target);
                if i == k {
                    assert(s.hosts[j].target != trim(new));
                } else if j == k {
                    assert(s.hosts[i].target != trim(new));
                }
            }
        }
    }
}

/// A group that is added is known afterwards, once; one can be removed if
/// and only if it is known, and is then no host's and no longer known. A
/// template is applied if and only if the catalog has one of that name.
pub proof fn law_edits_of_groups(s: StoreView, name: Seq<char>, catalog: Seq<TemplateView>)
    ensures
        edited(s, EditView::GroupAdd { name }, catalog) matches Ok((after, _)) && after == (
        StoreView {
            groups: if s.groups.contains(name) {
                s.groups
            } else {
                s.groups.push(name)
            },
            ..s
        }),
        edited(s, EditView::GroupRemove { name }, catalog) is Ok <==> s.groups.contains(name),
        edited(s, EditView::GroupRemove { name }, catalog) matches Ok((after, _)) ==> {
            &&& !after.groups.contains(name)
            &&& after.hosts.len() == s.hosts.len()
            &&& forall|i: int|
                0 <= i < s.hosts.len() ==> !(#[trigger] after.hosts[i]).groups.contains(name)
                    && after.hosts[i].ips == s.hosts[i].ips && after.hosts[i].target
                    == s.hosts[i].target
        },
        edited(s, EditView::GroupApply { name }, catalog) is Ok <==> exists|i: int|
            0 <= i < catalog.len() && (#[trigger] catalog[i]).name == name,
        edited(s, EditView::GroupApply { name }, catalog) matches Ok((after, _)) ==> exists|i: int|
            0 <= i < catalog.len() && (#[trigger] catalog[i]).name == name && after
                == template_applied(s, catalog[i]),
{
    lemma_without(s.groups, name);
    lemma_template_index(catalog, name);
    if edited(s, EditView::GroupRemove { name }, catalog) is Ok {
        let after = group_removed(s, name);
        assert forall|i: int| 0 <= i < s.hosts.len() implies !(
        #[trigger] after.hosts[i]).groups.contains(name) by {
            lemma_without(s.hosts[i].groups, name);
        }
    }
    let i = template_index(catalog, name) as int;
    if i < catalog.len() {
        assert(catalog[i].name == name);
    }
}

/// A host is shown by its label, with its groups and its addresses, or a
/// word that it has none.
pub proof fn law_line_of_a_host(h: HostView)
    ensures
        ("  "@ + host_label(h)).is_prefix_of(host_line(h)),
        h.ips.len() > 0 ==> join(h.ips, " "@).is_suffix_of(host_line(h)),
        h.ips.len() == 0 ==> "  (unresolved)"@.is_suffix_of(host_line(h)),
        h.groups.len() > 0 ==> contains(host_line(h), "  ["@ + join(h.groups, ", "@) + "]"@),
{
    let l = host_line(h);
    let a = "  "@ + host_label(h);
    let g = if h.groups.len() > 0 {
        "  ["@ + join(h.groups, ", "@) + "]"@
    } else {
        ""@
    };
    let c = if h.ips.len() > 0 {
        "  "@ + join(h.ips, " "@)
    } else {
        "  (unresolved)"@
    };
    assert(l == a + g + c);
    assert(l.take(a.len() as int) =~= a);
    assert(l.skip(l.len() - c.len()) =~= c);
    if h.ips.len() > 0 {
        let j = join(h.ips, " "@);
        assert(l.skip(l.len() - j.len()) =~= j);
    }
    law_contains_is_in_the_middle(l, g);
}

/// The list is shown with every host in list order.
pub proof fn law_every_host_is_shown(s: StoreView, path: Seq<char>, i: int)
    requires
        0 <= i < s.hosts.len(),
    ensures
        shown(s, path).len() == 3 + s.hosts.len() + (if s.groups.len() > 0 {
            1int
        } else {
            0
        }),
        shown(s, path)[3 + i] == host_line(s.hosts[i]),
        s.groups.len() > 0 ==> join(s.groups, ", "@).is_suffix_of(shown(s, path).last()),
{
    if s.groups.len() > 0 {
        let l = "groups:     "@ + join(s.groups, ", "@);
        assert(shown(s, path).last() == l);
        assert(l.skip(l.len() - join(s.groups, ", "@).len()) =~= join(s.groups, ", "@));
    }
}

/// Every host is told of in list order, but for those that are addresses; a
/// failure with its reason.
pub proof fn law_lines_of_a_pass(
    a: Seq<(String, Outcome)>,
    b: Seq<(String, Outcome)>,
    o: (String, Outcome),
)
    ensures
        outcome_lines(a + b) == outcome_lines(a) + outcome_lines(b),
        o.1@ is Literal ==> outcome_lines(seq![o]).len() == 0,
        o.1@ !is Literal ==> outcome_lines(seq![o]).len() == 1 && o.0@.is_prefix_of(
            outcome_lines(seq![o])[0],
        ),
        o.1@ matches OutcomeView::Failed(e) ==> outcome_lines(seq![o]) == seq![
            o.0@ + ": FAILED — "@ + e,
        ],
    decreases b.len(),
{
    if b.len() == 0 {
        assert(a + b =~= a);
        assert(outcome_lines(a) + outcome_lines(b) =~= outcome_lines(a));
    } else {
        law_lines_of_a_pass(a, b.drop_last(), o);
        assert((a + b).drop_last() =~= a + b.drop_last());
        assert((a + b).last() == b.last());
        assert(outcome_lines(a + b) =~= outcome_lines(a) + outcome_lines(b));
    }
    reveal_with_fuel(outcome_lines, 2);
    assert(seq![o].drop_last() =~= Seq::<(String, Outcome)>::empty());
    assert(seq![o].last() == o);
    let l = outcome_line(o.0@, o.1@);
    assert(outcome_lines(seq![o]) =~= l);
    if l.len() > 0 {
        assert(l[0].take(o.0@.len() as int) =~= o.0@);
    }
}

/// A pass fails if and only if some name has no address and carries an
/// error.
pub proof fn law_when_a_pass_fails(hosts: Seq<HostView>)
    ensures
        some_failed(hosts) <==> exists|i: int|
            0 <= i < hosts.len() && (#[trigger] hosts[i]).error is Some && hosts[i].ips.len() == 0
                && !is_ip_or_network(hosts[i].target),
    decreases hosts.len(),
{
    if hosts.len() > 0 {
        let d = hosts.drop_last();
        let u = unresolved_hosts(hosts);
        let v = unresolved_hosts(d);
        law_when_a_pass_fails(d);
        if some_failed(d) {
            let k = choose|k: int| 0 <= k < v.len() && (#[trigger] v[k]).error is Some;
            assert(u[k] == v[k]);
            let i = choose|i: int|
                0 <= i < d.len() && (#[trigger] d[i]).error is Some && d[i].ips.len() == 0
                    && !is_ip_or_network(d[i].target);
            assert(hosts[i] == d[i]);
        }
        if some_failed(hosts) {
            let k = choose|k: int| 0 <= k < u.len() && (#[trigger] u[k]).error is Some;
            if k < v.len() {
                assert(v[k] == u[k]);
            } else {
                assert(hosts[hosts.len() - 1] == u[k]);
            }
        }
        if exists|i: int|
            0 <= i < hosts.len() && (#[trigger] hosts[i]).error is Some && hosts[i].ips.len() == 0
                && !is_ip_or_network(hosts[i].target) {
            let i = choose|i: int|
                0 <= i < hosts.len() && (#[trigger] hosts[i]).error is Some && hosts[i].ips.len()
                    == 0 && !is_ip_or_network(hosts[i].target);
            if i < d.len() {
                assert(d[i] == hosts[i]);
            } else {
                assert(u[v.len() as int] == hosts[i]);
            }
        }
    }
}

/// Every file is told of under its path, in order, then every problem; the
/// last line counts the files that were written and found correct.
pub proof fn law_lines_of_a_report(
    files: Seq<(String, ConfResult<String>)>,
    errors: Seq<(String, String)>,
    i: int,
    j: int,
)
    requires
        0 <= i < files.len(),
        0 <= j < errors.len(),
    ensures
        ({
            let l = report_lines(files, errors);
            &&& l.len() == files.len() + errors.len() + 1
            &&& files[i].0@.is_prefix_of(l[i])
            &&& l[files.len() + j] == errors[j].0@ + ": ERROR — "@ + errors[j].1@
            &&& l.last() == decimal(
                files.filter(|f: (String, ConfResult<String>)| f.1 is Written).len(),
            ) + " written, "@ + decimal(
                files.filter(|f: (String, ConfResult<String>)| f.1 is Unchanged).len(),
            ) + " unchanged"@
        }),
        files[i].1 is Emptied || files[i].1 is NoAllowedIps ==> "SKIPPED"@.is_prefix_of(
            result_text(files[i].1),
        ),
{
    let l = report_lines(files, errors);
    law_counts_are_over_all_files(files, Seq::empty(), files[i]);
    assert(l[i] == files[i].0@ + ": "@ + result_text(files[i].1));
    assert(l[i].take(files[i].0@.len() as int) =~= files[i].0@);
    reveal_strlit("SKIPPED");
    reveal_strlit("SKIPPED — every one of its ");
    reveal_strlit("SKIPPED — no AllowedIPs line");
    if files[i].1 is Emptied || files[i].1 is NoAllowedIps {
        assert(result_text(files[i].1).take(7) =~= "SKIPPED"@);
    }
}

/// The addresses of hosts add up.
pub proof fn law_addresses_add_up(a: Seq<HostView>, b: Seq<HostView>, h: HostView)
    ensures
        address_count(a + b) == address_count(a) + address_count(b),
        address_count(seq![h]) == h.ips.len(),
        address_count(Seq::<HostView>::empty()) == 0,
    decreases b.len(),
{
    if b.len() == 0 {
        assert(a + b =~= a);
    } else {
        law_addresses_add_up(a, b.drop_last(), h);
        assert((a + b).drop_last() =~= a + b.drop_last());
        assert((a + b).last() == b.last());
    }
    reveal_with_fuel(address_count, 2);
    assert(seq![h].drop_last() =~= Seq::<HostView>::empty());
    assert(seq![h].last() == h);
}

/// Templates are listed one after the other, each with its name and every
/// one of its domains.
pub proof fn law_lines_of_a_catalog(
    a: Seq<TemplateView>,
    b: Seq<TemplateView>,
    t: TemplateView,
    i: int,
)
    requires
        0 <= i < t.domains.len(),
    ensures
        catalog_lines(a + b) == catalog_lines(a) + catalog_lines(b),
        catalog_lines(seq![t]).len() == 1 + t.domains.len(),
        t.name.is_prefix_of(catalog_lines(seq![t])[0]),
        catalog_lines(seq![t])[1 + i] == "  "@ + t.domains[i],
    decreases b.len(),
{
    if b.len() == 0 {
        assert(a + b =~= a);
        assert(catalog_lines(a) + catalog_lines(b) =~= catalog_lines(a));
    } else {
        law_lines_of_a_catalog(a, b.drop_last(), t, i);
        assert((a + b).drop_last() =~= a + b.drop_last());
        assert((a + b).last() == b.last());
        assert(catalog_lines(a + b) =~= catalog_lines(a) + catalog_lines(b));
    }
    reveal_with_fuel(catalog_lines, 2);
    assert(seq![t].drop_last() =~= Seq::<TemplateView>::empty());
    assert(seq![t].last() == t);
    let l = template_lines(t);
    assert(catalog_lines(seq![t]) =~= l);
    assert(l[0].take(t.name.len() as int) =~= t.name);
}

/// A name that is no command is refused with the name and the usage, and so
/// is a word behind `group` that is none of its own.
pub proof fn law_other_words_are_refused(
    name: Seq<char>,
    groups: Seq<Seq<char>>,
    rest: Seq<Seq<char>>,
)
    ensures
        asked(name, groups, rest) is Ok ==> name == "init"@ || name == "set-conf-dir"@ || name
            == "show"@ || name == "add"@ || name == "rm"@ || name == "rename"@ || name == "group"@
            || name == "resolve"@ || name == "apply"@ || name == "import"@ || name == "templates"@
            || name == "templates-update"@,
        asked("group"@, groups, rest) is Ok ==> rest.len() > 1 && (rest[0] == "add"@ || rest[0]
            == "rm"@ || rest[0] == "apply"@),
{
    lemma_command_names();
}

/// A list without hosts is shown as such.
pub proof fn law_empty_list_is_shown(s: StoreView, path: Seq<char>)
    requires
        s.hosts.len() == 0,
    ensures
        shown(s, path)[2] == "hosts:      (none)"@,
        path.is_suffix_of(shown(s, path)[0]),
        s.conf_dir matches Some(d) ==> d.is_suffix_of(shown(s, path)[1]),
{
    let first = "store:      "@ + path;
    assert(shown(s, path)[0] == first);
    assert(first.skip(first.len() - path.len()) =~= path);
    if let Some(d) = s.conf_dir {
        let second = "conf dir:   "@ + d;
        assert(shown(s, path)[1] == second);
        assert(second.skip(second.len() - d.len()) =~= d);
    }
}

/// What is told of an import: the file with its hosts and addresses, how
/// many hosts are new and how many were known, and the group if one is named.
pub proof fn law_lines_of_an_import(
    file: Seq<char>,
    hosts: Seq<HostView>,
    added: nat,
    group: Option<Seq<char>>,
)
    requires
        added <= hosts.len(),
    ensures
        ({
            let l = import_lines(file, hosts, added, group);
            &&& (file + ": "@ + decimal(hosts.len())).is_prefix_of(l[0])
            &&& contains(l[0], decimal(address_count(hosts)))
            &&& decimal(added).is_prefix_of(l[1])
            &&& contains(l[1], decimal((hosts.len() - added) as nat))
            &&& group matches Some(g) ==> l.len() == 5 && g.is_suffix_of(l[2])
            &&& group is None ==> l.len() == 4
        }),
{
    let l = import_lines(file, hosts, added, group);
    let a = file + ": "@ + decimal(hosts.len());
    let n = decimal(address_count(hosts));
    let known = decimal((hosts.len() - added) as nat);
    assert(l[0].take(a.len() as int) =~= a);
    law_contains_is_in_the_middle(l[0], n);
    assert(l[0] == (a + " host(s) from "@) + n + " address(es)"@);
    assert(l[1].take(decimal(added).len() as int) =~= decimal(added));
    law_contains_is_in_the_middle(l[1], known);
    assert(l[1] == (decimal(added) + " new, "@) + known + " already known"@);
    if let Some(g) = group {
        let line = "group: "@ + g;
        assert(l[2] == line);
        assert(line.skip(line.len() - g.len()) =~= g);
    }
}

/// The words of an edit tell what was done: the target or the group, and how
/// many hosts were kept or added.
pub proof fn law_words_of_edits(
    s: StoreView,
    target: Seq<char>,
    groups: Seq<Seq<char>>,
    catalog: Seq<TemplateView>,
)
    ensures
        ({
            let said = edited(s, EditView::Add { target, groups }, catalog)->Ok_0.1;
            &&& said[0] == "added "@ + target
            &&& groups.len() == 0 ==> said.len() == 1
            &&& groups.len() > 0 ==> said.len() == 2 && join(groups, ", "@).is_suffix_of(said[1])
        }),
        edited(s, EditView::Remove { target }, catalog) matches Ok((_, said)) ==> said == seq![
            "removed "@ + target,
        ],
        edited(s, EditView::GroupRemove { name: target }, catalog) matches Ok((_, said))
            ==> contains(
            said[0],
            decimal(s.hosts.filter(|h: HostView| h.groups.contains(target)).len()),
        ),
        edited(s, EditView::GroupApply { name: target }, catalog) matches Ok((after, said)) ==> (
        forall|i: int, j: int|
            0 <= i < catalog.len() && 0 <= j < catalog[i].domains.len() ==> trim(
                #[trigger] catalog[i].domains[j],
            ) == catalog[i].domains[j]) ==> contains(
            said[0],
            decimal((after.hosts.len() - s.hosts.len()) as nat),
        ),
{
    if groups.len() > 0 {
        let l = "group(s): "@ + join(groups, ", "@);
        assert(l.skip(l.len() - join(groups, ", "@).len()) =~= join(groups, ", "@));
    }
    if let Ok((_, said)) = edited(s, EditView::GroupRemove { name: target }, catalog) {
        law_chosen_hosts(s.hosts, target);
        let n = decimal(members(s.hosts, target).len());
        law_contains_is_in_the_middle(said[0], n);
        assert(said[0] == ("group "@ + target + " removed; "@) + n + " host(s) kept in the list"@);
    }
    if let Ok((_, said)) = edited(s, EditView::GroupApply { name: target }, catalog) {
        if forall|i: int, j: int|
            0 <= i < catalog.len() && 0 <= j < catalog[i].domains.len() ==> trim(
                #[trigger] catalog[i].domains[j],
            ) == catalog[i].domains[j] {
            let t = catalog[template_index(catalog, target) as int];
            law_template_becomes_a_group(s, t);
            let n = decimal(new_domains(group_ensured(s, t.name), t.domains, t.name));
            law_contains_is_in_the_middle(said[0], n);
            assert(said[0] == ("template "@ + target + ": "@) + n + " host(s) added"@);
        }
    }
}

} // verus!
