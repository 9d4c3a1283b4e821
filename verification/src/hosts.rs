//! The host list: what the owner edits, and what turns into `AllowedIPs`.
//!
//! One store holds the folder of `.conf` files and every host the owner
//! keeps. Each host is either a domain or a literal address, optionally
//! inside groups. At apply time the list is flattened: every host
//! contributes its addresses, and the result is written into every `.conf`.
//!
//! The rule this module enforces: an address reaches `ips` only through a
//! resolve or through [`HostStore::add_address`]. A label, such as the
//! network that an import names a group by, is never a route, however much
//! it looks like one.

use vstd::prelude::*;

pub use crate::address::is_address;

use crate::address::{
    ip, is_ip_or_network, law_colons_show_the_family, law_network_is_address_and_prefix,
    law_prefix_fits_the_family, IpView,
};
use crate::list::{
    add_missing, add_text, add_texts, copied, first_of_each, law_missing_texts_go_behind,
    law_unique_keeps_the_first, law_without_keeps_the_others, lemma_add_missing, lemma_without,
    remove_text, unique, uniqued, with_text, without,
};
use crate::text::{
    contains_char, decimal, has_char, has_member, join, joined, owned, same, text_option, texts,
    trim, trimmed,
};

verus! {

/// Where a host came from: one the owner typed is not the same as one poured
/// in from a template or a config.
#[derive(Debug, Clone, Copy, PartialEq, Eq, Structural)]
pub enum Source {
    Manual,
    Template,
}

impl Default for Source {
    fn default() -> (r: Self)
        ensures
            r == Source::Manual,
    {
        Source::Manual
    }
}

/// A single host.
#[derive(Debug, Clone, PartialEq, Eq)]
pub struct Host {
    /// What the owner typed: a domain or an address.
    pub target: String,
    /// Which groups it belongs to; empty means it stands alone.
    pub groups: Vec<String>,
    /// The addresses of the host, cached so that an offline run still works.
    pub ips: Vec<String>,
    pub source: Source,
    /// Set when the last resolve attempt failed.
    pub error: Option<String>,
}

/// A [`Host`] as character sequences.
#[verifier::ext_equal]
pub struct HostView {
    pub target: Seq<char>,
    pub groups: Seq<Seq<char>>,
    pub ips: Seq<Seq<char>>,
    pub source: Source,
    pub error: Option<Seq<char>>,
}

impl View for Host {
    type V = HostView;

    open spec fn view(&self) -> HostView {
        HostView {
            target: self.target@,
            groups: texts(self.groups@),
            ips: texts(self.ips@),
            source: self.source,
            error: text_option(self.error),
        }
    }
}

/// The whole host list file.
#[derive(Debug, Clone, PartialEq, Eq)]
pub struct HostStore {
    pub version: u32,
    /// The folder of `.conf` files, chosen on first run.
    pub conf_dir: Option<String>,
    /// The config that the last import was read from.
    pub base_conf: Option<String>,
    /// Known groups, kept even when empty.
    pub groups: Vec<String>,
    pub hosts: Vec<Host>,
    /// When the template catalog was last pulled, RFC 3339.
    pub templates_updated: Option<String>,
}

/// A [`HostStore`] as character sequences.
#[verifier::ext_equal]
pub struct StoreView {
    pub version: u32,
    pub conf_dir: Option<Seq<char>>,
    pub base_conf: Option<Seq<char>>,
    pub groups: Seq<Seq<char>>,
    pub hosts: Seq<HostView>,
    pub templates_updated: Option<Seq<char>>,
}

/// The hosts of a list, as character sequences.
pub open spec fn host_views(v: Seq<Host>) -> Seq<HostView> {
    Seq::new(v.len(), |i: int| v[i]@)
}

/// The hosts behind a list of references.
pub open spec fn host_ref_views(v: Seq<&Host>) -> Seq<HostView> {
    Seq::new(v.len(), |i: int| v[i]@)
}

impl View for HostStore {
    type V = StoreView;

    open spec fn view(&self) -> StoreView {
        StoreView {
            version: self.version,
            conf_dir: text_option(self.conf_dir),
            base_conf: text_option(self.base_conf),
            groups: texts(self.groups@),
            hosts: host_views(self.hosts@),
            templates_updated: text_option(self.templates_updated),
        }
    }
}

/// Errors of the store and of what is done with it. Kept in one place so
/// that every front end shows the same words for the same problem.
#[derive(Debug, Clone, PartialEq, Eq)]
pub enum Error {
    /// The file system refused, with its own words.
    Io(String),
    /// The store file is not what it should be, with the parser's words.
    Json(String),
    /// A host or group name did not match anything.
    NotFound(String),
    /// Something the owner asked for contradicts the data.
    Invalid(String),
}

/// The words shown for an error.
pub open spec fn error_text(e: Error) -> Seq<char> {
    match e {
        Error::Io(m) => m@,
        Error::Json(m) => "hosts.json is corrupt: "@ + m@,
        Error::NotFound(m) => "not found: "@ + m@,
        Error::Invalid(m) => m@,
    }
}

impl Error {
    /// The words shown for this error.
    pub fn to_string(&self) -> (r: String)
        ensures
            r@ == error_text(*self),
    {
        match self {
            Error::Io(m) => m.clone(),
            Error::Json(m) => {
                let mut r: String = owned("hosts.json is corrupt: ");
                r.append(m.as_str());
                r
            },
            Error::NotFound(m) => {
                let mut r: String = owned("not found: ");
                r.append(m.as_str());
                r
            },
            Error::Invalid(m) => m.clone(),
        }
    }
}

pub type Result<T> = std::result::Result<T, Error>;

// ---------------------------------------------------------------------------
// One host
// ---------------------------------------------------------------------------

/// What is written for one address: a prefix for a single host is appended
/// when there is no prefix yet.
pub open spec fn entry(ip: Seq<char>) -> Seq<char> {
    if contains_char(ip, '/') {
        ip
    } else if contains_char(ip, ':') {
        ip + "/128"@
    } else {
        ip + "/32"@
    }
}

/// What is written for a list of addresses.
pub open spec fn entries(ips: Seq<Seq<char>>) -> Seq<Seq<char>> {
    Seq::new(ips.len(), |i: int| entry(ips[i]))
}

/// A host that nothing is known of but its target; one that is an address
/// is its own address.
pub open spec fn fresh_host(target: Seq<char>) -> HostView {
    HostView {
        target,
        groups: Seq::empty(),
        ips: if is_ip_or_network(target) {
            seq![target]
        } else {
            Seq::empty()
        },
        source: Source::Manual,
        error: None,
    }
}

impl Host {
    pub fn new(target: &str) -> (r: Self)
        ensures
            r@ == fresh_host(target@),
    {
        let mut ips: Vec<String> = Vec::new();
        if is_address(target) {
            ips.push(owned(target));
        }
        let r = Host {
            target: owned(target),
            groups: Vec::new(),
            ips,
            source: Source::Manual,
            error: None,
        };
        assert(r@.ips =~= fresh_host(target@).ips);
        assert(r@.groups =~= fresh_host(target@).groups);
        r
    }

    /// True when the target is an address or network and needs no
    /// resolution.
    pub fn is_literal_ip(&self) -> (r: bool)
        ensures
            r == is_ip_or_network(self@.target),
    {
        is_address(self.target.as_str())
    }

    /// What the table shows: the target when there is one, the first address
    /// otherwise.
    pub fn label(&self) -> (r: &str)
        ensures
            r@ == host_label(self@),
    {
        if self.target.as_str().is_empty() {
            if self.ips.len() > 0 {
                self.ips[0].as_str()
            } else {
                proof {
                    reveal_strlit("");
                    assert(""@ =~= Seq::<char>::empty());
                }
                ""
            }
        } else {
            self.target.as_str()
        }
    }

    /// The entries to write for this host. `/32` and `/128` are appended
    /// only when no prefix is given.
    pub fn allowed_entries(&self) -> (r: Vec<String>)
        ensures
            texts(r@) == entries(self@.ips),
    {
        let mut out: Vec<String> = Vec::new();
        let mut i: usize = 0;
        while i < self.ips.len()
            invariant
                i <= self.ips@.len(),
                out@.len() == i,
                forall|k: int| 0 <= k < i ==> (#[trigger] out@[k])@ == entry(self.ips@[k]@),
            decreases self.ips@.len() - i,
        {
            let mut e: String = self.ips[i].clone();
            if has_char(self.ips[i].as_str(), '/') {
            } else if has_char(self.ips[i].as_str(), ':') {
                e.append("/128");
            } else {
                e.append("/32");
            }
            out.push(e);
            i = i + 1;
        }
        assert(texts(out@) =~= entries(self@.ips));
        out
    }

    /// A host equal to this one.
    pub fn copy(&self) -> (r: Host)
        ensures
            r@ == self@,
    {
        Host {
            target: self.target.clone(),
            groups: copied(self.groups.as_slice()),
            ips: copied(self.ips.as_slice()),
            source: self.source,
            error: match &self.error {
                Some(e) => Some(e.clone()),
                None => None,
            },
        }
    }
}

/// What the table shows for a host.
pub open spec fn host_label(h: HostView) -> Seq<char> {
    if h.target.len() > 0 {
        h.target
    } else if h.ips.len() > 0 {
        h.ips[0]
    } else {
        Seq::empty()
    }
}

// ---------------------------------------------------------------------------
// The list
// ---------------------------------------------------------------------------

/// The position of the first host with that target, or the length of the
/// list when there is none.
pub open spec fn host_index(hosts: Seq<HostView>, target: Seq<char>) -> nat
    decreases hosts.len(),
{
    if hosts.len() == 0 || hosts[0].target == target {
        0
    } else {
        1 + host_index(hosts.drop_first(), target)
    }
}

pub proof fn lemma_host_index(hosts: Seq<HostView>, target: Seq<char>)
    ensures
        host_index(hosts, target) <= hosts.len(),
        host_index(hosts, target) < hosts.len() ==> hosts[host_index(
            hosts,
            target,
        ) as int].target == target,
        forall|k: int|
            0 <= k < host_index(hosts, target) ==> (#[trigger] hosts[k]).target != target,
    decreases hosts.len(),
{
    if hosts.len() > 0 && hosts[0].target != target {
        let d = hosts.drop_first();
        lemma_host_index(d, target);
        assert forall|k: int| 0 <= k < host_index(hosts, target) implies (
        #[trigger] hosts[k]).target != target by {
            if k > 0 {
                assert(d[k - 1] == hosts[k]);
            }
        }
    }
}

/// True when some host has that target.
pub open spec fn has_target(hosts: Seq<HostView>, target: Seq<char>) -> bool {
    host_index(hosts, target) < hosts.len()
}

/// A host after [`HostStore::add_host`] met it in the list: it gains the
/// groups, and one whose target is an address loses its error, and with no
/// error to lose, the target from its addresses.
pub open spec fn touched_host(h: HostView, groups: Seq<Seq<char>>) -> HostView {
    let h2 = HostView { groups: add_missing(h.groups, groups), ..h };
    if is_ip_or_network(h.target) {
        HostView {
            ips: if h.error is None {
                without(h.ips, h.target)
            } else {
                h.ips
            },
            error: None,
            ..h2
        }
    } else {
        h2
    }
}

/// The list after a host is added by its target.
pub open spec fn host_added(s: StoreView, target: Seq<char>, groups: Seq<Seq<char>>) -> StoreView {
    let t = trim(target);
    let i = host_index(s.hosts, t) as int;
    StoreView {
        groups: add_missing(s.groups, groups),
        hosts: if i < s.hosts.len() {
            s.hosts.update(i, touched_host(s.hosts[i], groups))
        } else {
            s.hosts.push(
                HostView {
                    target: t,
                    groups,
                    ips: Seq::empty(),
                    source: Source::Manual,
                    error: None,
                },
            )
        },
        ..s
    }
}

/// A host after it was given addresses: the target leaves its addresses,
/// the new groups and addresses come in, and the error goes.
pub open spec fn fed_host(
    h: HostView,
    ips: Seq<Seq<char>>,
    groups: Seq<Seq<char>>,
) -> HostView {
    HostView {
        groups: add_missing(h.groups, groups),
        ips: add_missing(without(h.ips, h.target), ips),
        error: None,
        ..h
    }
}

/// The list after a host is added together with its addresses.
pub open spec fn address_added(
    s: StoreView,
    target: Seq<char>,
    ips: Seq<Seq<char>>,
    groups: Seq<Seq<char>>,
) -> StoreView {
    let i = host_index(s.hosts, target) as int;
    StoreView {
        groups: add_missing(s.groups, groups),
        hosts: if i < s.hosts.len() {
            s.hosts.update(i, fed_host(s.hosts[i], ips, groups))
        } else {
            s.hosts.push(
                HostView {
                    target,
                    groups,
                    ips: unique(ips),
                    source: Source::Template,
                    error: None,
                },
            )
        },
        ..s
    }
}

/// The list after a host got another target: addresses of the other kind of
/// target do not carry over.
pub open spec fn renamed_host(h: HostView, to: Seq<char>) -> HostView {
    HostView {
        target: to,
        ips: if is_ip_or_network(h.target) == is_ip_or_network(to) {
            h.ips
        } else {
            Seq::empty()
        },
        error: None,
        ..h
    }
}

/// A host outside a group.
pub open spec fn ungrouped(h: HostView, group: Seq<char>) -> HostView {
    HostView { groups: without(h.groups, group), ..h }
}

/// The list without a group; the hosts stay.
pub open spec fn group_removed(s: StoreView, group: Seq<char>) -> StoreView {
    StoreView {
        groups: without(s.groups, group),
        hosts: Seq::new(s.hosts.len(), |i: int| ungrouped(s.hosts[i], group)),
        ..s
    }
}

/// The hosts of a group, in list order.
pub open spec fn members(hosts: Seq<HostView>, group: Seq<char>) -> Seq<HostView>
    decreases hosts.len(),
{
    if hosts.len() == 0 {
        Seq::empty()
    } else if hosts.last().groups.contains(group) {
        members(hosts.drop_last(), group).push(hosts.last())
    } else {
        members(hosts.drop_last(), group)
    }
}

/// The entries of every host, in list order.
pub open spec fn all_entries(hosts: Seq<HostView>) -> Seq<Seq<char>>
    decreases hosts.len(),
{
    if hosts.len() == 0 {
        Seq::empty()
    } else {
        all_entries(hosts.drop_last()) + entries(hosts.last().ips)
    }
}

/// The value for `AllowedIPs`: every entry of every host, without repeats.
pub open spec fn value(hosts: Seq<HostView>) -> Seq<char> {
    join(unique(all_entries(hosts)), ", "@)
}

/// True for a host whose target is a name with no address.
pub open spec fn is_unresolved(h: HostView) -> bool {
    !is_ip_or_network(h.target) && h.ips.len() == 0
}

/// The hosts that have to be resolved before the list can be applied.
pub open spec fn unresolved_hosts(hosts: Seq<HostView>) -> Seq<HostView>
    decreases hosts.len(),
{
    if hosts.len() == 0 {
        Seq::empty()
    } else if is_unresolved(hosts.last()) {
        unresolved_hosts(hosts.drop_last()).push(hosts.last())
    } else {
        unresolved_hosts(hosts.drop_last())
    }
}

/// The empty list.
pub open spec fn empty_store() -> StoreView {
    StoreView {
        version: 1,
        conf_dir: None,
        base_conf: None,
        groups: Seq::empty(),
        hosts: Seq::empty(),
        templates_updated: None,
    }
}

fn schema_version() -> (r: u32)
    ensures
        r == 1,
{
    1
}

impl Default for HostStore {
    fn default() -> (r: Self)
        ensures
            r@ == empty_store(),
    {
        let r = HostStore {
            version: schema_version(),
            conf_dir: None,
            base_conf: None,
            groups: Vec::new(),
            hosts: Vec::new(),
            templates_updated: None,
        };
        assert(r@ =~= empty_store());
        r
    }
}

impl HostStore {
    /// The position of the first host with that target, if there is one.
    pub fn position(&self, target: &str) -> (r: Option<usize>)
        ensures
            match r {
                Some(i) => i < self.hosts@.len() && i == host_index(self@.hosts, target@),
                None => !has_target(self@.hosts, target@),
            },
    {
        let mut i: usize = 0;
        assert(self@.hosts.skip(0) =~= self@.hosts);
        while i < self.hosts.len()
            invariant
                i <= self.hosts@.len() == self@.hosts.len(),
                host_index(self@.hosts, target@) == i + host_index(
                    self@.hosts.skip(i as int),
                    target@,
                ),
            decreases self.hosts@.len() - i,
        {
            assert(self@.hosts.skip(i as int)[0] == self.hosts@[i as int]@);
            if same(self.hosts[i].target.as_str(), target) {
                return Some(i);
            }
            assert(self@.hosts.skip(i as int).drop_first() =~= self@.hosts.skip(i + 1));
            i = i + 1;
        }
        None
    }

    /// Add a host by domain or address. A target already in the list is
    /// updated, gaining the new groups, rather than duplicated.
    ///
    /// The target is not put among the addresses, even when it is one: an
    /// address gets there through a resolve or [`HostStore::add_address`].
    pub fn add_host(&mut self, target: &str, groups: &[String]) -> (r: &mut Host)
        ensures
            ({
                let new = host_added(old(self)@, target@, texts(groups@));
                let i = host_index(old(self)@.hosts, trim(target@)) as int;
                &&& (*r)@ == new.hosts[i]
                &&& final(self)@ == (StoreView {
                    hosts: new.hosts.update(i, (*final(r))@),
                    ..new
                })
            }),
    {
        let target = trimmed(target);
        let address: bool = is_address(target.as_str());
        add_texts(&mut self.groups, groups);
        proof {
            lemma_host_index(self@.hosts, target@);
        }
        let i: usize = match self.position(target.as_str()) {
            Some(i) => {
                let h: &mut Host = &mut self.hosts[i];
                add_texts(&mut h.groups, groups);
                if address {
                    if h.error.is_none() {
                        remove_text(&mut h.ips, target.as_str());
                    }
                    h.error = None;
                }
                i
            },
            None => {
                let h = Host {
                    target,
                    groups: copied(groups),
                    ips: Vec::new(),
                    source: Source::Manual,
                    error: None,
                };
                self.hosts.push(h);
                self.hosts.len() - 1
            },
        };
        &mut self.hosts[i]
    }

    /// Add a host together with the addresses that belong to it.
    ///
    /// This is the door for data that arrives from somewhere else, where the
    /// addresses are the substance and the name is only a label for them.
    /// The name is never copied into the addresses, and one that was there
    /// leaves them. A host of the same name absorbs the addresses, and keeps
    /// the groups it had.
    pub fn add_address(&mut self, target: &str, ips: &[String], groups: &[String]) -> (r:
        &mut Host)
        ensures
            ({
                let new = address_added(old(self)@, target@, texts(ips@), texts(groups@));
                let i = host_index(old(self)@.hosts, target@) as int;
                &&& (*r)@ == new.hosts[i]
                &&& final(self)@ == (StoreView {
                    hosts: new.hosts.update(i, (*final(r))@),
                    ..new
                })
            }),
    {
        add_texts(&mut self.groups, groups);
        proof {
            lemma_host_index(self@.hosts, target@);
        }
        let i: usize = match self.position(target) {
            Some(i) => {
                let h: &mut Host = &mut self.hosts[i];
                remove_text(&mut h.ips, target);
                add_texts(&mut h.groups, groups);
                add_texts(&mut h.ips, ips);
                h.error = None;
                i
            },
            None => {
                let h = Host {
                    target: owned(target),
                    groups: copied(groups),
                    ips: uniqued(ips),
                    source: Source::Template,
                    error: None,
                };
                self.hosts.push(h);
                self.hosts.len() - 1
            },
        };
        &mut self.hosts[i]
    }

    /// Remove a host by its target.
    pub fn remove_host(&mut self, target: &str) -> (r: Result<Host>)
        ensures
            match r {
                Ok(h) => {
                    let i = host_index(old(self)@.hosts, target@) as int;
                    &&& has_target(old(self)@.hosts, target@)
                    &&& h@ == old(self)@.hosts[i]
                    &&& final(self)@ == (StoreView {
                        hosts: old(self)@.hosts.remove(i),
                        ..old(self)@
                    })
                },
                Err(e) => {
                    &&& !has_target(old(self)@.hosts, target@)
                    &&& e matches Error::NotFound(m) && m@ == target@
                    &&& *final(self) == *old(self)
                },
            },
    {
        match self.position(target) {
            Some(i) => {
                let h = self.hosts.remove(i);
                assert(self@.hosts =~= old(self)@.hosts.remove(i as int));
                Ok(h)
            },
            None => Err(Error::NotFound(owned(target))),
        }
    }

    /// Rename a host's target, refusing a name already taken.
    pub fn rename_host(&mut self, from: &str, to: &str) -> (r: Result<()>)
        ensures
            match r {
                Ok(_) => {
                    let i = host_index(old(self)@.hosts, from@) as int;
                    &&& !has_target(old(self)@.hosts, trim(to@))
                    &&& has_target(old(self)@.hosts, from@)
                    &&& final(self)@ == (StoreView {
                        hosts: old(self)@.hosts.update(
                            i,
                            renamed_host(old(self)@.hosts[i], trim(to@)),
                        ),
                        ..old(self)@
                    })
                },
                Err(Error::Invalid(m)) => {
                    &&& has_target(old(self)@.hosts, trim(to@))
                    &&& m@ == trim(to@) + " is already in the list"@
                    &&& *final(self) == *old(self)
                },
                Err(Error::NotFound(m)) => {
                    &&& !has_target(old(self)@.hosts, trim(to@))
                    &&& !has_target(old(self)@.hosts, from@)
                    &&& m@ == from@
                    &&& *final(self) == *old(self)
                },
                Err(_) => false,
            },
    {
        let to = trimmed(to);
        if self.position(to.as_str()).is_some() {
            let mut m: String = to;
            m.append(" is already in the list");
            return Err(Error::Invalid(m));
        }
        proof {
            lemma_host_index(self@.hosts, from@);
        }
        match self.position(from) {
            Some(i) => {
                let keeps: bool = self.hosts[i].is_literal_ip() == is_address(to.as_str());
                let h: &mut Host = &mut self.hosts[i];
                if !keeps {
                    h.ips.clear();
                    assert(texts(h.ips@) =~= Seq::<Seq<char>>::empty());
                }
                h.target = to;
                h.error = None;
                Ok(())
            },
            None => Err(Error::NotFound(owned(from))),
        }
    }

    /// Make a group known.
    pub fn ensure_group(&mut self, group: &str)
        ensures
            final(self)@ == (StoreView {
                groups: with_text(old(self)@.groups, group@),
                ..old(self)@
            }),
    {
        add_text(&mut self.groups, group);
    }

    /// Remove a group. Its hosts stay in the list, just ungrouped. Returns
    /// how many hosts were in it.
    pub fn remove_group(&mut self, group: &str) -> (r: Result<usize>)
        ensures
            match r {
                Ok(n) => {
                    &&& old(self)@.groups.contains(group@)
                    &&& n == members(old(self)@.hosts, group@).len()
                    &&& final(self)@ == group_removed(old(self)@, group@)
                },
                Err(e) => {
                    &&& !old(self)@.groups.contains(group@)
                    &&& e matches Error::NotFound(m) && m@ == "group "@ + group@
                    &&& *final(self) == *old(self)
                },
            },
    {
        if !has_member(self.groups.as_slice(), group) {
            let mut m: String = owned("group ");
            m.append(group);
            return Err(Error::NotFound(m));
        }
        remove_text(&mut self.groups, group);
        let mut touched: usize = 0;
        let mut i: usize = 0;
        let ghost before = old(self)@.hosts;
        while i < self.hosts.len()
            invariant
                before == old(self)@.hosts,
                i <= self.hosts@.len() == before.len(),
                touched <= i,
                touched == members(before.take(i as int), group@).len(),
                self@ == (StoreView {
                    groups: without(old(self)@.groups, group@),
                    hosts: self@.hosts,
                    ..old(self)@
                }),
                forall|k: int|
                    0 <= k < i ==> (#[trigger] self.hosts@[k])@ == ungrouped(before[k], group@),
                forall|k: int|
                    i <= k < before.len() ==> (#[trigger] self.hosts@[k])@ == before[k],
            decreases self.hosts@.len() - i,
        {
            proof {
                let upto = before.take(i + 1);
                assert(upto.drop_last() =~= before.take(i as int));
                assert(upto.last() == before[i as int]);
                assert(self.hosts@[i as int]@ == before[i as int]);
                lemma_without(before[i as int].groups, group@);
            }
            if has_member(self.hosts[i].groups.as_slice(), group) {
                let h: &mut Host = &mut self.hosts[i];
                remove_text(&mut h.groups, group);
                touched = touched + 1;
            }
            i = i + 1;
        }
        proof {
            assert(before.take(before.len() as int) =~= before);
            assert(self@.hosts =~= group_removed(old(self)@, group@).hosts);
        }
        Ok(touched)
    }

    /// Hosts in a group, in list order.
    pub fn hosts_in_group(&self, group: &str) -> (r: Vec<&Host>)
        ensures
            host_ref_views(r@) == members(self@.hosts, group@),
    {
        let mut out: Vec<&Host> = Vec::new();
        let mut i: usize = 0;
        assert(host_ref_views(out@) =~= Seq::<HostView>::empty());
        while i < self.hosts.len()
            invariant
                i <= self.hosts@.len() == self@.hosts.len(),
                host_ref_views(out@) == members(self@.hosts.take(i as int), group@),
            decreases self.hosts@.len() - i,
        {
            let ghost done = out@;
            let h: &Host = &self.hosts[i];
            proof {
                let upto = self@.hosts.take(i + 1);
                assert(upto.drop_last() =~= self@.hosts.take(i as int));
                assert(upto.last() == h@);
                assert(host_ref_views(done.push(h)) =~= host_ref_views(done).push(h@));
            }
            if has_member(h.groups.as_slice(), group) {
                out.push(h);
            }
            i = i + 1;
        }
        assert(self@.hosts.take(self@.hosts.len() as int) =~= self@.hosts);
        out
    }

    /// The entries of every host, in list order.
    pub fn entries(&self) -> (r: Vec<String>)
        ensures
            texts(r@) == all_entries(self@.hosts),
    {
        let mut out: Vec<String> = Vec::new();
        let mut i: usize = 0;
        assert(texts(out@) =~= Seq::<Seq<char>>::empty());
        while i < self.hosts.len()
            invariant
                i <= self.hosts@.len() == self@.hosts.len(),
                texts(out@) == all_entries(self@.hosts.take(i as int)),
            decreases self.hosts@.len() - i,
        {
            let ghost done = out@;
            let mut more = self.hosts[i].allowed_entries();
            proof {
                let upto = self@.hosts.take(i + 1);
                assert(upto.drop_last() =~= self@.hosts.take(i as int));
                assert(upto.last() == self.hosts@[i as int]@);
                assert(texts(done + more@) =~= texts(done) + texts(more@));
            }
            out.append(&mut more);
            i = i + 1;
        }
        assert(self@.hosts.take(self@.hosts.len() as int) =~= self@.hosts);
        out
    }

    /// The value for `AllowedIPs`: every address of every host, without
    /// repeats, in list order. A domain contributes all of its addresses,
    /// because a host on several of them has to be covered on each.
    pub fn allowed_ips_value(&self) -> (r: String)
        ensures
            r@ == value(self@.hosts),
    {
        let all = self.entries();
        let once = uniqued(all.as_slice());
        joined(once.as_slice(), ", ")
    }

    /// Hosts whose target is a domain with no cached address. They have to
    /// be resolved before the list is applied, or they never reach a config.
    pub fn unresolved(&self) -> (r: Vec<&Host>)
        ensures
            host_ref_views(r@) == unresolved_hosts(self@.hosts),
    {
        let mut out: Vec<&Host> = Vec::new();
        let mut i: usize = 0;
        assert(host_ref_views(out@) =~= Seq::<HostView>::empty());
        while i < self.hosts.len()
            invariant
                i <= self.hosts@.len() == self@.hosts.len(),
                host_ref_views(out@) == unresolved_hosts(self@.hosts.take(i as int)),
            decreases self.hosts@.len() - i,
        {
            let ghost done = out@;
            let h: &Host = &self.hosts[i];
            proof {
                let upto = self@.hosts.take(i + 1);
                assert(upto.drop_last() =~= self@.hosts.take(i as int));
                assert(upto.last() == h@);
                assert(host_ref_views(done.push(h)) =~= host_ref_views(done).push(h@));
            }
            if !h.is_literal_ip() && h.ips.len() == 0 {
                out.push(h);
            }
            i = i + 1;
        }
        assert(self@.hosts.take(self@.hosts.len() as int) =~= self@.hosts);
        out
    }
}

// ---------------------------------------------------------------------------
// Laws
// ---------------------------------------------------------------------------

/// True when no two hosts have the same target.
pub open spec fn distinct_targets(hosts: Seq<HostView>) -> bool {
    forall|i: int, j: int|
        0 <= i < j < hosts.len() ==> (#[trigger] hosts[i]).target != (#[trigger] hosts[j]).target
}

/// True when every group that a host is in is a known one.
pub open spec fn groups_known(s: StoreView) -> bool {
    forall|i: int, k: int|
        0 <= i < s.hosts.len() && 0 <= k < s.hosts[i].groups.len() ==> s.groups.contains(
            #[trigger] s.hosts[i].groups[k],
        )
}

/// True when `e` is what is written for an address of some host.
pub open spec fn is_entry_of(hosts: Seq<HostView>, e: Seq<char>) -> bool {
    exists|i: int, k: int|
        0 <= i < hosts.len() && 0 <= k < hosts[i].ips.len() && entry(
            #[trigger] hosts[i].ips[k],
        ) == e
}

/// The list never holds two hosts of one target: adding, with or without
/// addresses, removing, renaming and ungrouping all keep it so.
pub proof fn law_targets_stay_distinct(
    s: StoreView,
    target: Seq<char>,
    ips: Seq<Seq<char>>,
    groups: Seq<Seq<char>>,
    group: Seq<char>,
)
    requires
        distinct_targets(s.hosts),
    ensures
        distinct_targets(host_added(s, target, groups).hosts),
        distinct_targets(address_added(s, target, ips, groups).hosts),
        distinct_targets(group_removed(s, group).hosts),
        forall|i: int|
            0 <= i < s.hosts.len() ==> distinct_targets(#[trigger] s.hosts.remove(i)),
        forall|i: int, to: Seq<char>|
            0 <= i < s.hosts.len() && !has_target(s.hosts, to) ==> distinct_targets(
                #[trigger] s.hosts.update(i, renamed_host(s.hosts[i], to)),
            ),
{
    lemma_host_index(s.hosts, trim(target));
    lemma_host_index(s.hosts, target);
    assert forall|i: int, to: Seq<char>|
        0 <= i < s.hosts.len() && !has_target(s.hosts, to) implies distinct_targets(
        #[trigger] s.hosts.update(i, renamed_host(s.hosts[i], to)),
    ) by {
        lemma_host_index(s.hosts, to);
    }
}

/// The groups that hosts are in stay known: no operation leaves a host in a
/// group that the list does not name.
pub proof fn law_groups_stay_known(
    s: StoreView,
    target: Seq<char>,
    ips: Seq<Seq<char>>,
    groups: Seq<Seq<char>>,
    group: Seq<char>,
)
    requires
        groups_known(s),
    ensures
        groups_known(host_added(s, target, groups)),
        groups_known(address_added(s, target, ips, groups)),
        groups_known(group_removed(s, group)),
        forall|i: int|
            0 <= i < s.hosts.len() ==> groups_known(
                (StoreView { hosts: #[trigger] s.hosts.remove(i), ..s }),
            ),
        forall|i: int, to: Seq<char>|
            0 <= i < s.hosts.len() ==> groups_known(
                (StoreView {
                    hosts: #[trigger] s.hosts.update(i, renamed_host(s.hosts[i], to)),
                    ..s
                }),
            ),
{
    lemma_add_missing(s.groups, groups);
    lemma_known_after_feeding(s, host_added(s, target, groups), groups);
    lemma_host_index(s.hosts, target);
    lemma_known_after_feeding(s, address_added(s, target, ips, groups), groups);
    lemma_without(s.groups, group);
    let after = group_removed(s, group);
    assert forall|i: int, k: int|
        0 <= i < after.hosts.len() && 0 <= k < after.hosts[i].groups.len() implies
        after.groups.contains(#[trigger] after.hosts[i].groups[k]) by {
        let g = after.hosts[i].groups[k];
        lemma_without(s.hosts[i].groups, group);
        assert(after.hosts[i].groups.contains(g));
        assert(s.hosts[i].groups.contains(g));
        let j = choose|j: int| 0 <= j < s.hosts[i].groups.len() && s.hosts[i].groups[j] == g;
        assert(s.groups.contains(s.hosts[i].groups[j]));
    }
}

/// A host that was in the list, or was given no groups but the new ones, has
/// known groups once the new ones are known.
proof fn lemma_known_after_feeding(s: StoreView, after: StoreView, groups: Seq<Seq<char>>)
    requires
        groups_known(s),
        after.groups == add_missing(s.groups, groups),
        forall|i: int|
            0 <= i < after.hosts.len() ==> (#[trigger] after.hosts[i]).groups == groups || (i
                < s.hosts.len() && (after.hosts[i].groups == s.hosts[i].groups
                || after.hosts[i].groups == add_missing(s.hosts[i].groups, groups))),
    ensures
        groups_known(after),
{
    lemma_add_missing(s.groups, groups);
    assert forall|i: int, k: int|
        0 <= i < after.hosts.len() && 0 <= k < after.hosts[i].groups.len() implies
        after.groups.contains(#[trigger] after.hosts[i].groups[k]) by {
        let g = after.hosts[i].groups[k];
        assert(after.hosts[i].groups.contains(g));
        if after.hosts[i].groups == groups {
            assert(groups.contains(g));
        } else {
            lemma_add_missing(s.hosts[i].groups, groups);
            if !groups.contains(g) {
                assert(s.hosts[i].groups.contains(g));
                let j = choose|j: int|
                    0 <= j < s.hosts[i].groups.len() && s.hosts[i].groups[j] == g;
                assert(s.groups.contains(s.hosts[i].groups[j]));
            }
        }
    }
}

/// Adding a host again, or an import naming a host already there, makes no
/// second host of it.
pub proof fn law_adding_again_adds_no_host(
    s: StoreView,
    target: Seq<char>,
    ips: Seq<Seq<char>>,
    groups: Seq<Seq<char>>,
)
    ensures
        has_target(host_added(s, target, groups).hosts, trim(target)),
        has_target(address_added(s, target, ips, groups).hosts, target),
        has_target(s.hosts, trim(target)) ==> host_added(s, target, groups).hosts.len()
            == s.hosts.len(),
        has_target(s.hosts, target) ==> address_added(s, target, ips, groups).hosts.len()
            == s.hosts.len(),
{
    lemma_host_index(s.hosts, trim(target));
    lemma_host_index(s.hosts, target);
    let a = host_added(s, target, groups).hosts;
    let b = address_added(s, target, ips, groups).hosts;
    lemma_has_target(a, trim(target), host_index(s.hosts, trim(target)) as int);
    lemma_has_target(b, target, host_index(s.hosts, target) as int);
}

/// A host with that target is found.
pub proof fn lemma_has_target(hosts: Seq<HostView>, target: Seq<char>, i: int)
    requires
        0 <= i < hosts.len(),
        hosts[i].target == target,
    ensures
        has_target(hosts, target),
{
    lemma_host_index(hosts, target);
}

/// A label is never a route. A host added by its target has no address from
/// that, one whose target is an address and that is added again without an
/// error has none that is the target, and one that comes with addresses has
/// only those and what it had: its own target only where the addresses hold
/// it.
pub proof fn law_label_is_no_route(
    s: StoreView,
    target: Seq<char>,
    ips: Seq<Seq<char>>,
    groups: Seq<Seq<char>>,
)
    ensures
        ({
            let t = trim(target);
            let i = host_index(s.hosts, t) as int;
            let h = host_added(s, target, groups).hosts[i];
            &&& !has_target(s.hosts, t) ==> h.ips.len() == 0
            &&& has_target(s.hosts, t) && is_ip_or_network(t) && s.hosts[i].error is None
                ==> !h.ips.contains(t)
        }),
        ({
            let h = address_added(s, target, ips, groups).hosts[host_index(
                s.hosts,
                target,
            ) as int];
            h.ips.contains(target) <==> ips.contains(target)
        }),
{
    lemma_host_index(s.hosts, trim(target));
    lemma_host_index(s.hosts, target);
    let i = host_index(s.hosts, trim(target)) as int;
    let j = host_index(s.hosts, target) as int;
    if i < s.hosts.len() {
        lemma_without(s.hosts[i].ips, trim(target));
    }
    if j < s.hosts.len() {
        lemma_without(s.hosts[j].ips, target);
        lemma_add_missing(without(s.hosts[j].ips, target), ips);
    } else {
        lemma_add_missing(Seq::empty(), ips);
    }
}

/// The addresses that a host is given are its addresses afterwards, and of
/// those it had none is lost but one that is its own target.
pub proof fn law_given_addresses_are_kept(
    s: StoreView,
    target: Seq<char>,
    ips: Seq<Seq<char>>,
    groups: Seq<Seq<char>>,
)
    ensures
        ({
            let i = host_index(s.hosts, target) as int;
            let h = address_added(s, target, ips, groups).hosts[i];
            &&& h.target == target
            &&& h.error is None
            &&& forall|x: Seq<char>| ips.contains(x) ==> #[trigger] h.ips.contains(x)
            &&& i < s.hosts.len() ==> forall|x: Seq<char>|
                s.hosts[i].ips.contains(x) && x != target ==> #[trigger] h.ips.contains(x)
        }),
{
    lemma_host_index(s.hosts, target);
    let i = host_index(s.hosts, target) as int;
    if i < s.hosts.len() {
        lemma_without(s.hosts[i].ips, target);
        lemma_add_missing(without(s.hosts[i].ips, target), ips);
    } else {
        lemma_add_missing(Seq::empty(), ips);
    }
}

/// The entries of the list are those of its hosts' addresses.
pub proof fn lemma_all_entries(hosts: Seq<HostView>, e: Seq<char>)
    ensures
        all_entries(hosts).contains(e) <==> is_entry_of(hosts, e),
    decreases hosts.len(),
{
    if hosts.len() > 0 {
        let d = hosts.drop_last();
        let a = all_entries(d);
        let b = entries(hosts.last().ips);
        lemma_all_entries(d, e);
        if all_entries(hosts).contains(e) {
            let n = choose|n: int| 0 <= n < (a + b).len() && (a + b)[n] == e;
            if n < a.len() {
                assert(a[n] == e);
                let (i, k) = choose|i: int, k: int|
                    0 <= i < d.len() && 0 <= k < d[i].ips.len() && entry(
                        #[trigger] d[i].ips[k],
                    ) == e;
                assert(entry(hosts[i].ips[k]) == e);
            } else {
                let k = n - a.len();
                assert(b[k] == e);
                assert(entry(hosts[hosts.len() - 1].ips[k]) == e);
            }
        }
        if is_entry_of(hosts, e) {
            let (i, k) = choose|i: int, k: int|
                0 <= i < hosts.len() && 0 <= k < hosts[i].ips.len() && entry(
                    #[trigger] hosts[i].ips[k],
                ) == e;
            if i < d.len() {
                assert(entry(d[i].ips[k]) == e);
                let n = choose|n: int| 0 <= n < a.len() && a[n] == e;
                assert((a + b)[n] == e);
            } else {
                assert(b[k] == e);
                assert((a + b)[a.len() + k] == e);
            }
        }
    }
}

/// What is written is every address of every host, once: the entries that
/// the value joins are those of the hosts' addresses, all of them, no other,
/// and none twice.
pub proof fn law_value_is_every_address_once(hosts: Seq<HostView>)
    ensures
        unique(all_entries(hosts)).no_duplicates(),
        forall|e: Seq<char>| #[trigger]
            unique(all_entries(hosts)).contains(e) <==> is_entry_of(hosts, e),
{
    lemma_add_missing(Seq::empty(), all_entries(hosts));
    assert forall|e: Seq<char>| #[trigger]
        unique(all_entries(hosts)).contains(e) <==> is_entry_of(hosts, e) by {
        lemma_all_entries(hosts, e);
    }
}

/// Removing a group keeps every host with its addresses, so that the value
/// is what it was, and leaves no host in the group.
pub proof fn law_group_removal_keeps_routes(s: StoreView, group: Seq<char>)
    ensures
        group_removed(s, group).hosts.len() == s.hosts.len(),
        forall|i: int|
            0 <= i < s.hosts.len() ==> (#[trigger] group_removed(s, group).hosts[i]).target
                == s.hosts[i].target && group_removed(s, group).hosts[i].ips == s.hosts[i].ips,
        value(group_removed(s, group).hosts) == value(s.hosts),
        members(group_removed(s, group).hosts, group).len() == 0,
        !group_removed(s, group).groups.contains(group),
{
    lemma_without(s.groups, group);
    lemma_ungrouped(s.hosts, group_removed(s, group).hosts, group);
}

proof fn lemma_ungrouped(hosts: Seq<HostView>, after: Seq<HostView>, group: Seq<char>)
    requires
        after.len() == hosts.len(),
        forall|i: int|
            0 <= i < hosts.len() ==> #[trigger] after[i] == ungrouped(hosts[i], group),
    ensures
        all_entries(after) == all_entries(hosts),
        members(after, group).len() == 0,
    decreases hosts.len(),
{
    if hosts.len() > 0 {
        let n = hosts.len() - 1;
        assert forall|i: int| 0 <= i < n implies #[trigger] after.drop_last()[i] == ungrouped(
            hosts.drop_last()[i],
            group,
        ) by {
            assert(after[i] == ungrouped(hosts[i], group));
        }
        lemma_ungrouped(hosts.drop_last(), after.drop_last(), group);
        assert(after[n] == ungrouped(hosts[n], group));
        lemma_without(hosts[n].groups, group);
    }
}

/// An address is written with the prefix of one host of its family, a
/// network as it is; either way a network is written.
pub proof fn law_prefix_of_one_host(x: Seq<char>)
    ensures
        ip(x) matches Some(IpView::V4(_)) ==> entry(x) == x + "/32"@,
        ip(x) matches Some(IpView::V6(_)) ==> entry(x) == x + "/128"@,
        contains_char(x, '/') ==> entry(x) == x,
        is_ip_or_network(x) ==> is_ip_or_network(entry(x)),
        is_ip_or_network(x) ==> contains_char(entry(x), '/'),
{
    reveal_strlit("/32");
    reveal_strlit("/128");
    reveal_with_fuel(decimal, 3);
    if ip(x) is Some {
        law_colons_show_the_family(x);
        law_prefix_fits_the_family(x, 32);
        law_prefix_fits_the_family(x, 128);
        assert(x + "/32"@ =~= x + seq!['/'] + decimal(32));
        assert(x + "/128"@ =~= x + seq!['/'] + decimal(128));
        assert(entry(x)[x.len() as int] == '/');
    } else if is_ip_or_network(x) {
        let (a, b) = law_network_is_address_and_prefix(x);
        assert(x[a.len() as int] == '/');
    }
}

/// Of hosts with one target the first is the one that is found.
pub proof fn law_first_host_of_a_target(
    above: Seq<HostView>,
    h: HostView,
    below: Seq<HostView>,
    target: Seq<char>,
)
    requires
        forall|k: int| 0 <= k < above.len() ==> (#[trigger] above[k]).target != target,
    ensures
        h.target == target ==> host_index(above + seq![h] + below, target) == above.len(),
        host_index(above, target) == above.len(),
        !has_target(above, target),
        has_target(above + seq![h] + below, h.target),
{
    let all = above + seq![h] + below;
    lemma_host_index(above, target);
    lemma_host_index(all, target);
    lemma_host_index(all, h.target);
    assert(all[above.len() as int] == h);
    assert(forall|k: int| 0 <= k < above.len() ==> #[trigger] all[k] == above[k]);
}

/// The entries of a list are those of its hosts, one host after the other,
/// and those of a host are one for each of its addresses.
pub proof fn law_entries_follow_the_hosts(a: Seq<HostView>, b: Seq<HostView>, h: HostView)
    ensures
        all_entries(a + b) == all_entries(a) + all_entries(b),
        all_entries(seq![h]) == h.ips.map_values(|x: Seq<char>| entry(x)),
        all_entries(Seq::<HostView>::empty()).len() == 0,
    decreases b.len(),
{
    if b.len() == 0 {
        assert(a + b =~= a);
        assert(all_entries(a) + all_entries(b) =~= all_entries(a));
    } else {
        law_entries_follow_the_hosts(a, b.drop_last(), h);
        assert((a + b).drop_last() =~= a + b.drop_last());
        assert((a + b).last() == b.last());
        assert(all_entries(a + b) =~= all_entries(a) + all_entries(b));
    }
    reveal_with_fuel(all_entries, 2);
    assert(seq![h].drop_last() =~= Seq::<HostView>::empty());
    assert(seq![h].last() == h);
    assert(all_entries(seq![h]) =~= h.ips.map_values(|x: Seq<char>| entry(x)));
}

/// The value lists each entry once, where it comes up first.
pub proof fn law_value_keeps_the_order(hosts: Seq<HostView>)
    ensures
        exists|listed: Seq<Seq<char>>, at: Seq<int>| #[trigger]
            first_of_each(all_entries(hosts), listed, at) && value(hosts) == join(listed, ", "@),
{
    let all = all_entries(hosts);
    law_unique_keeps_the_first(all);
    let at = choose|at: Seq<int>| first_of_each(all, unique(all), at);
    assert(first_of_each(all, unique(all), at) && value(hosts) == join(unique(all), ", "@));
}

/// The hosts of a group are those that are in it, in list order, and the
/// unresolved ones those that are a name without an address.
pub proof fn law_chosen_hosts(hosts: Seq<HostView>, group: Seq<char>)
    ensures
        members(hosts, group) == hosts.filter(|h: HostView| h.groups.contains(group)),
        unresolved_hosts(hosts) == hosts.filter(
            |h: HostView| !is_ip_or_network(h.target) && h.ips.len() == 0,
        ),
    decreases hosts.len(),
{
    reveal(Seq::filter);
    if hosts.len() > 0 {
        law_chosen_hosts(hosts.drop_last(), group);
    } else {
        assert(members(hosts, group) =~= hosts);
        assert(unresolved_hosts(hosts) =~= hosts);
    }
}

/// Adding a host changes the groups and the hosts alone. The list gains the
/// groups. A target that is not in the list is put at its end, in those
/// groups and without addresses.
pub proof fn law_new_host_stands_last(s: StoreView, target: Seq<char>, groups: Seq<Seq<char>>)
    requires
        forall|k: int| 0 <= k < s.hosts.len() ==> (#[trigger] s.hosts[k]).target != trim(target),
    ensures
        host_added(s, target, groups) == (StoreView {
            groups: s.groups + unique(groups).filter(|x: Seq<char>| !s.groups.contains(x)),
            hosts: s.hosts.push(
                HostView {
                    target: trim(target),
                    groups,
                    ips: Seq::empty(),
                    source: Source::Manual,
                    error: None,
                },
            ),
            ..s
        }),
{
    lemma_host_index(s.hosts, trim(target));
    law_missing_texts_go_behind(s.groups, groups);
}

/// Adding a target that is in the list adds no host: the first host with the
/// target gains the groups, and every other host is as it was. A name keeps
/// its addresses and its error. An address loses its error; where it had
/// none, it is no longer among its own addresses.
pub proof fn law_known_host_gains_groups(
    s: StoreView,
    target: Seq<char>,
    groups: Seq<Seq<char>>,
    k: int,
)
    requires
        0 <= k < s.hosts.len(),
        s.hosts[k].target == trim(target),
        forall|j: int| 0 <= j < k ==> (#[trigger] s.hosts[j]).target != trim(target),
    ensures
        ({
            let after = host_added(s, target, groups);
            let h = s.hosts[k];
            let address = is_ip_or_network(h.target);
            after == (StoreView {
                groups: s.groups + unique(groups).filter(|x: Seq<char>| !s.groups.contains(x)),
                hosts: s.hosts.update(
                    k,
                    HostView {
                        target: h.target,
                        groups: h.groups + unique(groups).filter(
                            |x: Seq<char>| !h.groups.contains(x),
                        ),
                        ips: if address && h.error is None {
                            h.ips.filter(|x: Seq<char>| x != h.target)
                        } else {
                            h.ips
                        },
                        source: h.source,
                        error: if address {
                            None
                        } else {
                            h.error
                        },
                    },
                ),
                ..s
            })
        }),
{
    let h = s.hosts[k];
    lemma_host_index(s.hosts, trim(target));
    law_missing_texts_go_behind(s.groups, groups);
    law_missing_texts_go_behind(h.groups, groups);
    law_without_keeps_the_others(h.ips, h.target);
}

/// A host that is given addresses has them afterwards, each once and in
/// their order. A new one stands last. One that was there keeps its place,
/// its groups and its addresses, its target aside, and gains what it lacks;
/// its error is gone. Every other host is as it was.
pub proof fn law_addresses_are_taken_in(
    s: StoreView,
    target: Seq<char>,
    ips: Seq<Seq<char>>,
    groups: Seq<Seq<char>>,
    k: int,
)
    requires
        0 <= k <= s.hosts.len(),
        k < s.hosts.len() ==> s.hosts[k].target == target,
        forall|j: int| 0 <= j < k ==> (#[trigger] s.hosts[j]).target != target,
    ensures
        ({
            let after = address_added(s, target, ips, groups);
            let h = s.hosts[k];
            let own = h.ips.filter(|x: Seq<char>| x != target);
            &&& after == (StoreView {
                groups: s.groups + unique(groups).filter(|x: Seq<char>| !s.groups.contains(x)),
                hosts: after.hosts,
                ..s
            })
            &&& k < s.hosts.len() ==> after.hosts == s.hosts.update(
                k,
                HostView {
                    target,
                    groups: h.groups + unique(groups).filter(
                        |x: Seq<char>| !h.groups.contains(x),
                    ),
                    ips: own + unique(ips).filter(|x: Seq<char>| !own.contains(x)),
                    source: h.source,
                    error: None,
                },
            )
            &&& k == s.hosts.len() ==> {
                let new = after.hosts[k];
                &&& after.hosts == s.hosts.push(new)
                &&& new.target == target
                &&& new.groups == groups
                &&& new.source == Source::Template
                &&& new.error is None
                &&& exists|at: Seq<int>| first_of_each(ips, new.ips, at)
            }
        }),
{
    lemma_host_index(s.hosts, target);
    law_missing_texts_go_behind(s.groups, groups);
    if k < s.hosts.len() {
        let h = s.hosts[k];
        law_missing_texts_go_behind(h.groups, groups);
        let own = h.ips.filter(|x: Seq<char>| x != target);
        law_without_keeps_the_others(h.ips, target);
        law_missing_texts_go_behind(own, ips);
        assert(fed_host(h, ips, groups).ips == own + unique(ips).filter(
            |x: Seq<char>| !own.contains(x),
        ));
    } else {
        law_unique_keeps_the_first(ips);
        let new = address_added(s, target, ips, groups).hosts[k];
        assert(new.ips == unique(ips));
    }
}

/// A host that is renamed keeps its groups and where it came from. It keeps
/// its addresses too, as long as a name stays a name or an address an
/// address; otherwise it has none.
pub proof fn law_renamed_host_keeps_its_groups(h: HostView, to: Seq<char>)
    ensures
        ({
            let r = renamed_host(h, to);
            &&& r.target == to
            &&& r.groups == h.groups
            &&& r.source == h.source
            &&& r.error is None
            &&& is_ip_or_network(h.target) && is_ip_or_network(to) ==> r.ips == h.ips
            &&& !is_ip_or_network(h.target) && !is_ip_or_network(to) ==> r.ips == h.ips
            &&& is_ip_or_network(h.target) != is_ip_or_network(to) ==> r.ips.len() == 0
        }),
{
}

/// Removing a group takes it out of the list and out of every host, and
/// changes nothing else.
pub proof fn law_removed_group_is_gone(s: StoreView, group: Seq<char>, i: int)
    requires
        0 <= i < s.hosts.len(),
    ensures
        ({
            let after = group_removed(s, group);
            &&& after == (StoreView {
                groups: s.groups.filter(|x: Seq<char>| x != group),
                hosts: after.hosts,
                ..s
            })
            &&& after.hosts.len() == s.hosts.len()
            &&& after.hosts[i] == (HostView {
                groups: s.hosts[i].groups.filter(|x: Seq<char>| x != group),
                ..s.hosts[i]
            })
            &&& members(after.hosts, group).len() == 0
        }),
{
    let after = group_removed(s, group);
    law_without_keeps_the_others(s.groups, group);
    law_without_keeps_the_others(s.hosts[i].groups, group);
    assert forall|k: int| 0 <= k < after.hosts.len() implies !(
    #[trigger] after.hosts[k]).groups.contains(group) by {
        lemma_without(s.hosts[k].groups, group);
    }
    lemma_no_members(after.hosts, group);
}

proof fn lemma_no_members(hosts: Seq<HostView>, group: Seq<char>)
    requires
        forall|k: int| 0 <= k < hosts.len() ==> !(#[trigger] hosts[k]).groups.contains(group),
    ensures
        members(hosts, group).len() == 0,
    decreases hosts.len(),
{
    if hosts.len() > 0 {
        let d = hosts.drop_last();
        assert forall|k: int| 0 <= k < d.len() implies !(#[trigger] d[k]).groups.contains(
            group,
        ) by {
            assert(d[k] == hosts[k]);
        }
        lemma_no_members(d, group);
        assert(!hosts[hosts.len() - 1].groups.contains(group));
    }
}

/// A host that was just typed stands alone and was never looked up; where it
/// is an address, that is its address. The table shows its target.
pub proof fn law_fresh_host_is_its_target(target: Seq<char>)
    ensures
        ({
            let h = fresh_host(target);
            &&& h.target == target
            &&& h.groups.len() == 0
            &&& h.error is None
            &&& h.source == Source::Manual
            &&& is_ip_or_network(target) ==> h.ips == seq![target]
            &&& !is_ip_or_network(target) ==> h.ips.len() == 0
            &&& target.len() > 0 ==> host_label(h) == target
        }),
{
}

/// The table shows a host by its target, and one without a target by its
/// first address.
pub proof fn law_label_is_the_target(h: HostView)
    ensures
        h.target.len() > 0 ==> host_label(h) == h.target,
        h.target.len() == 0 && h.ips.len() > 0 ==> host_label(h) == h.ips[0],
        h.target.len() == 0 && h.ips.len() == 0 ==> host_label(h).len() == 0,
{
}

/// The empty list has no host, no group and no folder, and an empty value.
pub proof fn law_empty_list_has_nothing()
    ensures
        ({
            let s = empty_store();
            &&& s.hosts.len() == 0
            &&& s.groups.len() == 0
            &&& s.conf_dir is None
            &&& s.base_conf is None
            &&& s.templates_updated is None
            &&& value(s.hosts).len() == 0
        }),
{
    let none = Seq::<HostView>::empty();
    assert(empty_store().hosts =~= none);
    assert(all_entries(none) =~= Seq::<Seq<char>>::empty());
    assert(unique(all_entries(none)) =~= Seq::<Seq<char>>::empty());
}

} // verus!
