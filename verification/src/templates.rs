//! The catalog of known sites.
//!
//! A template is a named group of hosts that the owner can pull in by typing
//! a few letters. A catalog fetched from elsewhere replaces the built-in one
//! only when something in it can be used, and cannot take a built-in group
//! away.

use vstd::prelude::*;

use crate::address::is_ip_or_network;
use crate::hosts::{
    distinct_targets, has_target, host_added, host_index, lemma_has_target, lemma_host_index,
    touched_host, Host, HostStore, HostView, Source, StoreView,
};
use crate::list::{
    add_missing, copied, lemma_add_missing, lemma_add_nothing, lemma_without, with_text, without,
};
use crate::text::{
    contains, has_prefix, has_text, law_contains_is_in_the_middle, lowercase, lowered, occurs_at,
    owned, same, starts_with, texts, trim, trimmed,
};

verus! {

/// Where an update looks when no URL is given.
pub const DEFAULT_CATALOG_URL: &'static str =
    "https://ai.denizsincar.ru/pipelines/wireutils/templates.json";

/// The catalog file.
#[derive(Debug, Clone, PartialEq, Eq, Default)]
pub struct Catalog {
    pub version: u32,
    pub templates: Vec<Template>,
}

/// A named group of hosts.
#[derive(Debug, Clone, PartialEq, Eq, Default)]
pub struct Template {
    /// Group name, also the key typed in the search box.
    pub name: String,
    /// Words the search matches besides the name.
    pub keywords: Vec<String>,
    /// Domains to add.
    pub domains: Vec<String>,
    /// Addresses known to answer for this group, used when nothing can be
    /// resolved.
    pub ips: Vec<String>,
}

/// A [`Template`] as character sequences.
#[verifier::ext_equal]
pub struct TemplateView {
    pub name: Seq<char>,
    pub keywords: Seq<Seq<char>>,
    pub domains: Seq<Seq<char>>,
    pub ips: Seq<Seq<char>>,
}

impl View for Template {
    type V = TemplateView;

    open spec fn view(&self) -> TemplateView {
        TemplateView {
            name: self.name@,
            keywords: texts(self.keywords@),
            domains: texts(self.domains@),
            ips: texts(self.ips@),
        }
    }
}

/// The templates of a list, as character sequences.
pub open spec fn template_views(v: Seq<Template>) -> Seq<TemplateView> {
    Seq::new(v.len(), |i: int| v[i]@)
}

/// The templates behind a list of references.
pub open spec fn template_ref_views(v: Seq<&Template>) -> Seq<TemplateView> {
    Seq::new(v.len(), |i: int| v[i]@)
}

/// A [`Catalog`] as character sequences.
#[verifier::ext_equal]
pub struct CatalogView {
    pub version: u32,
    pub templates: Seq<TemplateView>,
}

impl View for Catalog {
    type V = CatalogView;

    open spec fn view(&self) -> CatalogView {
        CatalogView { version: self.version, templates: template_views(self.templates@) }
    }
}

/// The version of a catalog that names none.
pub fn catalog_version() -> (r: u32)
    ensures
        r == 1,
{
    1
}

// ---------------------------------------------------------------------------
// Searching
// ---------------------------------------------------------------------------

/// What a search string is compared as.
pub open spec fn needle_of(needle: Seq<char>) -> Seq<char> {
    lowercase(trim(needle))
}

/// True when `n` appears in the name or in a keyword, in lower case.
pub open spec fn mentions(t: TemplateView, n: Seq<char>) -> bool {
    contains(lowercase(t.name), n) || exists|i: int|
        0 <= i < t.keywords.len() && contains(lowercase(#[trigger] t.keywords[i]), n)
}

/// True when a template answers a search.
pub open spec fn answers(t: TemplateView, needle: Seq<char>) -> bool {
    needle_of(needle).len() == 0 || mentions(t, needle_of(needle))
}

/// How well a name fits what is searched for; 0 is best.
pub open spec fn fit(name: Seq<char>, n: Seq<char>) -> int {
    if lowercase(name) == n {
        0
    } else if starts_with(lowercase(name), n) {
        1
    } else if contains(lowercase(name), n) {
        2
    } else {
        3
    }
}

/// True for a template that answers a search and fits it that well.
pub open spec fn is_hit(t: TemplateView, needle: Seq<char>, rank: int) -> bool {
    answers(t, needle) && fit(t.name, needle_of(needle)) == rank
}

/// The templates that answer a search and fit it that well, in catalog
/// order.
pub open spec fn hits(
    templates: Seq<TemplateView>,
    needle: Seq<char>,
    rank: int,
) -> Seq<TemplateView>
    decreases templates.len(),
{
    if templates.len() == 0 {
        Seq::empty()
    } else if is_hit(templates.last(), needle, rank) {
        hits(templates.drop_last(), needle, rank).push(templates.last())
    } else {
        hits(templates.drop_last(), needle, rank)
    }
}

/// The templates that answer a search, best first, and in catalog order
/// where they fit equally well.
pub open spec fn found(templates: Seq<TemplateView>, needle: Seq<char>) -> Seq<TemplateView> {
    hits(templates, needle, 0) + hits(templates, needle, 1) + hits(templates, needle, 2) + hits(
        templates,
        needle,
        3,
    )
}

/// The position of the first template with that name, or the length of the
/// list when there is none.
pub open spec fn template_index(templates: Seq<TemplateView>, name: Seq<char>) -> nat
    decreases templates.len(),
{
    if templates.len() == 0 || templates[0].name == name {
        0
    } else {
        1 + template_index(templates.drop_first(), name)
    }
}

pub proof fn lemma_template_index(templates: Seq<TemplateView>, name: Seq<char>)
    ensures
        template_index(templates, name) <= templates.len(),
        template_index(templates, name) < templates.len() ==> templates[template_index(
            templates,
            name,
        ) as int].name == name,
        forall|k: int|
            0 <= k < template_index(templates, name) ==> (#[trigger] templates[k]).name != name,
    decreases templates.len(),
{
    if templates.len() > 0 && templates[0].name != name {
        let d = templates.drop_first();
        lemma_template_index(d, name);
        assert forall|k: int| 0 <= k < template_index(templates, name) implies (
        #[trigger] templates[k]).name != name by {
            if k > 0 {
                assert(d[k - 1] == templates[k]);
            }
        }
    }
}

impl Template {
    /// True when the search string appears in the name or a keyword. A blank
    /// one appears everywhere.
    pub fn matches(&self, needle: &str) -> (r: bool)
        ensures
            r == answers(self@, needle@),
            trim(needle@).len() == 0 ==> r,
    {
        let n = lowered(trimmed(needle).as_str());
        if n.as_str().is_empty() {
            return true;
        }
        if has_text(lowered(self.name.as_str()).as_str(), n.as_str()) {
            return true;
        }
        let mut i: usize = 0;
        while i < self.keywords.len()
            invariant
                i <= self.keywords@.len() == self@.keywords.len(),
                n@ == needle_of(needle@),
                forall|k: int|
                    0 <= k < i ==> !contains(lowercase(#[trigger] self@.keywords[k]), n@),
            decreases self.keywords@.len() - i,
        {
            assert(self@.keywords[i as int] == self.keywords@[i as int]@);
            if has_text(lowered(self.keywords[i].as_str()).as_str(), n.as_str()) {
                return true;
            }
            i = i + 1;
        }
        false
    }

    /// A template equal to this one.
    pub fn copy(&self) -> (r: Template)
        ensures
            r@ == self@,
    {
        Template {
            name: self.name.clone(),
            keywords: copied(self.keywords.as_slice()),
            domains: copied(self.domains.as_slice()),
            ips: copied(self.ips.as_slice()),
        }
    }
}

fn fit_of(name: &str, n: &str) -> (r: u8)
    ensures
        r == fit(name@, n@),
{
    let low = lowered(name);
    if same(low.as_str(), n) {
        0
    } else if has_prefix(low.as_str(), n) {
        1
    } else if has_text(low.as_str(), n) {
        2
    } else {
        3
    }
}

impl Catalog {
    fn hits_of(&self, needle: &str, n: &str, rank: u8) -> (r: Vec<&Template>)
        requires
            n@ == needle_of(needle@),
        ensures
            template_ref_views(r@) == hits(self@.templates, needle@, rank as int),
    {
        let mut out: Vec<&Template> = Vec::new();
        let mut i: usize = 0;
        let ghost all = self@.templates;
        assert(template_ref_views(out@) =~= Seq::<TemplateView>::empty());
        while i < self.templates.len()
            invariant
                n@ == needle_of(needle@),
                all == self@.templates,
                i <= self.templates@.len() == all.len(),
                template_ref_views(out@) == hits(all.take(i as int), needle@, rank as int),
            decreases self.templates@.len() - i,
        {
            let ghost done = out@;
            let t: &Template = &self.templates[i];
            proof {
                assert(all.take(i + 1).drop_last() =~= all.take(i as int));
                assert(all.take(i + 1).last() == t@);
                assert(template_ref_views(done.push(t)) =~= template_ref_views(done).push(t@));
            }
            if t.matches(needle) && fit_of(t.name.as_str(), n) == rank {
                out.push(t);
            }
            i = i + 1;
        }
        assert(all.take(all.len() as int) =~= all);
        out
    }

    /// Templates matching a search string, best match first: the name
    /// itself, then names that start with it, then names that contain it,
    /// then those found by a keyword.
    /// A blank search lists everything.
    pub fn search(&self, needle: &str) -> (r: Vec<&Template>)
        ensures
            template_ref_views(r@) == found(self@.templates, needle@),
            forall|t: TemplateView| #[trigger]
                template_ref_views(r@).contains(t) <==> self@.templates.contains(t) && answers(
                    t,
                    needle@,
                ),
            trim(needle@).len() == 0 ==> r@.len() == self@.templates.len(),
    {
        let n = lowered(trimmed(needle).as_str());
        let mut out = self.hits_of(needle, n.as_str(), 0);
        let mut next = self.hits_of(needle, n.as_str(), 1);
        let ghost a = template_ref_views(out@);
        let ghost b = template_ref_views(next@);
        out.append(&mut next);
        let mut next = self.hits_of(needle, n.as_str(), 2);
        let ghost c = template_ref_views(next@);
        out.append(&mut next);
        let mut next = self.hits_of(needle, n.as_str(), 3);
        let ghost d = template_ref_views(next@);
        out.append(&mut next);
        assert(template_ref_views(out@) =~= a + b + c + d);
        proof {
            law_search_is_ordered_and_complete(self@.templates, needle@);
            if trim(needle@).len() == 0 {
                assert(n@ =~= Seq::<char>::empty());
                law_empty_search_lists_everything(self@.templates, needle@);
            }
            assert(template_ref_views(out@).len() == out@.len());
        }
        out
    }

    /// The template of that name.
    pub fn get(&self, name: &str) -> (r: Option<&Template>)
        ensures
            ({
                let i = template_index(self@.templates, name@) as int;
                match r {
                    Some(t) => i < self@.templates.len() && t@ == self@.templates[i],
                    None => i >= self@.templates.len(),
                }
            }),
    {
        let mut i: usize = 0;
        let ghost all = self@.templates;
        assert(all.skip(0) =~= all);
        while i < self.templates.len()
            invariant
                all == self@.templates,
                i <= self.templates@.len() == all.len(),
                template_index(all, name@) == i + template_index(all.skip(i as int), name@),
            decreases self.templates@.len() - i,
        {
            assert(all.skip(i as int)[0] == self.templates@[i as int]@);
            if same(self.templates[i].name.as_str(), name) {
                return Some(&self.templates[i]);
            }
            assert(all.skip(i as int).drop_first() =~= all.skip(i + 1));
            i = i + 1;
        }
        None
    }
}

// ---------------------------------------------------------------------------
// Taking a template into the list
// ---------------------------------------------------------------------------

/// The list after one domain of a template was added to it.
pub open spec fn domain_added(s: StoreView, domain: Seq<char>, name: Seq<char>) -> StoreView {
    let new = host_added(s, domain, seq![name]);
    let i = host_index(s.hosts, trim(domain)) as int;
    StoreView {
        hosts: new.hosts.update(i, HostView { source: Source::Template, ..new.hosts[i] }),
        ..new
    }
}

/// The list after the domains of a template were added to it.
pub open spec fn domains_added(
    s: StoreView,
    domains: Seq<Seq<char>>,
    name: Seq<char>,
) -> StoreView
    decreases domains.len(),
{
    if domains.len() == 0 {
        s
    } else {
        domain_added(domains_added(s, domains.drop_last(), name), domains.last(), name)
    }
}

/// How many of the domains were no target when their turn came.
pub open spec fn new_domains(s: StoreView, domains: Seq<Seq<char>>, name: Seq<char>) -> nat
    decreases domains.len(),
{
    if domains.len() == 0 {
        0
    } else {
        let d = domains.drop_last();
        new_domains(s, d, name) + if has_target(domains_added(s, d, name).hosts, domains.last()) {
            0nat
        } else {
            1nat
        }
    }
}

/// The list after one host got the addresses that its template ships with,
/// if it had none.
pub open spec fn domain_seeded(s: StoreView, domain: Seq<char>, ips: Seq<Seq<char>>) -> StoreView {
    let i = host_index(s.hosts, domain) as int;
    if i < s.hosts.len() && s.hosts[i].ips.len() == 0 && !is_ip_or_network(domain) {
        StoreView { hosts: s.hosts.update(i, HostView { ips, ..s.hosts[i] }), ..s }
    } else {
        s
    }
}

/// The list after the hosts of a template got its addresses.
pub open spec fn domains_seeded(
    s: StoreView,
    domains: Seq<Seq<char>>,
    ips: Seq<Seq<char>>,
) -> StoreView
    decreases domains.len(),
{
    if domains.len() == 0 {
        s
    } else {
        domain_seeded(domains_seeded(s, domains.drop_last(), ips), domains.last(), ips)
    }
}

/// The list with a template's group.
pub open spec fn group_ensured(s: StoreView, name: Seq<char>) -> StoreView {
    StoreView { groups: with_text(s.groups, name), ..s }
}

/// The list after a template was taken into it.
pub open spec fn template_applied(s: StoreView, t: TemplateView) -> StoreView {
    domains_seeded(domains_added(group_ensured(s, t.name), t.domains, t.name), t.domains, t.ips)
}

fn add_domain(store: &mut HostStore, domain: &str, name: &str)
    ensures
        final(store)@ == domain_added(old(store)@, domain@, name@),
{
    let mut groups: Vec<String> = Vec::new();
    groups.push(owned(name));
    assert(texts(groups@) =~= seq![name@]);
    let host: &mut Host = store.add_host(domain, groups.as_slice());
    host.source = Source::Template;
}

fn seed_domain(store: &mut HostStore, domain: &str, ips: &[String])
    ensures
        final(store)@ == domain_seeded(old(store)@, domain@, texts(ips@)),
{
    match store.position(domain) {
        Some(i) => {
            proof {
                lemma_host_index(store@.hosts, domain@);
            }
            if store.hosts[i].ips.len() == 0 && !store.hosts[i].is_literal_ip() {
                let h: &mut Host = &mut store.hosts[i];
                h.ips = copied(ips);
            }
        },
        None => {},
    }
}

impl Catalog {
    /// Add a template's domains to the list as one group, seeding the
    /// addresses it ships with so that the site is covered offline too.
    /// Returns how many hosts were not in the list before.
    pub fn apply(&self, store: &mut HostStore, name: &str) -> (r: Result<usize, String>)
        ensures
            ({
                let i = template_index(self@.templates, name@) as int;
                match r {
                    Ok(n) => {
                        let t = self@.templates[i];
                        &&& i < self@.templates.len()
                        &&& final(store)@ == template_applied(old(store)@, t)
                        &&& n == new_domains(group_ensured(old(store)@, t.name), t.domains, t.name)
                    },
                    Err(e) => {
                        &&& i >= self@.templates.len()
                        &&& e@ == "no template named "@ + name@
                        &&& *final(store) == *old(store)
                    },
                }
            }),
    {
        let t: &Template = match self.get(name) {
            Some(t) => t,
            None => {
                let mut e: String = owned("no template named ");
                e.append(name);
                return Err(e);
            },
        };
        store.ensure_group(t.name.as_str());
        let mut added: usize = 0;
        let mut i: usize = 0;
        let ghost start = store@;
        let ghost all = t@.domains;
        while i < t.domains.len()
            invariant
                all == t@.domains,
                i <= t.domains@.len() == all.len(),
                added <= i,
                store@ == domains_added(start, all.take(i as int), t@.name),
                added == new_domains(start, all.take(i as int), t@.name),
            decreases t.domains@.len() - i,
        {
            proof {
                assert(all.take(i + 1).drop_last() =~= all.take(i as int));
                assert(all.take(i + 1).last() == t.domains@[i as int]@);
            }
            let known: bool = store.position(t.domains[i].as_str()).is_some();
            add_domain(store, t.domains[i].as_str(), t.name.as_str());
            if !known {
                added = added + 1;
            }
            i = i + 1;
        }
        assert(all.take(all.len() as int) =~= all);
        let ghost filled = store@;
        i = 0;
        while i < t.domains.len()
            invariant
                all == t@.domains,
                i <= t.domains@.len() == all.len(),
                store@ == domains_seeded(filled, all.take(i as int), t@.ips),
            decreases t.domains@.len() - i,
        {
            proof {
                assert(all.take(i + 1).drop_last() =~= all.take(i as int));
                assert(all.take(i + 1).last() == t.domains@[i as int]@);
            }
            seed_domain(store, t.domains[i].as_str(), t.ips.as_slice());
            i = i + 1;
        }
        Ok(added)
    }
}

// ---------------------------------------------------------------------------
// Updates
// ---------------------------------------------------------------------------

/// True for a template that has a name and something to add.
pub open spec fn usable(t: TemplateView) -> bool {
    trim(t.name).len() > 0 && t.domains.len() > 0
}

/// The templates of a list that can be used.
pub open spec fn usable_templates(templates: Seq<TemplateView>) -> Seq<TemplateView>
    decreases templates.len(),
{
    if templates.len() == 0 {
        Seq::empty()
    } else if usable(templates.last()) {
        usable_templates(templates.drop_last()).push(templates.last())
    } else {
        usable_templates(templates.drop_last())
    }
}

/// Sanity-check a catalog that was read, or was not. One that carries
/// nothing usable is refused, so that a good list is not replaced by an
/// empty one.
pub fn parse(decoded: Result<Catalog, String>) -> (r: Result<Catalog, String>)
    ensures
        match decoded {
            Ok(c) => {
                let kept = usable_templates(c@.templates);
                match r {
                    Ok(out) => kept.len() > 0 && out@ == (CatalogView {
                        templates: kept,
                        ..c@
                    }),
                    Err(e) => kept.len() == 0 && e@ == "catalog has no usable templates"@,
                }
            },
            Err(e) => r matches Err(out) && out@ == e@,
        },
{
    let catalog = match decoded {
        Ok(c) => c,
        Err(e) => {
            return Err(e);
        },
    };
    let mut kept: Vec<Template> = Vec::new();
    let mut i: usize = 0;
    let ghost all = catalog@.templates;
    assert(template_views(kept@) =~= Seq::<TemplateView>::empty());
    while i < catalog.templates.len()
        invariant
            all == catalog@.templates,
            i <= catalog.templates@.len() == all.len(),
            template_views(kept@) == usable_templates(all.take(i as int)),
        decreases catalog.templates@.len() - i,
    {
        let ghost done = kept@;
        let t: &Template = &catalog.templates[i];
        proof {
            assert(all.take(i + 1).drop_last() =~= all.take(i as int));
            assert(all.take(i + 1).last() == t@);
        }
        if !trimmed(t.name.as_str()).as_str().is_empty() && t.domains.len() > 0 {
            let c = t.copy();
            kept.push(c);
            assert(template_views(done.push(c)) =~= template_views(done).push(t@));
        }
        i = i + 1;
    }
    assert(all.take(all.len() as int) =~= all);
    if kept.len() == 0 {
        return Err(owned("catalog has no usable templates"));
    }
    Ok(Catalog { version: catalog.version, templates: kept })
}

/// True when a list has a template of that name.
pub open spec fn has_template(templates: Seq<TemplateView>, name: Seq<char>) -> bool {
    template_index(templates, name) < templates.len()
}

/// A list, then the templates of another whose names it lacks.
pub open spec fn completed(list: Seq<TemplateView>, more: Seq<TemplateView>) -> Seq<TemplateView>
    decreases more.len(),
{
    if more.len() == 0 {
        list
    } else {
        let done = completed(list, more.drop_last());
        if has_template(done, more.last().name) {
            done
        } else {
            done.push(more.last())
        }
    }
}

/// Merge an updated catalog with the built-in one: the updated one wins, but
/// the built-in templates it does not mention are kept, so that an update
/// can add and refine without being able to delete a group.
pub fn merge(updated: Catalog, builtin: Catalog) -> (r: Catalog)
    ensures
        r@ == (CatalogView {
            templates: completed(updated@.templates, builtin@.templates),
            ..updated@
        }),
{
    let mut out: Catalog = updated;
    let mut i: usize = 0;
    let ghost all = builtin@.templates;
    let ghost first = updated@.templates;
    while i < builtin.templates.len()
        invariant
            all == builtin@.templates,
            i <= builtin.templates@.len() == all.len(),
            out@.version == updated@.version,
            out@.templates == completed(first, all.take(i as int)),
        decreases builtin.templates@.len() - i,
    {
        let ghost done = out.templates@;
        let t: &Template = &builtin.templates[i];
        proof {
            assert(all.take(i + 1).drop_last() =~= all.take(i as int));
            assert(all.take(i + 1).last() == t@);
        }
        if out.get(t.name.as_str()).is_none() {
            let c = t.copy();
            out.templates.push(c);
            assert(template_views(done.push(c)) =~= template_views(done).push(t@));
        }
        i = i + 1;
    }
    assert(all.take(all.len() as int) =~= all);
    out
}

// ---------------------------------------------------------------------------
// Laws
// ---------------------------------------------------------------------------

/// True when `chosen` are the templates of `all` at the places `at`.
pub open spec fn stands_at(
    all: Seq<TemplateView>,
    chosen: Seq<TemplateView>,
    at: Seq<int>,
) -> bool {
    &&& at.len() == chosen.len()
    &&& forall|k: int|
        0 <= k < at.len() ==> 0 <= #[trigger] at[k] < all.len() && chosen[k] == all[at[k]]
}

/// The places in the catalog of the templates that are hits of one rank.
proof fn lemma_hits(templates: Seq<TemplateView>, needle: Seq<char>, rank: int) -> (at: Seq<int>)
    ensures
        stands_at(templates, hits(templates, needle, rank), at),
        forall|k: int, m: int| 0 <= k < m < at.len() ==> #[trigger] at[k] < #[trigger] at[m],
        forall|i: int|
            0 <= i < templates.len() ==> (is_hit(#[trigger] templates[i], needle, rank)
                <==> at.contains(i)),
    decreases templates.len(),
{
    if templates.len() == 0 {
        Seq::empty()
    } else {
        let n = templates.len() - 1;
        let d = templates.drop_last();
        let at = lemma_hits(d, needle, rank);
        let h = hits(d, needle, rank);
        let r = hits(templates, needle, rank);
        let all = if is_hit(templates[n], needle, rank) {
            at.push(n)
        } else {
            at
        };
        assert forall|k: int| 0 <= k < all.len() implies 0 <= #[trigger] all[k] < templates.len()
            && r[k] == templates[all[k]] by {
            if k < at.len() {
                assert(all[k] == at[k]);
                assert(0 <= at[k] < d.len() && h[k] == d[at[k]]);
            }
        }
        assert forall|k: int, m: int| 0 <= k < m < all.len() implies #[trigger] all[k]
            < #[trigger] all[m] by {
            assert(all[k] == at[k]);
            assert(0 <= at[k] < d.len());
            if m < at.len() {
                assert(at[k] < at[m]);
            }
        }
        assert forall|i: int| 0 <= i < templates.len() implies (is_hit(
            #[trigger] templates[i],
            needle,
            rank,
        ) <==> all.contains(i)) by {
            if i < n {
                assert(d[i] == templates[i]);
                if at.contains(i) {
                    let k = choose|k: int| 0 <= k < at.len() && at[k] == i;
                    assert(all[k] == i);
                }
                if all.contains(i) {
                    let k = choose|k: int| 0 <= k < all.len() && all[k] == i;
                    assert(at[k] == i);
                }
            } else if is_hit(templates[n], needle, rank) {
                assert(all[at.len() as int] == n);
            } else if all.contains(n) {
                let k = choose|k: int| 0 <= k < all.len() && all[k] == n;
                assert(0 <= at[k] < d.len());
            }
        }
        all
    }
}

/// True when the places `at` list the answers to a search: each template that
/// answers it, and no other, stands at one of them, none stands at two, none
/// comes before one that fits better, and those that fit equally well keep
/// the order of the catalog.
pub open spec fn lists_answers(
    templates: Seq<TemplateView>,
    needle: Seq<char>,
    at: Seq<int>,
) -> bool {
    &&& at.no_duplicates()
    &&& forall|i: int|
        0 <= i < templates.len() ==> (answers(#[trigger] templates[i], needle) <==> at.contains(i))
    &&& forall|k: int, m: int|
        0 <= k < m < at.len() ==> {
            let a = fit(templates[#[trigger] at[k]].name, needle_of(needle));
            let b = fit(templates[#[trigger] at[m]].name, needle_of(needle));
            a < b || (a == b && at[k] < at[m])
        }
}

/// A search gives each template of the catalog that answers it, and no other,
/// as often as the catalog has it; none before one that fits better, and in
/// catalog order where they fit equally well.
pub proof fn law_search_is_ordered_and_complete(templates: Seq<TemplateView>, needle: Seq<char>)
    ensures
        exists|at: Seq<int>| #[trigger]
            stands_at(templates, found(templates, needle), at) && lists_answers(
                templates,
                needle,
                at,
            ),
        forall|t: TemplateView| #[trigger]
            found(templates, needle).contains(t) <==> templates.contains(t) && answers(t, needle),
{
    let a = lemma_hits(templates, needle, 0);
    let b = lemma_hits(templates, needle, 1);
    let c = lemma_hits(templates, needle, 2);
    let d = lemma_hits(templates, needle, 3);
    let r = found(templates, needle);
    let at = a + b + c + d;
    let ab = a.len() + b.len();
    let abc = ab + c.len();
    let rank = |k: int|
        if k < a.len() {
            0int
        } else if k < ab {
            1
        } else if k < abc {
            2
        } else {
            3
        };
    assert forall|k: int| 0 <= k < at.len() implies {
        &&& 0 <= #[trigger] at[k] < templates.len()
        &&& r[k] == templates[at[k]]
        &&& is_hit(templates[at[k]], needle, rank(k))
    } by {
        if k < a.len() {
            assert(at[k] == a[k]);
            assert(a.contains(a[k]));
        } else if k < ab {
            assert(at[k] == b[k - a.len()]);
            assert(b.contains(b[k - a.len()]));
        } else if k < abc {
            assert(at[k] == c[k - ab]);
            assert(c.contains(c[k - ab]));
        } else {
            assert(at[k] == d[k - abc]);
            assert(d.contains(d[k - abc]));
        }
    }
    assert(stands_at(templates, r, at));
    assert forall|k: int, m: int| 0 <= k < m < at.len() implies {
        let x = fit(templates[#[trigger] at[k]].name, needle_of(needle));
        let y = fit(templates[#[trigger] at[m]].name, needle_of(needle));
        x < y || (x == y && at[k] < at[m])
    } by {
        assert(is_hit(templates[at[k]], needle, rank(k)));
        assert(is_hit(templates[at[m]], needle, rank(m)));
        if rank(k) == rank(m) {
            if m < a.len() {
                assert(a[k] < a[m]);
            } else if m < ab {
                assert(b[k - a.len()] < b[m - a.len()]);
            } else if m < abc {
                assert(c[k - ab] < c[m - ab]);
            } else {
                assert(d[k - abc] < d[m - abc]);
            }
        }
    }
    assert forall|i: int| 0 <= i < templates.len() implies (answers(
        #[trigger] templates[i],
        needle,
    ) <==> at.contains(i)) by {
        let t = templates[i];
        if answers(t, needle) {
            assert(is_hit(t, needle, fit(t.name, needle_of(needle))));
            if a.contains(i) {
                let k = choose|k: int| 0 <= k < a.len() && a[k] == i;
                assert(at[k] == i);
            } else if b.contains(i) {
                let k = choose|k: int| 0 <= k < b.len() && b[k] == i;
                assert(at[a.len() + k] == i);
            } else if c.contains(i) {
                let k = choose|k: int| 0 <= k < c.len() && c[k] == i;
                assert(at[ab + k] == i);
            } else {
                assert(d.contains(i));
                let k = choose|k: int| 0 <= k < d.len() && d[k] == i;
                assert(at[abc + k] == i);
            }
        }
        if at.contains(i) {
            let k = choose|k: int| 0 <= k < at.len() && at[k] == i;
            assert(is_hit(templates[at[k]], needle, rank(k)));
        }
    }
    assert(lists_answers(templates, needle, at));
    assert forall|t: TemplateView| #[trigger] r.contains(t) <==> templates.contains(t) && answers(
        t,
        needle,
    ) by {
        if r.contains(t) {
            let k = choose|k: int| 0 <= k < r.len() && r[k] == t;
            assert(is_hit(templates[at[k]], needle, rank(k)));
        }
        if templates.contains(t) && answers(t, needle) {
            let i = choose|i: int| 0 <= i < templates.len() && templates[i] == t;
            assert(at.contains(i));
            let k = choose|k: int| 0 <= k < at.len() && at[k] == i;
            assert(r[k] == t);
        }
    }
}

/// Where nothing is left of the search string, every template is found.
pub proof fn law_empty_search_lists_everything(templates: Seq<TemplateView>, needle: Seq<char>)
    requires
        needle_of(needle).len() == 0,
    ensures
        found(templates, needle).len() == templates.len(),
        forall|t: TemplateView| #[trigger]
            found(templates, needle).contains(t) <==> templates.contains(t),
{
    law_search_is_ordered_and_complete(templates, needle);
    lemma_hit_counts(templates, needle);
}

proof fn lemma_hit_counts(templates: Seq<TemplateView>, needle: Seq<char>)
    requires
        needle_of(needle).len() == 0,
    ensures
        found(templates, needle).len() == templates.len(),
    decreases templates.len(),
{
    if templates.len() > 0 {
        lemma_hit_counts(templates.drop_last(), needle);
        assert(answers(templates.last(), needle));
    }
}

/// An update cannot delete a group: the merged catalog starts with the
/// updated templates as they are, and has every name of either catalog.
pub proof fn law_merge_keeps_both(updated: Seq<TemplateView>, builtin: Seq<TemplateView>)
    ensures
        completed(updated, builtin).len() >= updated.len(),
        completed(updated, builtin).take(updated.len() as int) == updated,
        forall|i: int|
            0 <= i < builtin.len() ==> has_template(
                completed(updated, builtin),
                (#[trigger] builtin[i]).name,
            ),
        forall|name: Seq<char>| #[trigger]
            has_template(updated, name) ==> template_index(completed(updated, builtin), name)
                == template_index(updated, name),
    decreases builtin.len(),
{
    let r = completed(updated, builtin);
    if builtin.len() == 0 {
        assert(r.take(updated.len() as int) =~= updated);
    } else {
        let d = builtin.drop_last();
        let done = completed(updated, d);
        law_merge_keeps_both(updated, d);
        assert(r.take(updated.len() as int) =~= done.take(updated.len() as int));
        assert forall|i: int| 0 <= i < builtin.len() implies has_template(
            r,
            (#[trigger] builtin[i]).name,
        ) by {
            if i < d.len() {
                assert(has_template(done, d[i].name));
                assert(r.take(done.len() as int) =~= done);
                lemma_longer_list(done, r, d[i].name);
            } else {
                lemma_template_index(r, builtin[i].name);
                if !has_template(done, builtin[i].name) {
                    assert(r[done.len() as int].name == builtin[i].name);
                }
            }
        }
    }
    assert forall|name: Seq<char>| #[trigger] has_template(updated, name) implies template_index(
        r,
        name,
    ) == template_index(updated, name) by {
        lemma_longer_list(updated, r, name);
    }
}

proof fn lemma_longer_list(a: Seq<TemplateView>, b: Seq<TemplateView>, name: Seq<char>)
    requires
        a.len() <= b.len(),
        b.take(a.len() as int) == a,
        has_template(a, name),
    ensures
        template_index(b, name) == template_index(a, name),
{
    lemma_template_index(a, name);
    lemma_template_index(b, name);
    assert(forall|k: int| 0 <= k < a.len() ==> #[trigger] a[k] == b[k]);
    let i = template_index(a, name) as int;
    let j = template_index(b, name) as int;
    if j < i {
        assert(a[j].name == b[j].name);
    }
    if i < j {
        assert(b[i].name == a[i].name);
    }
}

proof fn lemma_domains_added(
    s: StoreView,
    domains: Seq<Seq<char>>,
    name: Seq<char>,
    target: Seq<char>,
)
    ensures
        has_target(s.hosts, target) ==> has_target(domains_added(s, domains, name).hosts, target),
        (exists|i: int| 0 <= i < domains.len() && trim(#[trigger] domains[i]) == target)
            ==> has_target(domains_added(s, domains, name).hosts, target),
    decreases domains.len(),
{
    if domains.len() > 0 {
        let d = domains.drop_last();
        let p = domains_added(s, d, name);
        let r = domains_added(s, domains, name);
        lemma_domains_added(s, d, name, target);
        lemma_host_index(p.hosts, trim(domains.last()));
        lemma_host_index(p.hosts, target);
        if has_target(p.hosts, target) {
            lemma_has_target(r.hosts, target, host_index(p.hosts, target) as int);
        }
        if exists|i: int| 0 <= i < domains.len() && trim(#[trigger] domains[i]) == target {
            let i = choose|i: int| 0 <= i < domains.len() && trim(#[trigger] domains[i]) == target;
            if i < d.len() {
                assert(trim(d[i]) == target);
            } else {
                lemma_has_target(r.hosts, target, host_index(p.hosts, target) as int);
            }
        }
    }
}

proof fn lemma_domains_seeded(
    s: StoreView,
    domains: Seq<Seq<char>>,
    ips: Seq<Seq<char>>,
)
    ensures
        domains_seeded(s, domains, ips).hosts.len() == s.hosts.len(),
        forall|i: int|
            0 <= i < s.hosts.len() ==> (#[trigger] domains_seeded(s, domains, ips).hosts[i]).target
                == s.hosts[i].target && (s.hosts[i].ips.len() > 0 ==> domains_seeded(
                s,
                domains,
                ips,
            ).hosts[i] == s.hosts[i]),
    decreases domains.len(),
{
    if domains.len() > 0 {
        lemma_domains_seeded(s, domains.drop_last(), ips);
    }
}

proof fn lemma_known_domains(s: StoreView, domains: Seq<Seq<char>>, name: Seq<char>)
    requires
        forall|i: int| 0 <= i < domains.len() ==> has_target(s.hosts, #[trigger] domains[i]),
    ensures
        new_domains(s, domains, name) == 0,
    decreases domains.len(),
{
    if domains.len() > 0 {
        let d = domains.drop_last();
        assert forall|i: int| 0 <= i < d.len() implies has_target(s.hosts, #[trigger] d[i]) by {
            assert(domains[i] == d[i]);
        }
        lemma_known_domains(s, d, name);
        assert(has_target(s.hosts, domains[domains.len() - 1]));
        lemma_domains_added(s, d, name, domains.last());
    }
}

/// Applying a template twice adds nothing the second time, where its domains
/// have no white space round them.
pub proof fn law_applying_twice_adds_none(s: StoreView, t: TemplateView)
    requires
        forall|i: int| 0 <= i < t.domains.len() ==> trim(#[trigger] t.domains[i]) == t.domains[i],
    ensures
        new_domains(group_ensured(template_applied(s, t), t.name), t.domains, t.name) == 0,
{
    let start = group_ensured(s, t.name);
    let filled = domains_added(start, t.domains, t.name);
    let once = template_applied(s, t);
    lemma_domains_seeded(filled, t.domains, t.ips);
    assert forall|i: int| 0 <= i < t.domains.len() implies has_target(
        once.hosts,
        #[trigger] t.domains[i],
    ) by {
        assert(trim(t.domains[i]) == t.domains[i]);
        lemma_domains_added(start, t.domains, t.name, t.domains[i]);
        lemma_host_index(filled.hosts, t.domains[i]);
        lemma_has_target(
            once.hosts,
            t.domains[i],
            host_index(filled.hosts, t.domains[i]) as int,
        );
    }
    lemma_known_domains(group_ensured(once, t.name), t.domains, t.name);
}

/// True when a host of that target is in a group and came from a template.
pub open spec fn is_template_host(
    hosts: Seq<HostView>,
    target: Seq<char>,
    group: Seq<char>,
) -> bool {
    let h = hosts[host_index(hosts, target) as int];
    has_target(hosts, target) && h.groups.contains(group) && h.source == Source::Template
}

/// True when the hosts of `before` stand in `after` at their places, as they
/// were unless their target is one of `domains`, and those whose target is a
/// name with the addresses that they had, if they had any. What comes behind
/// them are hosts of `domains`.
pub open spec fn keeps_hosts(
    before: Seq<HostView>,
    after: Seq<HostView>,
    domains: Seq<Seq<char>>,
) -> bool {
    &&& before.len() <= after.len()
    &&& forall|k: int|
        0 <= k < before.len() ==> {
            let b = before[k];
            let h = #[trigger] after[k];
            &&& h.target == b.target
            &&& !domains.contains(b.target) ==> h == b
            &&& b.ips.len() > 0 && !is_ip_or_network(b.target) ==> h.ips == b.ips
        }
    &&& forall|k: int|
        before.len() <= k < after.len() ==> domains.contains((#[trigger] after[k]).target)
}

proof fn lemma_domain_joins(s: StoreView, domain: Seq<char>, name: Seq<char>)
    requires
        trim(domain) == domain,
    ensures
        ({
            let r = domain_added(s, domain, name);
            &&& is_template_host(r.hosts, domain, name)
            &&& forall|x: Seq<char>| #[trigger]
                is_template_host(s.hosts, x, name) ==> is_template_host(r.hosts, x, name)
            &&& r.groups.contains(name)
            &&& keeps_hosts(s.hosts, r.hosts, seq![domain])
            &&& r.hosts.len() == s.hosts.len() + (if has_target(s.hosts, domain) {
                0int
            } else {
                1
            })
        }),
{
    let r = domain_added(s, domain, name);
    let i = host_index(s.hosts, domain) as int;
    lemma_host_index(s.hosts, domain);
    lemma_add_missing(s.groups, seq![name]);
    assert(seq![name][0] == name);
    assert(seq![name].contains(name));
    assert(seq![domain][0] == domain);
    assert(seq![domain].contains(domain));
    if i < s.hosts.len() {
        lemma_add_missing(s.hosts[i].groups, seq![name]);
    }
    lemma_index_stays(s.hosts, r.hosts, domain);
    assert forall|x: Seq<char>| #[trigger] is_template_host(
        s.hosts,
        x,
        name,
    ) implies is_template_host(r.hosts, x, name) by {
        lemma_host_index(s.hosts, x);
        lemma_index_stays(s.hosts, r.hosts, x);
    }
}

/// What is kept twice is kept.
proof fn lemma_keeps_hosts(
    a: Seq<HostView>,
    b: Seq<HostView>,
    c: Seq<HostView>,
    first: Seq<Seq<char>>,
    second: Seq<Seq<char>>,
    domains: Seq<Seq<char>>,
)
    requires
        keeps_hosts(a, b, first),
        keeps_hosts(b, c, second),
        forall|x: Seq<char>| #[trigger] first.contains(x) ==> domains.contains(x),
        forall|x: Seq<char>| #[trigger] second.contains(x) ==> domains.contains(x),
    ensures
        keeps_hosts(a, c, domains),
{
    assert forall|k: int| 0 <= k < a.len() implies {
        let h = #[trigger] c[k];
        &&& h.target == a[k].target
        &&& !domains.contains(a[k].target) ==> h == a[k]
        &&& a[k].ips.len() > 0 && !is_ip_or_network(a[k].target) ==> h.ips == a[k].ips
    } by {
        assert(b[k].target == a[k].target);
    }
    assert forall|k: int| a.len() <= k < c.len() implies domains.contains(
        (#[trigger] c[k]).target,
    ) by {
        if k < b.len() {
            assert(domains.contains(b[k].target));
        }
    }
}

proof fn lemma_domains_join(s: StoreView, domains: Seq<Seq<char>>, name: Seq<char>)
    requires
        forall|i: int| 0 <= i < domains.len() ==> trim(#[trigger] domains[i]) == domains[i],
    ensures
        forall|i: int|
            0 <= i < domains.len() ==> is_template_host(
                domains_added(s, domains, name).hosts,
                #[trigger] domains[i],
                name,
            ),
        s.groups.contains(name) ==> domains_added(s, domains, name).groups.contains(name),
    decreases domains.len(),
{
    if domains.len() > 0 {
        let d = domains.drop_last();
        let n = domains.len() - 1;
        assert forall|i: int| 0 <= i < d.len() implies trim(#[trigger] d[i]) == d[i] by {
            assert(d[i] == domains[i]);
        }
        lemma_domains_join(s, d, name);
        let p = domains_added(s, d, name);
        let r = domains_added(s, domains, name);
        assert(trim(domains[n]) == domains[n]);
        lemma_domain_joins(p, domains[n], name);
        assert forall|i: int| 0 <= i < domains.len() implies is_template_host(
            r.hosts,
            #[trigger] domains[i],
            name,
        ) by {
            if i < n {
                assert(is_template_host(p.hosts, d[i], name));
            }
        }
    }
}

proof fn lemma_adding_keeps(s: StoreView, domains: Seq<Seq<char>>, name: Seq<char>)
    requires
        forall|i: int| 0 <= i < domains.len() ==> trim(#[trigger] domains[i]) == domains[i],
    ensures
        keeps_hosts(s.hosts, domains_added(s, domains, name).hosts, domains),
        domains_added(s, domains, name).hosts.len() == s.hosts.len() + new_domains(
            s,
            domains,
            name,
        ),
    decreases domains.len(),
{
    if domains.len() > 0 {
        let d = domains.drop_last();
        let n = domains.len() - 1;
        let last = domains[n];
        assert forall|i: int| 0 <= i < d.len() implies trim(#[trigger] d[i]) == d[i] by {
            assert(d[i] == domains[i]);
        }
        lemma_adding_keeps(s, d, name);
        let p = domains_added(s, d, name);
        let r = domains_added(s, domains, name);
        assert(trim(last) == last);
        lemma_domain_joins(p, last, name);
        lemma_parts_of_list(domains);
        lemma_keeps_hosts(s.hosts, p.hosts, r.hosts, d, seq![last], domains);
    }
}

proof fn lemma_parts_of_list(list: Seq<Seq<char>>)
    requires
        list.len() > 0,
    ensures
        forall|x: Seq<char>| #[trigger] list.drop_last().contains(x) ==> list.contains(x),
        forall|x: Seq<char>| #[trigger] seq![list[list.len() - 1]].contains(x) ==> list.contains(x),
{
    let d = list.drop_last();
    assert forall|x: Seq<char>| #[trigger] d.contains(x) implies list.contains(x) by {
        let i = choose|i: int| 0 <= i < d.len() && d[i] == x;
        assert(list[i] == x);
    }
    assert forall|x: Seq<char>| #[trigger]
        seq![list[list.len() - 1]].contains(x) implies list.contains(x) by {
        assert(list[list.len() - 1] == x);
    }
}

proof fn lemma_seeding_keeps(
    s: StoreView,
    domains: Seq<Seq<char>>,
    ips: Seq<Seq<char>>,
    name: Seq<char>,
)
    ensures
        ({
            let r = domains_seeded(s, domains, ips);
            &&& forall|x: Seq<char>| #[trigger]
                is_template_host(s.hosts, x, name) ==> is_template_host(r.hosts, x, name)
            &&& r.groups == s.groups
            &&& keeps_hosts(s.hosts, r.hosts, domains)
            &&& r.hosts.len() == s.hosts.len()
        }),
    decreases domains.len(),
{
    if domains.len() > 0 {
        let d = domains.drop_last();
        let n = domains.len() - 1;
        let last = domains[n];
        lemma_seeding_keeps(s, d, ips, name);
        let p = domains_seeded(s, d, ips);
        let r = domains_seeded(s, domains, ips);
        lemma_host_index(p.hosts, last);
        assert forall|x: Seq<char>| #[trigger] is_template_host(
            p.hosts,
            x,
            name,
        ) implies is_template_host(r.hosts, x, name) by {
            lemma_host_index(p.hosts, x);
            lemma_index_stays(p.hosts, r.hosts, x);
        }
        assert(seq![last][0] == last);
        assert(keeps_hosts(p.hosts, r.hosts, seq![last]));
        lemma_parts_of_list(domains);
        lemma_keeps_hosts(s.hosts, p.hosts, r.hosts, d, seq![last], domains);
    }
}

/// A template whose domains have no white space round them comes into the
/// list as one group: the list knows the group, each domain is the target of
/// a host that is in it and comes from a template, and the list has grown by
/// as many hosts as are counted. Every other host is as it was and where it
/// was, and a name that had addresses keeps them.
pub proof fn law_template_becomes_a_group(s: StoreView, t: TemplateView)
    requires
        forall|i: int| 0 <= i < t.domains.len() ==> trim(#[trigger] t.domains[i]) == t.domains[i],
    ensures
        ({
            let after = template_applied(s, t);
            &&& after.groups.contains(t.name)
            &&& after.hosts.len() == s.hosts.len() + new_domains(
                group_ensured(s, t.name),
                t.domains,
                t.name,
            )
            &&& forall|i: int|
                0 <= i < t.domains.len() ==> is_template_host(
                    after.hosts,
                    #[trigger] t.domains[i],
                    t.name,
                )
            &&& keeps_hosts(s.hosts, after.hosts, t.domains)
        }),
{
    let start = group_ensured(s, t.name);
    let filled = domains_added(start, t.domains, t.name);
    let after = template_applied(s, t);
    assert(start.groups.contains(t.name)) by {
        if !s.groups.contains(t.name) {
            assert(start.groups[s.groups.len() as int] == t.name);
        }
    }
    lemma_domains_join(start, t.domains, t.name);
    lemma_adding_keeps(start, t.domains, t.name);
    lemma_seeding_keeps(filled, t.domains, t.ips, t.name);
    assert forall|i: int| 0 <= i < t.domains.len() implies is_template_host(
        after.hosts,
        #[trigger] t.domains[i],
        t.name,
    ) by {
        assert(is_template_host(filled.hosts, t.domains[i], t.name));
    }
    lemma_keeps_hosts(s.hosts, filled.hosts, after.hosts, t.domains, t.domains, t.domains);
}

/// True when adding the host of a domain again would not take its target out
/// of its addresses: it is no address, or it has no error to lose first, or
/// the target is not among them.
pub open spec fn is_calm(s: StoreView, domain: Seq<char>) -> bool {
    let h = s.hosts[host_index(s.hosts, domain) as int];
    is_ip_or_network(domain) && has_target(s.hosts, domain) ==> h.error is None || !h.ips.contains(
        domain,
    )
}

/// True when adding a domain of a template again would change nothing.
spec fn is_at_rest(s: StoreView, domain: Seq<char>, name: Seq<char>) -> bool {
    let h = s.hosts[host_index(s.hosts, domain) as int];
    &&& has_target(s.hosts, domain)
    &&& s.groups.contains(name)
    &&& h.groups.contains(name)
    &&& h.source == Source::Template
    &&& is_ip_or_network(domain) ==> h.error is None && !h.ips.contains(domain)
}

/// True when seeding a domain of a template would change nothing.
spec fn is_sown(s: StoreView, domain: Seq<char>, ips: Seq<Seq<char>>) -> bool {
    let h = s.hosts[host_index(s.hosts, domain) as int];
    has_target(s.hosts, domain) && h.ips.len() == 0 && !is_ip_or_network(domain) ==> ips.len() == 0
}

proof fn lemma_domain_at_rest(s: StoreView, domain: Seq<char>, name: Seq<char>)
    requires
        is_at_rest(s, domain, name),
        trim(domain) == domain,
    ensures
        domain_added(s, domain, name) == s,
{
    let i = host_index(s.hosts, domain) as int;
    let h = s.hosts[i];
    lemma_host_index(s.hosts, domain);
    lemma_add_nothing(s.groups, seq![name]);
    lemma_add_nothing(h.groups, seq![name]);
    lemma_without(h.ips, domain);
    assert(touched_host(h, seq![name]) =~= h);
    assert(domain_added(s, domain, name).hosts =~= s.hosts);
    assert(domain_added(s, domain, name) =~= s);
}

/// Where a host stands does not change when another is added or seeded.
proof fn lemma_index_stays(a: Seq<HostView>, b: Seq<HostView>, t: Seq<char>)
    requires
        b.len() >= a.len(),
        forall|k: int| 0 <= k < a.len() ==> (#[trigger] b[k]).target == a[k].target,
        has_target(a, t) || b.len() == a.len() || (b.len() == a.len() + 1
            && b[a.len() as int].target == t),
    ensures
        host_index(b, t) == host_index(a, t),
{
    lemma_host_index(a, t);
    lemma_host_index(b, t);
    let i = host_index(a, t) as int;
    let j = host_index(b, t) as int;
    if j < i {
        assert(a[j].target == b[j].target);
    }
    if i < j {
        assert(b[i].target == t);
    }
}

/// A domain that is added is at rest, and one that was at rest stays so.
proof fn lemma_domain_added(
    s: StoreView,
    added: Seq<char>,
    name: Seq<char>,
    domain: Seq<char>,
)
    requires
        trim(added) == added,
        is_calm(s, added),
        s.groups.contains(name),
    ensures
        is_at_rest(domain_added(s, added, name), added, name),
        is_at_rest(s, domain, name) ==> is_at_rest(domain_added(s, added, name), domain, name),
        is_calm(s, domain) ==> is_calm(domain_added(s, added, name), domain),
        domain_added(s, added, name).groups.contains(name),
{
    let r = domain_added(s, added, name);
    let i = host_index(s.hosts, added) as int;
    lemma_host_index(s.hosts, added);
    lemma_host_index(s.hosts, domain);
    lemma_host_index(r.hosts, domain);
    lemma_add_missing(s.groups, seq![name]);
    assert(seq![name][0] == name);
    assert(seq![name].contains(name));
    if i < s.hosts.len() {
        lemma_add_missing(s.hosts[i].groups, seq![name]);
        lemma_without(s.hosts[i].ips, added);
    }
    lemma_index_stays(s.hosts, r.hosts, added);
    if domain != added {
        if has_target(s.hosts, domain) {
            lemma_index_stays(s.hosts, r.hosts, domain);
        } else if has_target(r.hosts, domain) {
            let k = host_index(r.hosts, domain) as int;
            if k < s.hosts.len() {
                assert(s.hosts[k].target == domain);
                lemma_has_target(s.hosts, domain, k);
            }
        }
    }
}

proof fn lemma_domains_at_rest(s: StoreView, domains: Seq<Seq<char>>, name: Seq<char>)
    requires
        s.groups.contains(name),
        forall|i: int| 0 <= i < domains.len() ==> trim(#[trigger] domains[i]) == domains[i],
        forall|i: int| 0 <= i < domains.len() ==> is_calm(s, #[trigger] domains[i]),
    ensures
        domains_added(s, domains, name).groups.contains(name),
        forall|i: int|
            0 <= i < domains.len() ==> is_at_rest(
                domains_added(s, domains, name),
                #[trigger] domains[i],
                name,
            ),
        forall|x: Seq<char>| #[trigger]
            is_calm(s, x) ==> is_calm(domains_added(s, domains, name), x),
    decreases domains.len(),
{
    if domains.len() > 0 {
        let d = domains.drop_last();
        let n = domains.len() - 1;
        let last = domains[n];
        assert forall|i: int| 0 <= i < d.len() implies trim(#[trigger] d[i]) == d[i] by {
            assert(d[i] == domains[i]);
        }
        assert forall|i: int| 0 <= i < d.len() implies is_calm(s, #[trigger] d[i]) by {
            assert(d[i] == domains[i]);
        }
        lemma_domains_at_rest(s, d, name);
        let p = domains_added(s, d, name);
        let r = domains_added(s, domains, name);
        assert(trim(last) == last);
        assert(is_calm(s, last));
        lemma_domain_added(p, last, name, last);
        assert forall|i: int| 0 <= i < domains.len() implies is_at_rest(
            r,
            #[trigger] domains[i],
            name,
        ) by {
            if i < n {
                assert(is_at_rest(p, d[i], name));
                lemma_domain_added(p, last, name, d[i]);
            }
        }
        assert forall|x: Seq<char>| #[trigger] is_calm(s, x) implies is_calm(r, x) by {
            lemma_domain_added(p, last, name, x);
        }
    }
}

/// Seeding a domain settles it, and disturbs no other.
proof fn lemma_domain_seeded(
    s: StoreView,
    seeded: Seq<char>,
    ips: Seq<Seq<char>>,
    domain: Seq<char>,
    name: Seq<char>,
)
    ensures
        is_sown(domain_seeded(s, seeded, ips), seeded, ips),
        is_sown(s, domain, ips) ==> is_sown(domain_seeded(s, seeded, ips), domain, ips),
        is_at_rest(s, domain, name) ==> is_at_rest(domain_seeded(s, seeded, ips), domain, name),
        domain_seeded(s, seeded, ips).groups == s.groups,
{
    let r = domain_seeded(s, seeded, ips);
    lemma_host_index(s.hosts, seeded);
    lemma_host_index(s.hosts, domain);
    lemma_index_stays(s.hosts, r.hosts, seeded);
    lemma_index_stays(s.hosts, r.hosts, domain);
}

proof fn lemma_domains_sown(
    s: StoreView,
    domains: Seq<Seq<char>>,
    ips: Seq<Seq<char>>,
    name: Seq<char>,
)
    ensures
        domains_seeded(s, domains, ips).groups == s.groups,
        forall|i: int|
            0 <= i < domains.len() ==> is_sown(
                domains_seeded(s, domains, ips),
                #[trigger] domains[i],
                ips,
            ),
        forall|x: Seq<char>| #[trigger]
            is_at_rest(s, x, name) ==> is_at_rest(domains_seeded(s, domains, ips), x, name),
    decreases domains.len(),
{
    if domains.len() > 0 {
        let d = domains.drop_last();
        let n = domains.len() - 1;
        lemma_domains_sown(s, d, ips, name);
        let p = domains_seeded(s, d, ips);
        let r = domains_seeded(s, domains, ips);
        lemma_domain_seeded(p, domains[n], ips, domains[n], name);
        assert forall|i: int| 0 <= i < domains.len() implies is_sown(
            r,
            #[trigger] domains[i],
            ips,
        ) by {
            if i < n {
                assert(is_sown(p, d[i], ips));
                lemma_domain_seeded(p, domains[n], ips, d[i], name);
            }
        }
        assert forall|x: Seq<char>| #[trigger] is_at_rest(s, x, name) implies is_at_rest(
            r,
            x,
            name,
        ) by {
            lemma_domain_seeded(p, domains[n], ips, x, name);
        }
    }
}

proof fn lemma_applied_to_rest(
    s: StoreView,
    domains: Seq<Seq<char>>,
    name: Seq<char>,
    ips: Seq<Seq<char>>,
)
    requires
        forall|i: int| 0 <= i < domains.len() ==> trim(#[trigger] domains[i]) == domains[i],
        forall|i: int| 0 <= i < domains.len() ==> is_at_rest(s, #[trigger] domains[i], name),
        forall|i: int| 0 <= i < domains.len() ==> is_sown(s, #[trigger] domains[i], ips),
    ensures
        domains_added(s, domains, name) == s,
        domains_seeded(s, domains, ips) == s,
    decreases domains.len(),
{
    if domains.len() > 0 {
        let d = domains.drop_last();
        let last = domains[domains.len() - 1];
        assert forall|i: int| 0 <= i < d.len() implies trim(#[trigger] d[i]) == d[i] by {
            assert(d[i] == domains[i]);
        }
        assert forall|i: int| 0 <= i < d.len() implies is_at_rest(s, #[trigger] d[i], name) by {
            assert(d[i] == domains[i]);
        }
        assert forall|i: int| 0 <= i < d.len() implies is_sown(s, #[trigger] d[i], ips) by {
            assert(d[i] == domains[i]);
        }
        lemma_applied_to_rest(s, d, name, ips);
        assert(is_at_rest(s, last, name) && is_sown(s, last, ips) && trim(last) == last);
        lemma_domain_at_rest(s, last, name);
        let i = host_index(s.hosts, last) as int;
        let h = s.hosts[i];
        if h.ips.len() == 0 && !is_ip_or_network(last) {
            assert(h.ips =~= ips);
            assert(s.hosts.update(i, HostView { ips, ..h }) =~= s.hosts);
        }
        assert(domain_seeded(s, last, ips) =~= s);
    }
}

/// Applying a template a second time changes nothing, where its domains have
/// no white space round them and the list holds no host that is one of them,
/// is an address, has an error and lists its own target.
pub proof fn law_applying_twice_changes_nothing(s: StoreView, t: TemplateView)
    requires
        forall|i: int| 0 <= i < t.domains.len() ==> trim(#[trigger] t.domains[i]) == t.domains[i],
        forall|i: int| 0 <= i < t.domains.len() ==> is_calm(s, #[trigger] t.domains[i]),
    ensures
        template_applied(template_applied(s, t), t) == template_applied(s, t),
{
    let start = group_ensured(s, t.name);
    assert(start.groups.contains(t.name)) by {
        if !s.groups.contains(t.name) {
            assert(start.groups[s.groups.len() as int] == t.name);
        }
    }
    assert forall|i: int| 0 <= i < t.domains.len() implies is_calm(
        start,
        #[trigger] t.domains[i],
    ) by {
        assert(is_calm(s, t.domains[i]));
    }
    lemma_domains_at_rest(start, t.domains, t.name);
    let filled = domains_added(start, t.domains, t.name);
    lemma_domains_sown(filled, t.domains, t.ips, t.name);
    let once = template_applied(s, t);
    assert forall|i: int| 0 <= i < t.domains.len() implies is_at_rest(
        once,
        #[trigger] t.domains[i],
        t.name,
    ) by {
        assert(is_at_rest(filled, t.domains[i], t.name));
    }
    assert(group_ensured(once, t.name) =~= once);
    lemma_applied_to_rest(once, t.domains, t.name, t.ips);
}

/// The addresses that a template ships with are a fallback: a host that has
/// addresses once the domains are added keeps them.
pub proof fn law_seeding_overrides_nothing(s: StoreView, t: TemplateView, i: int)
    requires
        0 <= i < domains_added(group_ensured(s, t.name), t.domains, t.name).hosts.len(),
        domains_added(group_ensured(s, t.name), t.domains, t.name).hosts[i].ips.len() > 0,
    ensures
        template_applied(s, t).hosts[i] == domains_added(
            group_ensured(s, t.name),
            t.domains,
            t.name,
        ).hosts[i],
{
    lemma_domains_seeded(
        domains_added(group_ensured(s, t.name), t.domains, t.name),
        t.domains,
        t.ips,
    );
}

/// True when `n` stands in the lower-cased name or keyword `text` of a
/// template, behind `a` and before `b`.
pub open spec fn speaks_of(
    t: TemplateView,
    text: Seq<char>,
    a: Seq<char>,
    n: Seq<char>,
    b: Seq<char>,
) -> bool {
    (t.name == text || t.keywords.contains(text)) && lowercase(text) == a + n + b
}

proof fn lemma_speaks_of(t: TemplateView, needle: Seq<char>)
    ensures
        answers(t, needle) <==> exists|text: Seq<char>, a: Seq<char>, b: Seq<char>| #[trigger]
            speaks_of(t, text, a, lowercase(trim(needle)), b),
{
    let n = lowercase(trim(needle));
    if answers(t, needle) {
        if n.len() == 0 {
            assert(lowercase(t.name) =~= Seq::empty() + n + lowercase(t.name));
            assert(speaks_of(t, t.name, Seq::empty(), n, lowercase(t.name)));
        } else {
            let text = if contains(lowercase(t.name), n) {
                t.name
            } else {
                let i = choose|i: int|
                    0 <= i < t.keywords.len() && contains(lowercase(#[trigger] t.keywords[i]), n);
                t.keywords[i]
            };
            law_contains_is_in_the_middle(lowercase(text), n);
            let (a, b) = choose|a: Seq<char>, b: Seq<char>|
                lowercase(text) == #[trigger] (a + n + b);
            assert(speaks_of(t, text, a, n, b));
        }
    }
    if exists|text: Seq<char>, a: Seq<char>, b: Seq<char>| #[trigger] speaks_of(t, text, a, n, b) {
        let (text, a, b) = choose|text: Seq<char>, a: Seq<char>, b: Seq<char>| #[trigger]
            speaks_of(t, text, a, n, b);
        law_contains_is_in_the_middle(lowercase(text), n);
        assert(contains(lowercase(text), n));
        if t.name != text {
            let i = choose|i: int| 0 <= i < t.keywords.len() && t.keywords[i] == text;
            assert(contains(lowercase(t.keywords[i]), n));
        }
    }
}

/// A template is found wherever in its name or in one of its keywords the
/// search string stands, case and the white space round it aside.
pub proof fn law_search_finds_any_place(
    templates: Seq<TemplateView>,
    t: TemplateView,
    text: Seq<char>,
    needle: Seq<char>,
    a: Seq<char>,
    b: Seq<char>,
)
    requires
        templates.contains(t),
        t.name == text || t.keywords.contains(text),
        lowercase(text) == a + lowercase(trim(needle)) + b,
    ensures
        answers(t, needle),
        found(templates, needle).contains(t),
{
    law_search_is_ordered_and_complete(templates, needle);
    lemma_speaks_of(t, needle);
    assert(speaks_of(t, text, a, lowercase(trim(needle)), b));
}

/// True when a search gives a template with the name `x`, from the place `i`
/// of the catalog, before one with the name `y` from the place `j`: a name
/// that is what is searched for comes first, next one that starts with it,
/// next one that holds it, and like names keep the order of the catalog.
pub open spec fn goes_before(
    x: Seq<char>,
    y: Seq<char>,
    n: Seq<char>,
    i: int,
    j: int,
) -> bool {
    &&& y == n ==> x == n
    &&& n.is_prefix_of(y) ==> n.is_prefix_of(x)
    &&& contains(y, n) ==> contains(x, n)
    &&& (x == n <==> y == n) && (n.is_prefix_of(x) <==> n.is_prefix_of(y)) && (contains(x, n)
        <==> contains(y, n)) ==> i < j
}

proof fn lemma_starts_inside(x: Seq<char>, n: Seq<char>)
    ensures
        starts_with(x, n) <==> n.is_prefix_of(x),
        n.is_prefix_of(x) ==> contains(x, n),
        x == n ==> n.is_prefix_of(x),
{
    if n.is_prefix_of(x) {
        assert(x.subrange(0, n.len() as int) =~= n);
        assert(occurs_at(x, n, 0));
    }
}

proof fn lemma_goes_before(x: Seq<char>, y: Seq<char>, n: Seq<char>, i: int, j: int)
    requires
        fit(x, n) < fit(y, n) || (fit(x, n) == fit(y, n) && i < j),
    ensures
        goes_before(lowercase(x), lowercase(y), n, i, j),
{
    lemma_starts_inside(lowercase(x), n);
    lemma_starts_inside(lowercase(y), n);
}

/// True when a template mentions what is searched for.
pub open spec fn is_spoken_of(t: TemplateView, n: Seq<char>) -> bool {
    exists|text: Seq<char>, a: Seq<char>, b: Seq<char>| #[trigger] speaks_of(t, text, a, n, b)
}

/// True when the places `at` are, each once, those of the templates that
/// mention what is searched for, in the order of [`goes_before`].
pub open spec fn goes_by_name(
    templates: Seq<TemplateView>,
    n: Seq<char>,
    at: Seq<int>,
) -> bool {
    &&& at.no_duplicates()
    &&& forall|i: int|
        0 <= i < templates.len() ==> (#[trigger] at.contains(i) <==> is_spoken_of(templates[i], n))
    &&& forall|k: int, m: int|
        0 <= k < m < at.len() ==> goes_before(
            lowercase(templates[#[trigger] at[k]].name),
            lowercase(templates[#[trigger] at[m]].name),
            n,
            at[k],
            at[m],
        )
}

/// A search gives the templates of the catalog that mention what is searched
/// for, and no others, each once: those whose names fit better first, and
/// like names in the order of the catalog.
pub proof fn law_search_goes_by_name(templates: Seq<TemplateView>, needle: Seq<char>)
    ensures
        exists|at: Seq<int>| #[trigger]
            stands_at(templates, found(templates, needle), at) && goes_by_name(
                templates,
                lowercase(trim(needle)),
                at,
            ),
{
    let n = lowercase(trim(needle));
    law_search_is_ordered_and_complete(templates, needle);
    let at = choose|at: Seq<int>| #[trigger]
        stands_at(templates, found(templates, needle), at) && lists_answers(templates, needle, at);
    assert forall|i: int| 0 <= i < templates.len() implies (#[trigger] at.contains(i)
        <==> is_spoken_of(templates[i], n)) by {
        lemma_speaks_of(templates[i], needle);
        assert(answers(templates[i], needle) <==> at.contains(i));
    }
    assert forall|k: int, m: int| 0 <= k < m < at.len() implies goes_before(
        lowercase(templates[#[trigger] at[k]].name),
        lowercase(templates[#[trigger] at[m]].name),
        n,
        at[k],
        at[m],
    ) by {
        lemma_goes_before(templates[at[k]].name, templates[at[m]].name, n, at[k], at[m]);
    }
    assert(goes_by_name(templates, n, at));
}

/// Of templates with one name the first is the one that a catalog gives.
pub proof fn law_first_template_of_a_name(
    above: Seq<TemplateView>,
    t: TemplateView,
    below: Seq<TemplateView>,
    name: Seq<char>,
)
    requires
        forall|k: int| 0 <= k < above.len() ==> (#[trigger] above[k]).name != name,
    ensures
        t.name == name ==> template_index(above + seq![t] + below, name) == above.len(),
        template_index(above, name) == above.len(),
        has_template(above + seq![t] + below, t.name),
{
    let all = above + seq![t] + below;
    lemma_template_index(above, name);
    lemma_template_index(all, name);
    lemma_template_index(all, t.name);
    assert(all[above.len() as int] == t);
    assert(forall|k: int| 0 <= k < above.len() ==> #[trigger] all[k] == above[k]);
}

/// A catalog that was read keeps the templates that have a name and a
/// domain, in their order.
pub proof fn law_usable_templates_are_kept(templates: Seq<TemplateView>)
    ensures
        usable_templates(templates) == templates.filter(
            |t: TemplateView| trim(t.name).len() > 0 && t.domains.len() > 0,
        ),
    decreases templates.len(),
{
    reveal(Seq::filter);
    if templates.len() > 0 {
        law_usable_templates_are_kept(templates.drop_last());
    } else {
        assert(usable_templates(templates) =~= templates);
    }
}

/// True when no template of a list has that name.
pub open spec fn lacks_name(list: Seq<TemplateView>, name: Seq<char>) -> bool {
    forall|k: int| 0 <= k < list.len() ==> (#[trigger] list[k]).name != name
}

/// True when `more` are, in their order, the built-in templates whose names
/// come up for the first time; `at` gives their places.
pub open spec fn adds_new_names(
    updated: Seq<TemplateView>,
    builtin: Seq<TemplateView>,
    more: Seq<TemplateView>,
    at: Seq<int>,
) -> bool {
    &&& stands_at(builtin, more, at)
    &&& forall|k: int, m: int| 0 <= k < m < at.len() ==> #[trigger] at[k] < #[trigger] at[m]
    &&& forall|i: int|
        0 <= i < builtin.len() ==> (#[trigger] at.contains(i) <==> lacks_name(
            updated,
            builtin[i].name,
        ) && lacks_name(builtin.take(i), builtin[i].name))
}

proof fn lemma_completed(updated: Seq<TemplateView>, builtin: Seq<TemplateView>) -> (at: Seq<int>)
    ensures
        completed(updated, builtin).len() >= updated.len(),
        completed(updated, builtin).take(updated.len() as int) == updated,
        adds_new_names(
            updated,
            builtin,
            completed(updated, builtin).skip(updated.len() as int),
            at,
        ),
        forall|name: Seq<char>| #[trigger]
            lacks_name(completed(updated, builtin), name) <==> lacks_name(updated, name)
                && lacks_name(builtin, name),
    decreases builtin.len(),
{
    let r = completed(updated, builtin);
    let len = updated.len() as int;
    if builtin.len() == 0 {
        assert(r.take(len) =~= updated);
        Seq::empty()
    } else {
        let n = builtin.len() - 1;
        let d = builtin.drop_last();
        let t = builtin[n];
        let at = lemma_completed(updated, d);
        let done = completed(updated, d);
        lemma_template_index(done, t.name);
        assert(has_template(done, t.name) <==> !lacks_name(done, t.name)) by {
            if has_template(done, t.name) {
                assert(done[template_index(done, t.name) as int].name == t.name);
            }
        }
        assert(d =~= builtin.take(n));
        let more = if has_template(done, t.name) {
            at
        } else {
            at.push(n)
        };
        assert(r.take(len) =~= done.take(len));
        let added = r.skip(len);
        let was = done.skip(len);
        assert forall|k: int| 0 <= k < more.len() implies 0 <= #[trigger] more[k] < builtin.len()
            && added[k] == builtin[more[k]] by {
            if k < at.len() {
                assert(more[k] == at[k]);
                assert(was[k] == d[at[k]]);
                assert(added[k] == was[k]);
            }
        }
        assert forall|k: int, m: int| 0 <= k < m < more.len() implies #[trigger] more[k]
            < #[trigger] more[m] by {
            assert(more[k] == at[k]);
            assert(0 <= at[k] < d.len());
            if m < at.len() {
                assert(at[k] < at[m]);
            }
        }
        assert forall|i: int| 0 <= i < builtin.len() implies (#[trigger] more.contains(i)
            <==> lacks_name(updated, builtin[i].name) && lacks_name(
            builtin.take(i),
            builtin[i].name,
        )) by {
            if i < n {
                assert(at.contains(i) <==> lacks_name(updated, d[i].name) && lacks_name(
                    d.take(i),
                    d[i].name,
                ));
                assert(d.take(i) =~= builtin.take(i));
                if at.contains(i) {
                    let k = choose|k: int| 0 <= k < at.len() && at[k] == i;
                    assert(more[k] == i);
                }
                if more.contains(i) {
                    let k = choose|k: int| 0 <= k < more.len() && more[k] == i;
                    assert(at[k] == i);
                }
            } else {
                if more.contains(n) {
                    let k = choose|k: int| 0 <= k < more.len() && more[k] == n;
                    if k < at.len() {
                        assert(at[k] < d.len());
                    }
                }
                if !has_template(done, t.name) {
                    assert(more[at.len() as int] == n);
                }
            }
        }
        assert forall|name: Seq<char>| #[trigger] lacks_name(r, name) <==> lacks_name(updated, name)
            && lacks_name(builtin, name) by {
            assert(forall|k: int| 0 <= k < d.len() ==> #[trigger] builtin[k] == d[k]);
            assert(forall|k: int| 0 <= k < d.len() ==> #[trigger] d[k] == builtin[k]);
            assert(forall|k: int| 0 <= k < done.len() ==> #[trigger] r[k] == done[k]);
            assert(forall|k: int| 0 <= k < done.len() ==> #[trigger] done[k] == r[k]);
            assert(lacks_name(builtin, name) <==> lacks_name(d, name) && t.name != name);
            if has_template(done, t.name) {
                assert(lacks_name(done, name) ==> t.name != name);
            } else {
                assert(r[done.len() as int] == t);
                assert(lacks_name(r, name) <==> lacks_name(done, name) && t.name != name);
            }
        }
        more
    }
}

/// The merged catalog is the updated one, followed by the built-in templates
/// whose names come up for the first time, as they are and in their order.
pub proof fn law_merge_adds_new_names(updated: Seq<TemplateView>, builtin: Seq<TemplateView>)
    ensures
        ({
            let r = completed(updated, builtin);
            let more = r.skip(updated.len() as int);
            &&& r == updated + more
            &&& exists|at: Seq<int>| adds_new_names(updated, builtin, more, at)
        }),
{
    let at = lemma_completed(updated, builtin);
    let r = completed(updated, builtin);
    let more = r.skip(updated.len() as int);
    assert(r =~= r.take(updated.len() as int) + more);
    assert(adds_new_names(updated, builtin, more, at));
}

/// True when a list grew by hosts of a group: a host that was there has its
/// target and groups, and besides at most the group, and as a name its
/// addresses and its error; a new one has a new target, is in the group
/// alone and comes from a template.
pub open spec fn grew(before: Seq<HostView>, after: Seq<HostView>, group: Seq<char>) -> bool {
    &&& before.len() <= after.len()
    &&& forall|k: int|
        0 <= k < before.len() ==> {
            let b = before[k];
            let h = #[trigger] after[k];
            &&& h.target == b.target
            &&& h.groups == b.groups || (!b.groups.contains(group) && h.groups == b.groups.push(
                group,
            ))
            &&& !is_ip_or_network(b.target) ==> h.ips == b.ips && h.error == b.error
        }
    &&& forall|k: int|
        before.len() <= k < after.len() ==> {
            let h = #[trigger] after[k];
            h.groups == seq![group] && h.source == Source::Template && h.error is None
                && h.ips.len() == 0
        }
    &&& forall|j: int, k: int|
        0 <= j < k && before.len() <= k < after.len() ==> (#[trigger] after[j]).target != (
        #[trigger] after[k]).target
}

proof fn lemma_one_more(list: Seq<Seq<char>>, x: Seq<char>)
    ensures
        add_missing(list, seq![x]) == (if list.contains(x) {
            list
        } else {
            list.push(x)
        }),
{
    reveal_with_fuel(add_missing, 2);
    assert(seq![x].drop_last() =~= Seq::<Seq<char>>::empty());
    assert(seq![x].last() == x);
}

proof fn lemma_grew_once(s: StoreView, domain: Seq<char>, name: Seq<char>)
    requires
        trim(domain) == domain,
    ensures
        ({
            let r = domain_added(s, domain, name);
            let i = host_index(s.hosts, domain) as int;
            &&& s.hosts.len() <= r.hosts.len()
            &&& forall|k: int|
                0 <= k < s.hosts.len() && k != i ==> #[trigger] r.hosts[k] == s.hosts[k]
            &&& i < s.hosts.len() ==> r.hosts.len() == s.hosts.len() && r.hosts[i].groups == (
            if s.hosts[i].groups.contains(name) {
                s.hosts[i].groups
            } else {
                s.hosts[i].groups.push(name)
            }) && r.hosts[i].target == domain && (!is_ip_or_network(domain) ==> r.hosts[i].ips
                == s.hosts[i].ips && r.hosts[i].error == s.hosts[i].error) && r.hosts[i].source
                == Source::Template && (s.hosts[i].ips.len() == 0 ==> r.hosts[i].ips.len() == 0)
                && (s.hosts[i].error is None ==> r.hosts[i].error is None)
            &&& i >= s.hosts.len() ==> r.hosts == s.hosts.push(
                HostView {
                    target: domain,
                    groups: seq![name],
                    ips: Seq::empty(),
                    source: Source::Template,
                    error: None,
                },
            )
            &&& r == (StoreView {
                hosts: r.hosts,
                groups: if s.groups.contains(name) {
                    s.groups
                } else {
                    s.groups.push(name)
                },
                ..s
            })
        }),
{
    let r = domain_added(s, domain, name);
    let i = host_index(s.hosts, domain) as int;
    lemma_host_index(s.hosts, domain);
    lemma_one_more(s.groups, name);
    if i < s.hosts.len() {
        lemma_one_more(s.hosts[i].groups, name);
        lemma_without(s.hosts[i].ips, domain);
        if s.hosts[i].ips.len() == 0 {
            assert(without(s.hosts[i].ips, domain).len() == 0);
        }
    } else {
        assert(r.hosts =~= s.hosts.push(
            HostView {
                target: domain,
                groups: seq![name],
                ips: Seq::empty(),
                source: Source::Template,
                error: None,
            },
        ));
    }
}

proof fn lemma_grew(s: StoreView, domains: Seq<Seq<char>>, name: Seq<char>)
    requires
        s.groups.contains(name),
        forall|i: int| 0 <= i < domains.len() ==> trim(#[trigger] domains[i]) == domains[i],
    ensures
        grew(s.hosts, domains_added(s, domains, name).hosts, name),
        domains_added(s, domains, name) == (StoreView {
            hosts: domains_added(s, domains, name).hosts,
            ..s
        }),
    decreases domains.len(),
{
    if domains.len() > 0 {
        let d = domains.drop_last();
        let last = domains[domains.len() - 1];
        assert forall|i: int| 0 <= i < d.len() implies trim(#[trigger] d[i]) == d[i] by {
            assert(d[i] == domains[i]);
        }
        lemma_grew(s, d, name);
        let p = domains_added(s, d, name);
        let r = domains_added(s, domains, name);
        assert(trim(last) == last);
        lemma_grew_once(p, last, name);
        lemma_host_index(p.hosts, last);
        let i = host_index(p.hosts, last) as int;
        assert(seq![name][0] == name);
        assert(seq![name].contains(name));
        let a = s.hosts;
        let b = p.hosts;
        let c = r.hosts;
        assert forall|k: int| 0 <= k < a.len() implies {
            let h = #[trigger] c[k];
            &&& h.target == a[k].target
            &&& h.groups == a[k].groups || (!a[k].groups.contains(name) && h.groups
                == a[k].groups.push(name))
            &&& !is_ip_or_network(a[k].target) ==> h.ips == a[k].ips && h.error == a[k].error
        } by {
            assert(b[k].target == a[k].target);
            if k == i && b[k].groups != a[k].groups {
                assert(b[k].groups[a[k].groups.len() as int] == name);
                assert(b[k].groups.contains(name));
            }
        }
        assert forall|k: int| a.len() <= k < c.len() implies {
            let h = #[trigger] c[k];
            h.groups == seq![name] && h.source == Source::Template && h.error is None
                && h.ips.len() == 0
        } by {
            if k < b.len() {
                assert(b[k].groups == seq![name]);
            }
        }
        assert forall|j: int, k: int| 0 <= j < k && a.len() <= k < c.len() implies (
        #[trigger] c[j]).target != (#[trigger] c[k]).target by {
            assert(c[j].target == b[j].target);
            if k < b.len() {
                assert(c[k].target == b[k].target);
            }
        }
    }
}

/// Seeding changes addresses alone. The first host whose target is one of
/// the domains to the letter, and a name without addresses, gets those of
/// the template; no other first host of a target does.
pub proof fn law_seeds_fill_what_is_empty(
    s: StoreView,
    domains: Seq<Seq<char>>,
    ips: Seq<Seq<char>>,
    k: int,
)
    requires
        0 <= k < s.hosts.len(),
        forall|j: int| 0 <= j < k ==> (#[trigger] s.hosts[j]).target != s.hosts[k].target,
    ensures
        ({
            let r = domains_seeded(s, domains, ips);
            let h = s.hosts[k];
            &&& r == (StoreView { hosts: r.hosts, ..s })
            &&& r.hosts.len() == s.hosts.len()
            &&& forall|j: int|
                0 <= j < s.hosts.len() ==> (#[trigger] r.hosts[j]) == (HostView {
                    ips: r.hosts[j].ips,
                    ..s.hosts[j]
                })
            &&& r.hosts[k].ips == (if h.ips.len() == 0 && !is_ip_or_network(h.target)
                && domains.contains(h.target) {
                ips
            } else {
                h.ips
            })
        }),
    decreases domains.len(),
{
    if domains.len() > 0 {
        let d = domains.drop_last();
        let last = domains[domains.len() - 1];
        let h = s.hosts[k];
        law_seeds_fill_what_is_empty(s, d, ips, k);
        let p = domains_seeded(s, d, ips);
        let r = domains_seeded(s, domains, ips);
        lemma_host_index(p.hosts, last);
        let i = host_index(p.hosts, last) as int;
        if last == h.target {
            assert(p.hosts[k].target == last);
            lemma_has_target(p.hosts, last, k);
            if i < k {
                assert(p.hosts[i].target == s.hosts[i].target);
            }
            assert(i == k);
        }
        lemma_parts_of_list(domains);
        if d.contains(h.target) {
            assert(domains.contains(h.target));
        } else if domains.contains(h.target) {
            let j = choose|j: int| 0 <= j < domains.len() && domains[j] == h.target;
            if j < d.len() {
                assert(d[j] == h.target);
            }
        }
        if i < p.hosts.len() {
            assert(p.hosts[i] == (HostView { ips: p.hosts[i].ips, ..s.hosts[i] }));
        }
    }
}

/// Taking a template into the list changes the hosts and the groups alone.
/// The group comes in if it was not there. A new host stands in no place
/// that another had, has a target that none had, and is in the group alone.
/// The first host of each domain that is a name has the addresses that it
/// had or, where it had none, those of the template.
pub proof fn law_template_fills_in_addresses(s: StoreView, t: TemplateView, k: int)
    requires
        forall|i: int| 0 <= i < t.domains.len() ==> trim(#[trigger] t.domains[i]) == t.domains[i],
        0 <= k < template_applied(s, t).hosts.len(),
        forall|j: int|
            0 <= j < k ==> (#[trigger] template_applied(s, t).hosts[j]).target
                != template_applied(s, t).hosts[k].target,
    ensures
        ({
            let after = template_applied(s, t);
            let h = after.hosts[k];
            &&& after == (StoreView {
                hosts: after.hosts,
                groups: if s.groups.contains(t.name) {
                    s.groups
                } else {
                    s.groups.push(t.name)
                },
                ..s
            })
            &&& k < s.hosts.len() ==> {
                let b = s.hosts[k];
                &&& h.target == b.target
                &&& h.groups == b.groups || (!b.groups.contains(t.name) && h.groups
                    == b.groups.push(t.name))
                &&& !is_ip_or_network(b.target) ==> h.error == b.error
                &&& !is_ip_or_network(b.target) ==> h.ips == (if b.ips.len() == 0
                    && t.domains.contains(b.target) {
                    t.ips
                } else {
                    b.ips
                })
            }
            &&& k >= s.hosts.len() ==> {
                &&& t.domains.contains(h.target)
                &&& h.groups == seq![t.name]
                &&& h.source == Source::Template
                &&& h.error is None
                &&& h.ips == (if is_ip_or_network(h.target) {
                    Seq::empty()
                } else {
                    t.ips
                })
            }
        }),
{
    let start = group_ensured(s, t.name);
    let filled = domains_added(start, t.domains, t.name);
    let after = template_applied(s, t);
    assert(start.groups.contains(t.name)) by {
        if !s.groups.contains(t.name) {
            assert(start.groups[s.groups.len() as int] == t.name);
        }
    }
    law_template_becomes_a_group(s, t);
    lemma_grew(start, t.domains, t.name);
    lemma_domains_seeded(filled, t.domains, t.ips);
    assert forall|j: int| 0 <= j < k implies (#[trigger] filled.hosts[j]).target
        != filled.hosts[k].target by {
        assert(after.hosts[j].target == filled.hosts[j].target);
        assert(after.hosts[k].target == filled.hosts[k].target);
    }
    law_seeds_fill_what_is_empty(filled, t.domains, t.ips, k);
    assert(after.hosts[k] == (HostView { ips: after.hosts[k].ips, ..filled.hosts[k] }));
    assert(grew(s.hosts, filled.hosts, t.name));
}

/// A list in which no target occurs twice is such a list after a template
/// was taken into it.
pub proof fn law_template_brings_no_second_host(s: StoreView, t: TemplateView)
    requires
        forall|i: int| 0 <= i < t.domains.len() ==> trim(#[trigger] t.domains[i]) == t.domains[i],
        distinct_targets(s.hosts),
    ensures
        distinct_targets(template_applied(s, t).hosts),
{
    let start = group_ensured(s, t.name);
    let filled = domains_added(start, t.domains, t.name);
    let after = template_applied(s, t);
    assert(start.groups.contains(t.name)) by {
        if !s.groups.contains(t.name) {
            assert(start.groups[s.groups.len() as int] == t.name);
        }
    }
    lemma_grew(start, t.domains, t.name);
    lemma_domains_seeded(filled, t.domains, t.ips);
    let a = s.hosts;
    let c = after.hosts;
    assert forall|i: int, j: int| 0 <= i < j < c.len() implies (#[trigger] c[i]).target != (
    #[trigger] c[j]).target by {
        assert(c[i].target == filled.hosts[i].target);
        assert(c[j].target == filled.hosts[j].target);
        if j < a.len() {
            assert(a[i].target != a[j].target);
        }
    }
}

/// The domains of a template are added one by one, each as a host of its
/// text without the white space round it, in the group and marked as coming
/// from a template. A domain counts as new if and only if no host has it for
/// a target, to the letter.
pub proof fn law_domains_are_added_one_by_one(
    s: StoreView,
    a: Seq<Seq<char>>,
    b: Seq<Seq<char>>,
    d: Seq<char>,
    name: Seq<char>,
)
    ensures
        domains_added(s, a + b, name) == domains_added(domains_added(s, a, name), b, name),
        new_domains(s, a + b, name) == new_domains(s, a, name) + new_domains(
            domains_added(s, a, name),
            b,
            name,
        ),
        new_domains(s, seq![d], name) == (if exists|k: int|
            0 <= k < s.hosts.len() && (#[trigger] s.hosts[k]).target == d {
            0nat
        } else {
            1
        }),
        ({
            let one = domains_added(s, seq![d], name);
            let plain = host_added(s, d, seq![name]);
            &&& one == (StoreView { hosts: one.hosts, ..plain })
            &&& one.hosts.len() == plain.hosts.len()
            &&& exists|k: int|
                0 <= k < plain.hosts.len() && (#[trigger] plain.hosts[k]).target == trim(d)
                    && one.hosts == plain.hosts.update(
                    k,
                    HostView { source: Source::Template, ..plain.hosts[k] },
                )
        }),
    decreases b.len(),
{
    if b.len() == 0 {
        assert(a + b =~= a);
    } else {
        law_domains_are_added_one_by_one(s, a, b.drop_last(), d, name);
        assert((a + b).drop_last() =~= a + b.drop_last());
        assert((a + b).last() == b.last());
    }
    reveal_with_fuel(domains_added, 2);
    reveal_with_fuel(new_domains, 2);
    assert(seq![d].drop_last() =~= Seq::<Seq<char>>::empty());
    assert(seq![d].last() == d);
    lemma_host_index(s.hosts, d);
    if has_target(s.hosts, d) {
        assert(s.hosts[host_index(s.hosts, d) as int].target == d);
    }
    if exists|k: int| 0 <= k < s.hosts.len() && (#[trigger] s.hosts[k]).target == d {
        let k = choose|k: int| 0 <= k < s.hosts.len() && (#[trigger] s.hosts[k]).target == d;
        lemma_has_target(s.hosts, d, k);
    }
    lemma_host_index(s.hosts, trim(d));
    let i = host_index(s.hosts, trim(d)) as int;
    let plain = host_added(s, d, seq![name]);
    assert(plain.hosts[i].target == trim(d));
}

} // verus!
