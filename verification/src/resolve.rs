//! Turning a domain into addresses, with the result cached on the host.
//!
//! A domain that cannot be resolved is reported back, never silently
//! dropped: a host missing from `AllowedIPs` means traffic that goes out in
//! the clear. A lookup that fails leaves the addresses known before.

use vstd::prelude::*;

use crate::address::is_ip_or_network;
use crate::hosts::{is_unresolved, unresolved_hosts, Host, HostStore, HostView, StoreView};
use crate::list::{
    copied, first_of_each, law_unique_keeps_the_first, lemma_add_missing, unique, uniqued,
};
use crate::text::{owned, same, texts};

verus! {

/// What a lookup gives: addresses, or the reason why there are none.
pub type Answer = Result<Vec<String>, String>;

/// An [`Answer`] as character sequences.
pub type AnswerView = Result<Seq<Seq<char>>, Seq<char>>;

pub open spec fn answer_view(a: Answer) -> AnswerView {
    match a {
        Ok(ips) => Ok(texts(ips@)),
        Err(e) => Err(e@),
    }
}

/// A source of addresses for names.
pub trait Resolver {
    /// Addresses for a target that is known not to be a literal address.
    fn lookup(&self, target: &str) -> (r: Answer);
}

/// True when a resolver may give this answer for a target: one that asks
/// the network may give any, one with a fixed table gives one.
pub open spec fn may_answer<R: Resolver>(
    resolver: R,
    target: Seq<char>,
    answer: AnswerView,
) -> bool {
    exists|t: &str, a: Answer|
        t@ == target && answer_view(a) == answer && #[trigger] call_ensures(
            R::lookup,
            (&resolver, t),
            a,
        )
}

/// The operating system's resolver. What it found is asked for outside; an
/// answer without addresses is a failure.
pub struct SystemResolver;

impl SystemResolver {
    /// The answer that a finished lookup stands for.
    pub fn answer(&self, found: Answer) -> (r: Answer)
        ensures
            answer_view(r) == (match answer_view(found) {
                Ok(ips) => if ips.len() == 0 {
                    Err("no addresses returned"@)
                } else {
                    Ok(ips)
                },
                Err(e) => Err(e),
            }),
    {
        match found {
            Ok(ips) => if ips.len() == 0 {
                Err(owned("no addresses returned"))
            } else {
                Ok(ips)
            },
            Err(e) => Err(e),
        }
    }
}

/// A resolver that answers from a fixed table.
pub struct FakeResolver {
    table: Vec<(String, Answer)>,
}

impl View for FakeResolver {
    type V = Seq<(Seq<char>, AnswerView)>;

    closed spec fn view(&self) -> Seq<(Seq<char>, AnswerView)> {
        Seq::new(
            self.table@.len(),
            |i: int| (self.table@[i].0@, answer_view(self.table@[i].1)),
        )
    }
}

/// The first answer that a table holds for a target.
pub open spec fn table_answer(
    table: Seq<(Seq<char>, AnswerView)>,
    target: Seq<char>,
) -> AnswerView
    decreases table.len(),
{
    if table.len() == 0 {
        Err("no such host"@)
    } else if table[0].0 == target {
        table[0].1
    } else {
        table_answer(table.drop_first(), target)
    }
}

/// The strings of a list of borrowed strings.
pub open spec fn str_texts(v: Seq<&str>) -> Seq<Seq<char>> {
    Seq::new(v.len(), |i: int| v[i]@)
}

impl FakeResolver {
    /// A resolver that knows the given names, and no others.
    pub fn new(table: &[(&str, &[&str])]) -> (r: Self)
        ensures
            r@ == Seq::new(
                table@.len(),
                |i: int| (table@[i].0@, AnswerView::Ok(str_texts(table@[i].1@))),
            ),
    {
        let mut rows: Vec<(String, Answer)> = Vec::new();
        let mut i: usize = 0;
        while i < table.len()
            invariant
                i <= table@.len(),
                rows@.len() == i,
                forall|k: int|
                    0 <= k < i ==> (#[trigger] rows@[k]).0@ == table@[k].0@ && answer_view(
                        rows@[k].1,
                    ) == AnswerView::Ok(str_texts(table@[k].1@)),
            decreases table@.len() - i,
        {
            let (name, listed) = table[i];
            let mut ips: Vec<String> = Vec::new();
            let mut k: usize = 0;
            while k < listed.len()
                invariant
                    k <= listed@.len(),
                    ips@.len() == k,
                    forall|j: int| 0 <= j < k ==> (#[trigger] ips@[j])@ == listed@[j]@,
                decreases listed@.len() - k,
            {
                ips.push(owned(listed[k]));
                k = k + 1;
            }
            assert(texts(ips@) =~= str_texts(listed@));
            rows.push((owned(name), Ok(ips)));
            i = i + 1;
        }
        let r = FakeResolver { table: rows };
        assert(r@ =~= Seq::new(
            table@.len(),
            |i: int| (table@[i].0@, AnswerView::Ok(str_texts(table@[i].1@))),
        ));
        r
    }

    /// A resolver that fails for a target, as it does for every other.
    pub fn failing(target: &str) -> (r: Self)
        ensures
            r@ == seq![(target@, AnswerView::Err("no such host"@))],
    {
        let mut rows: Vec<(String, Answer)> = Vec::new();
        rows.push((owned(target), Err(owned("no such host"))));
        let r = FakeResolver { table: rows };
        assert(r@ =~= seq![(target@, AnswerView::Err("no such host"@))]);
        r
    }
}

fn copied_answer(a: &Answer) -> (r: Answer)
    ensures
        answer_view(r) == answer_view(*a),
{
    match a {
        Ok(ips) => Ok(copied(ips.as_slice())),
        Err(e) => Err(e.clone()),
    }
}

impl Resolver for FakeResolver {
    fn lookup(&self, target: &str) -> (r: Answer)
        ensures
            answer_view(r) == table_answer(self@, target@),
    {
        let mut i: usize = 0;
        assert(self@.skip(0) =~= self@);
        while i < self.table.len()
            invariant
                i <= self.table@.len() == self@.len(),
                table_answer(self@, target@) == table_answer(self@.skip(i as int), target@),
            decreases self.table@.len() - i,
        {
            assert(self@.skip(i as int)[0] == (
                self.table@[i as int].0@,
                answer_view(self.table@[i as int].1),
            ));
            if same(self.table[i].0.as_str(), target) {
                return copied_answer(&self.table[i].1);
            }
            assert(self@.skip(i as int).drop_first() =~= self@.skip(i + 1));
            i = i + 1;
        }
        Err(owned("no such host"))
    }
}

/// What happened to one host during a resolve pass.
#[derive(Debug, Clone, PartialEq, Eq)]
pub enum Outcome {
    /// Its target is already an address; nothing to do.
    Literal,
    /// Addresses were filled in.
    Resolved(Vec<String>),
    Failed(String),
    /// Skipped because it has addresses already.
    Fresh,
}

/// An [`Outcome`] as character sequences.
pub enum OutcomeView {
    Literal,
    Resolved(Seq<Seq<char>>),
    Failed(Seq<char>),
    Fresh,
}

impl View for Outcome {
    type V = OutcomeView;

    open spec fn view(&self) -> OutcomeView {
        match self {
            Outcome::Literal => OutcomeView::Literal,
            Outcome::Resolved(ips) => OutcomeView::Resolved(texts(ips@)),
            Outcome::Failed(e) => OutcomeView::Failed(e@),
            Outcome::Fresh => OutcomeView::Fresh,
        }
    }
}

/// True when a pass asks the resolver about this host.
pub open spec fn needs_lookup(h: HostView, force: bool) -> bool {
    !is_ip_or_network(h.target) && (force || h.ips.len() == 0)
}

/// A host after a pass, given the answer of the resolver.
pub open spec fn resolved_host(h: HostView, force: bool, answer: AnswerView) -> HostView {
    if !needs_lookup(h, force) {
        h
    } else {
        match answer {
            Ok(ips) => HostView { ips: unique(ips), error: None, ..h },
            Err(e) => HostView { error: Some(e), ..h },
        }
    }
}

/// What is reported of a host, given the answer of the resolver.
pub open spec fn outcome(h: HostView, force: bool, answer: AnswerView) -> OutcomeView {
    if is_ip_or_network(h.target) {
        OutcomeView::Literal
    } else if !needs_lookup(h, force) {
        OutcomeView::Fresh
    } else {
        match answer {
            Ok(ips) => OutcomeView::Resolved(unique(ips)),
            Err(e) => OutcomeView::Failed(e),
        }
    }
}

/// Take the answer for a host that a lookup was made for.
///
/// A failure keeps whatever addresses were cached: a transient DNS failure
/// must not empty a working config.
pub fn settle(host: &mut Host, answer: Answer) -> (r: Outcome)
    requires
        needs_lookup(old(host)@, true),
    ensures
        final(host)@ == resolved_host(old(host)@, true, answer_view(answer)),
        r@ == outcome(old(host)@, true, answer_view(answer)),
{
    match answer {
        Ok(ips) => {
            let ips = uniqued(ips.as_slice());
            host.ips = copied(ips.as_slice());
            host.error = None;
            Outcome::Resolved(ips)
        },
        Err(e) => {
            host.error = Some(e.clone());
            Outcome::Failed(e)
        },
    }
}

/// What is known of a pass over the hosts: one answer per host, of which
/// those count that the resolver was asked for.
pub open spec fn is_resolve_pass<R: Resolver>(
    resolver: R,
    before: Seq<HostView>,
    force: bool,
    answers: Seq<AnswerView>,
    after: Seq<HostView>,
    report: Seq<(String, Outcome)>,
) -> bool {
    &&& answers.len() == before.len()
    &&& after.len() == before.len()
    &&& report.len() == before.len()
    &&& forall|i: int|
        0 <= i < before.len() ==> {
            &&& needs_lookup(#[trigger] before[i], force) ==> may_answer(
                resolver,
                before[i].target,
                answers[i],
            )
            &&& after[i] == resolved_host(before[i], force, answers[i])
            &&& report[i].0@ == before[i].target
            &&& report[i].1@ == outcome(before[i], force, answers[i])
        }
}

/// Resolve every host that needs it, writing the results back and clearing
/// the error of the ones that succeed. Returns one outcome per host, in list
/// order, so that exactly the lines that failed can be reported.
///
/// `force` asks again for hosts that already have addresses.
pub fn resolve_all<R: Resolver>(store: &mut HostStore, resolver: &R, force: bool) -> (r: Vec<
    (String, Outcome),
>)
    ensures
        exists|answers: Seq<AnswerView>|
            is_resolve_pass(
                *resolver,
                old(store)@.hosts,
                force,
                answers,
                final(store)@.hosts,
                r@,
            ),
        final(store)@ == (StoreView { hosts: final(store)@.hosts, ..old(store)@ }),
{
    let mut out: Vec<(String, Outcome)> = Vec::new();
    let ghost before = store@.hosts;
    let ghost mut answers: Seq<AnswerView> = Seq::empty();
    let mut i: usize = 0;
    while i < store.hosts.len()
        invariant
            before == old(store)@.hosts,
            i <= store.hosts@.len() == before.len(),
            store@ == (StoreView { hosts: store@.hosts, ..old(store)@ }),
            out@.len() == i,
            answers.len() == i,
            forall|k: int| i <= k < before.len() ==> (#[trigger] store.hosts@[k])@ == before[k],
            forall|k: int|
                0 <= k < i ==> {
                    &&& needs_lookup(#[trigger] before[k], force) ==> may_answer(
                        *resolver,
                        before[k].target,
                        answers[k],
                    )
                    &&& store.hosts@[k]@ == resolved_host(before[k], force, answers[k])
                    &&& out@[k].0@ == before[k].target
                    &&& out@[k].1@ == outcome(before[k], force, answers[k])
                },
        decreases store.hosts@.len() - i,
    {
        assert(store.hosts@[i as int]@ == before[i as int]);
        let target = store.hosts[i].target.clone();
        if store.hosts[i].is_literal_ip() {
            out.push((target, Outcome::Literal));
            proof {
                answers = answers.push(Ok(Seq::empty()));
            }
        } else if !force && store.hosts[i].ips.len() > 0 {
            out.push((target, Outcome::Fresh));
            proof {
                answers = answers.push(Ok(Seq::empty()));
            }
        } else {
            let answer = resolver.lookup(target.as_str());
            proof {
                assert(may_answer(*resolver, target@, answer_view(answer)));
                answers = answers.push(answer_view(answer));
            }
            let h: &mut Host = &mut store.hosts[i];
            let what = settle(h, answer);
            out.push((target, what));
        }
        i = i + 1;
    }
    assert(is_resolve_pass(*resolver, before, force, answers, store@.hosts, out@));
    out
}

/// Cache the addresses a group is known to answer on, so that they are
/// there offline. A host that has addresses, or is one, is left alone.
pub fn seed_addresses(host: &mut Host, ips: &[String])
    ensures
        final(host)@ == (if is_unresolved(old(host)@) {
            HostView { ips: texts(ips@), ..old(host)@ }
        } else {
            old(host)@
        }),
{
    if host.ips.len() == 0 && !host.is_literal_ip() {
        host.ips = copied(ips);
    }
}

// ---------------------------------------------------------------------------
// Laws
// ---------------------------------------------------------------------------

/// A resolver with a fixed table gives the answer of its table, and no
/// other.
pub proof fn law_table_decides(resolver: FakeResolver, target: Seq<char>, answer: AnswerView)
    requires
        may_answer(resolver, target, answer),
    ensures
        answer == table_answer(resolver@, target),
{
}

/// A pass never takes a host's last address away: a failed lookup keeps the
/// addresses, and so does a skipped host.
pub proof fn law_failure_keeps_addresses(h: HostView, force: bool, reason: Seq<char>)
    ensures
        resolved_host(h, force, Err(reason)).ips == h.ips,
        resolved_host(h, force, Err(reason)).target == h.target,
        needs_lookup(h, force) ==> resolved_host(h, force, Err(reason)).error == Some(reason)
            && outcome(h, force, Err(reason)) == OutcomeView::Failed(reason),
{
}

/// Without `force`, what is resolved already is left as it is: a second pass
/// over hosts that all have addresses changes nothing.
pub proof fn law_fresh_hosts_untouched(h: HostView, answer: AnswerView)
    requires
        h.ips.len() > 0 || is_ip_or_network(h.target),
    ensures
        resolved_host(h, false, answer) == h,
{
}

/// A pass in which every lookup brings at least one address leaves no host
/// unresolved.
pub proof fn law_good_answers_resolve_all(
    hosts: Seq<HostView>,
    force: bool,
    answers: Seq<AnswerView>,
    after: Seq<HostView>,
)
    requires
        answers.len() == hosts.len(),
        after.len() == hosts.len(),
        forall|i: int|
            0 <= i < hosts.len() ==> after[i] == resolved_host(
                #[trigger] hosts[i],
                force,
                answers[i],
            ),
        forall|i: int|
            0 <= i < hosts.len() && needs_lookup(#[trigger] hosts[i], force) ==> (answers[i] is Ok
                && answers[i]->Ok_0.len() > 0),
    ensures
        unresolved_hosts(after).len() == 0,
    decreases hosts.len(),
{
    if hosts.len() > 0 {
        let n = hosts.len() - 1;
        let h = hosts.drop_last();
        let a = answers.drop_last();
        let f = after.drop_last();
        assert forall|i: int| 0 <= i < h.len() implies f[i] == resolved_host(
            #[trigger] h[i],
            force,
            a[i],
        ) by {
            assert(h[i] == hosts[i]);
        }
        assert forall|i: int|
            0 <= i < h.len() && needs_lookup(#[trigger] h[i], force) implies a[i] is Ok
            && a[i]->Ok_0.len() > 0 by {
            assert(h[i] == hosts[i]);
        }
        law_good_answers_resolve_all(h, force, a, f);
        assert(after[n] == resolved_host(hosts[n], force, answers[n]));
        if needs_lookup(hosts[n], force) {
            let ips = answers[n]->Ok_0;
            lemma_add_missing(Seq::empty(), ips);
            assert(ips.contains(ips[0]));
            assert(unique(ips).contains(ips[0]));
        }
    }
}

/// When a lookup was made and answered with addresses, the host holds those
/// addresses afterwards and no others, each once and in the order in which
/// they came, whatever it held before; they are what is reported of it. The
/// rest of the host is as it was, without an error.
pub proof fn law_answer_replaces_addresses(h: HostView, force: bool, ips: Seq<Seq<char>>)
    requires
        !is_ip_or_network(h.target),
        force || h.ips.len() == 0,
    ensures
        ({
            let after = resolved_host(h, force, Ok(ips));
            &&& after.ips.no_duplicates()
            &&& forall|x: Seq<char>| #[trigger] after.ips.contains(x) <==> ips.contains(x)
            &&& exists|at: Seq<int>| first_of_each(ips, after.ips, at)
            &&& ips.no_duplicates() ==> after.ips == ips
            &&& after.error is None
            &&& after.target == h.target
            &&& after.groups == h.groups
            &&& after.source == h.source
            &&& outcome(h, force, Ok(ips)) == OutcomeView::Resolved(after.ips)
        }),
{
    law_unique_keeps_the_first(ips);
}

/// No lookup is made for an address, nor, without `force`, for a host that
/// has addresses: such a host is as it was, whatever an answer would be. A
/// lookup that failed changes nothing but the error.
pub proof fn law_only_an_answer_changes_a_host(h: HostView, force: bool, answer: AnswerView)
    ensures
        is_ip_or_network(h.target) ==> resolved_host(h, force, answer) == h && outcome(
            h,
            force,
            answer,
        ) == OutcomeView::Literal,
        !is_ip_or_network(h.target) && !force && h.ips.len() > 0 ==> resolved_host(
            h,
            force,
            answer,
        ) == h && outcome(h, force, answer) == OutcomeView::Fresh,
        !is_ip_or_network(h.target) && (force || h.ips.len() == 0) && answer is Err
            ==> resolved_host(h, force, answer) == (HostView {
            error: Some(answer->Err_0),
            ..h
        }) && outcome(h, force, answer) == OutcomeView::Failed(answer->Err_0),
{
}

/// A table answers with its first row for a target, whatever stands around
/// it, and has no answer for a target without a row.
pub proof fn law_first_row_answers(
    above: Seq<(Seq<char>, AnswerView)>,
    target: Seq<char>,
    answer: AnswerView,
    below: Seq<(Seq<char>, AnswerView)>,
)
    requires
        forall|k: int| 0 <= k < above.len() ==> (#[trigger] above[k]).0 != target,
    ensures
        table_answer(above + seq![(target, answer)] + below, target) == answer,
        table_answer(above, target) == AnswerView::Err("no such host"@),
    decreases above.len(),
{
    let table = above + seq![(target, answer)] + below;
    if above.len() == 0 {
        assert(table[0] == (target, answer));
    } else {
        let d = above.drop_first();
        assert forall|k: int| 0 <= k < d.len() implies (#[trigger] d[k]).0 != target by {
            assert(d[k] == above[k + 1]);
        }
        law_first_row_answers(d, target, answer, below);
        assert(table[0] == above[0]);
        assert(above[0].0 != target);
        assert(table.drop_first() =~= d + seq![(target, answer)] + below);
    }
}

/// A pass reports on every host under its target and in list order. Each
/// host that is a name, and has no address or is asked for again, gets an
/// answer that the resolver may give: it is reported as resolved with the
/// addresses that it then has, which are those of the answer, or as failed
/// with the addresses that it had.
pub proof fn law_pass_asks_for_every_name<R: Resolver>(
    resolver: R,
    before: Seq<HostView>,
    force: bool,
    answers: Seq<AnswerView>,
    after: Seq<HostView>,
    report: Seq<(String, Outcome)>,
    i: int,
)
    requires
        is_resolve_pass(resolver, before, force, answers, after, report),
        0 <= i < before.len(),
    ensures
        after.len() == before.len(),
        report.len() == before.len(),
        report[i].0@ == before[i].target,
        after[i].target == before[i].target,
        after[i].groups == before[i].groups,
        is_ip_or_network(before[i].target) || (!force && before[i].ips.len() > 0) ==> after[i]
            == before[i],
        !is_ip_or_network(before[i].target) && (force || before[i].ips.len() == 0) ==> (
        match answers[i] {
            Ok(ips) => {
                &&& may_answer(resolver, before[i].target, answers[i])
                &&& forall|x: Seq<char>| #[trigger]
                    after[i].ips.contains(x) <==> ips.contains(x)
                &&& report[i].1@ == OutcomeView::Resolved(after[i].ips)
            },
            Err(e) => {
                &&& may_answer(resolver, before[i].target, answers[i])
                &&& after[i].ips == before[i].ips
                &&& after[i].error == Some(e)
                &&& report[i].1@ == OutcomeView::Failed(e)
            },
        }),
{
    assert(after[i] == resolved_host(before[i], force, answers[i]));
    if answers[i] is Ok {
        law_unique_keeps_the_first(answers[i]->Ok_0);
    }
}

} // verus!
