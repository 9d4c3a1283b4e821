//! Writing the host list into every `.conf` of a folder.
//!
//! A file whose content would not change is not written at all. Before the
//! first overwrite of a file a backup is made next to it, and a backup that
//! is there already is never overwritten.

use vstd::prelude::*;

use crate::address::{
    hex_digit, ip, is_address, is_address_char, is_ip_or_network, lemma_address_chars,
};
use crate::hosts::{
    all_entries, entry, is_entry_of, law_value_is_every_address_once, lemma_all_entries, value,
    Error, HostStore, HostView, Result,
};
use crate::list::{lemma_add_missing, unique};
use crate::order::{bytes_come_before, bytes_less, lemma_bytes_order, sorted, sorted_unique};
use crate::subtract::{backup_name, plan_removal, subtract_plan, temporary_name, Removals};
use crate::text::{
    all_digits, contains_char, eq_ignore_case, is_digit, is_piece, is_white_space, join, joined,
    lemma_first_of, lemma_joined_chars, lemma_pieces_of_joined, lemma_pieces_of_one,
    lemma_texts_push, lemma_trim_end, owned, pieces, same, split_once, texts, trim, trim_end,
    trim_start, trimmed_end, Class,
};
use crate::wgconf::{
    conf, has_allowed_ips_line, law_lines_with_a_value, law_read_back, law_render_rewritten,
    law_rendered_text_is_stable, law_rewrite_changes_other_values, law_rewrite_idempotent,
    law_rewrite_keeps_other_lines, lemma_line_of_rewritten, lemma_raw_lines, line, raw_lines,
    render, rewrite, value_of, values, LineView, WgConfig,
};

verus! {

// ---------------------------------------------------------------------------
// What happened to the files
// ---------------------------------------------------------------------------

/// What a pass did to one file, with the number of entries it took out.
#[derive(Debug, Clone, PartialEq, Eq)]
pub enum ConfResult<P> {
    /// There was nothing to change.
    Unchanged { removed: usize },
    /// The file was written; the backup is the one this write made, if any.
    Written { removed: usize, backup: Option<P> },
    /// A line would have been left with nothing, so the file was left alone;
    /// so many entries of it were being removed.
    Emptied { removed: usize },
    /// The file has no `AllowedIPs` line.
    NoAllowedIps { removed: usize },
}

/// What a pass did to a folder. Files are named by a `P`, such as a path.
#[derive(Debug, Clone, PartialEq, Eq)]
pub struct Report<P> {
    pub files: Vec<(P, ConfResult<P>)>,
    /// Problems that did not stop the pass: a file that cannot be read or
    /// written.
    pub errors: Vec<(P, String)>,
}

/// The kinds of [`ConfResult`].
#[derive(Clone, Copy, PartialEq, Eq, Structural)]
pub enum Kind {
    Unchanged,
    Written,
    Emptied,
    NoAllowedIps,
}

pub open spec fn kind<P>(r: ConfResult<P>) -> Kind {
    match r {
        ConfResult::Unchanged { .. } => Kind::Unchanged,
        ConfResult::Written { .. } => Kind::Written,
        ConfResult::Emptied { .. } => Kind::Emptied,
        ConfResult::NoAllowedIps { .. } => Kind::NoAllowedIps,
    }
}

/// The number of entries that a result carries.
pub open spec fn stated_of<P>(r: ConfResult<P>) -> nat {
    match r {
        ConfResult::Unchanged { removed } => removed as nat,
        ConfResult::Written { removed, .. } => removed as nat,
        ConfResult::Emptied { removed } => removed as nat,
        ConfResult::NoAllowedIps { removed } => removed as nat,
    }
}

/// The number of entries that came out of a file: only one that was written
/// lost any.
pub open spec fn removed_of<P>(r: ConfResult<P>) -> nat {
    match r {
        ConfResult::Written { removed, .. } => removed as nat,
        _ => 0,
    }
}

/// How many files had a result of that kind.
pub open spec fn count<P>(files: Seq<(P, ConfResult<P>)>, k: Kind) -> nat
    decreases files.len(),
{
    if files.len() == 0 {
        0
    } else {
        count(files.drop_last(), k) + if kind(files.last().1) == k {
            1nat
        } else {
            0nat
        }
    }
}

/// How many entries all results carry.
pub open spec fn stated_total<P>(files: Seq<(P, ConfResult<P>)>) -> nat
    decreases files.len(),
{
    if files.len() == 0 {
        0
    } else {
        stated_total(files.drop_last()) + stated_of(files.last().1)
    }
}

/// How many entries were taken out of all files.
pub open spec fn removed_total<P>(files: Seq<(P, ConfResult<P>)>) -> nat
    decreases files.len(),
{
    if files.len() == 0 {
        0
    } else {
        removed_total(files.drop_last()) + removed_of(files.last().1)
    }
}

proof fn lemma_removed_total<P>(files: Seq<(P, ConfResult<P>)>, i: int)
    requires
        0 <= i <= files.len(),
    ensures
        removed_total(files.take(i)) <= removed_total(files),
    decreases files.len() - i,
{
    if i < files.len() {
        lemma_removed_total(files, i + 1);
        assert(files.take(i + 1).drop_last() =~= files.take(i));
    } else {
        assert(files.take(i) =~= files);
    }
}

impl<P> ConfResult<P> {
    fn kind(&self) -> (r: Kind)
        ensures
            r == kind(*self),
    {
        match self {
            ConfResult::Unchanged { .. } => Kind::Unchanged,
            ConfResult::Written { .. } => Kind::Written,
            ConfResult::Emptied { .. } => Kind::Emptied,
            ConfResult::NoAllowedIps { .. } => Kind::NoAllowedIps,
        }
    }

    fn removed(&self) -> (r: usize)
        ensures
            r == removed_of(*self),
    {
        match self {
            ConfResult::Written { removed, .. } => *removed,
            _ => 0,
        }
    }
}

impl<P> Report<P> {
    fn count(&self, k: Kind) -> (r: usize)
        ensures
            r == count(self.files@, k),
    {
        let mut n: usize = 0;
        let mut i: usize = 0;
        while i < self.files.len()
            invariant
                i <= self.files@.len(),
                n <= i,
                n == count(self.files@.take(i as int), k),
            decreases self.files@.len() - i,
        {
            proof {
                assert(self.files@.take(i + 1).drop_last() =~= self.files@.take(i as int));
            }
            if self.files[i].1.kind() == k {
                n = n + 1;
            }
            i = i + 1;
        }
        assert(self.files@.take(self.files@.len() as int) =~= self.files@);
        n
    }

    /// Files the pass changed.
    pub fn written(&self) -> (r: usize)
        ensures
            r == count(self.files@, Kind::Written),
    {
        self.count(Kind::Written)
    }

    /// Files the pass found already correct.
    pub fn unchanged(&self) -> (r: usize)
        ensures
            r == count(self.files@, Kind::Unchanged),
    {
        self.count(Kind::Unchanged)
    }

    /// Entries taken out across the folder. A file that was left alone lost
    /// none.
    pub fn removed(&self) -> (r: usize)
        requires
            removed_total(self.files@) <= usize::MAX,
        ensures
            r == removed_total(self.files@),
    {
        let mut n: usize = 0;
        let mut i: usize = 0;
        while i < self.files.len()
            invariant
                removed_total(self.files@) <= usize::MAX,
                i <= self.files@.len(),
                n == removed_total(self.files@.take(i as int)),
            decreases self.files@.len() - i,
        {
            proof {
                assert(self.files@.take(i + 1).drop_last() =~= self.files@.take(i as int));
                lemma_removed_total(self.files@, i + 1);
            }
            n = n + self.files[i].1.removed();
            i = i + 1;
        }
        assert(self.files@.take(self.files@.len() as int) =~= self.files@);
        n
    }

    /// Files a removal did not have to touch.
    pub fn unchanged_confs(&self) -> (r: usize)
        ensures
            r == count(self.files@, Kind::Unchanged),
    {
        self.count(Kind::Unchanged)
    }

    /// Files a removal wrote.
    pub fn written_confs(&self) -> (r: usize)
        ensures
            r == count(self.files@, Kind::Written),
    {
        self.count(Kind::Written)
    }

    /// Files left alone because the removal would have emptied them.
    pub fn emptied(&self) -> (r: usize)
        ensures
            r == count(self.files@, Kind::Emptied),
    {
        self.count(Kind::Emptied)
    }
}

// ---------------------------------------------------------------------------
// The files of a folder
// ---------------------------------------------------------------------------

/// An entry of a folder: where it is, the bytes of its name, and whether it
/// is a file.
pub struct DirEntry<P> {
    pub path: P,
    pub name: Vec<u8>,
    pub is_file: bool,
}

/// A byte with a capital ASCII letter made small.
pub open spec fn small(b: u8) -> int {
    if 0x41 <= b <= 0x5a {
        b + 0x20
    } else {
        b as int
    }
}

/// True for a name with the extension `conf`, in any case of letter, and
/// something before it.
pub open spec fn is_conf_name(name: Seq<u8>) -> bool {
    let n = name.len() as int;
    &&& n > 5
    &&& name[n - 5] == 0x2e
    &&& small(name[n - 4]) == 0x63
    &&& small(name[n - 3]) == 0x6f
    &&& small(name[n - 2]) == 0x6e
    &&& small(name[n - 1]) == 0x66
}

/// True for a file with such a name.
pub open spec fn is_conf<P>(e: DirEntry<P>) -> bool {
    e.is_file && is_conf_name(e.name@)
}

/// How many entries, from the front, do not come after `name`, in a list
/// that is sorted by name.
pub open spec fn place<P>(list: Seq<DirEntry<P>>, name: Seq<u8>) -> nat
    decreases list.len(),
{
    if list.len() > 0 && bytes_less(name, list.last().name@) {
        place(list.drop_last(), name)
    } else {
        list.len()
    }
}

/// The `.conf` files among the entries, sorted by name.
pub open spec fn listing<P>(entries: Seq<DirEntry<P>>) -> Seq<DirEntry<P>>
    decreases entries.len(),
{
    if entries.len() == 0 {
        Seq::empty()
    } else {
        let done = listing(entries.drop_last());
        let e = entries.last();
        if is_conf(e) {
            done.insert(place(done, e.name@) as int, e)
        } else {
            done
        }
    }
}

fn small_byte(b: u8) -> (r: u8)
    ensures
        r == small(b),
{
    if 0x41 <= b && b <= 0x5a {
        b + 0x20
    } else {
        b
    }
}

fn has_conf_name(name: &[u8]) -> (r: bool)
    ensures
        r == is_conf_name(name@),
{
    let n: usize = name.len();
    n > 5 && name[n - 5] == 0x2e && small_byte(name[n - 4]) == 0x63 && small_byte(name[n - 3])
        == 0x6f && small_byte(name[n - 2]) == 0x6e && small_byte(name[n - 1]) == 0x66
}

fn place_of<P>(list: &Vec<DirEntry<P>>, name: &[u8]) -> (r: usize)
    ensures
        r == place(list@, name@),
        r <= list@.len(),
{
    let mut i: usize = list.len();
    assert(list@.take(list@.len() as int) =~= list@);
    while i > 0 && bytes_come_before(name, list[i - 1].name.as_slice())
        invariant
            i <= list@.len(),
            place(list@, name@) == place(list@.take(i as int), name@),
        decreases i,
    {
        assert(list@.take(i as int).drop_last() =~= list@.take(i - 1));
        i = i - 1;
    }
    i
}

/// Every `.conf` file among the entries of a folder, sorted by name so that
/// runs are reproducible.
pub fn conf_files<P>(entries: Vec<DirEntry<P>>) -> (r: Vec<P>)
    ensures
        r@ == Seq::new(listing(entries@).len(), |i: int| listing(entries@)[i].path),
{
    let ghost all = entries@;
    let mut rest = entries;
    let mut list: Vec<DirEntry<P>> = Vec::new();
    let ghost mut seen: int = 0;
    while rest.len() > 0
        invariant
            0 <= seen <= all.len(),
            rest@ == all.skip(seen),
            list@ == listing(all.take(seen)),
        decreases rest@.len(),
    {
        let e = rest.remove(0);
        proof {
            assert(e == all[seen]);
            assert(all.take(seen + 1).drop_last() =~= all.take(seen));
            assert(rest@ =~= all.skip(seen + 1));
            seen = seen + 1;
        }
        if e.is_file && has_conf_name(e.name.as_slice()) {
            let at: usize = place_of(&list, e.name.as_slice());
            list.insert(at, e);
        }
    }
    assert(all.take(seen) =~= all);
    let ghost sorted = list@;
    let mut out: Vec<P> = Vec::new();
    while list.len() > 0
        invariant
            out@.len() <= sorted.len(),
            list@ == sorted.skip(out@.len() as int),
            forall|k: int| 0 <= k < out@.len() ==> #[trigger] out@[k] == sorted[k].path,
        decreases list@.len(),
    {
        let ghost n = out@.len() as int;
        let e = list.remove(0);
        assert(e == sorted[n]);
        assert(list@ =~= sorted.skip(n + 1));
        out.push(e.path);
    }
    assert(out@ =~= Seq::new(sorted.len(), |i: int| sorted[i].path));
    out
}

// ---------------------------------------------------------------------------
// The value to write
// ---------------------------------------------------------------------------

/// True for an entry that is a name and not an address: no address, with or
/// without a prefix length that its family has, and not a spelling of the
/// default route.
pub open spec fn is_name(entry: Seq<char>) -> bool {
    &&& trim_end(entry, Class::ZeroNetwork).len() > 0
    &&& !is_ip_or_network(entry)
}

/// The entries that are names.
pub open spec fn names(entries: Seq<Seq<char>>) -> Seq<Seq<char>>
    decreases entries.len(),
{
    if entries.len() == 0 {
        Seq::empty()
    } else if is_name(entries.last()) {
        names(entries.drop_last()).push(entries.last())
    } else {
        names(entries.drop_last())
    }
}

/// The targets of the hosts that have no address, in order.
pub open spec fn addressless(hosts: Seq<HostView>) -> Seq<Seq<char>>
    decreases hosts.len(),
{
    if hosts.len() == 0 {
        Seq::empty()
    } else if hosts.last().ips.len() == 0 {
        addressless(hosts.drop_last()).push(hosts.last().target)
    } else {
        addressless(hosts.drop_last())
    }
}

/// Why a list is not written, if it is not: hosts without addresses, no
/// hosts, or entries that are names.
pub open spec fn refusal(hosts: Seq<HostView>) -> Option<Seq<char>> {
    let missing = addressless(hosts);
    let named = names(all_entries(hosts));
    if missing.len() > 0 {
        Some(
            "these hosts have no addresses yet, run `resolve` first: "@ + join(missing, ", "@),
        )
    } else if hosts.len() == 0 {
        Some("the host list is empty — applying it would remove every route"@)
    } else if named.len() > 0 {
        Some(
            "these hosts would be written as names, not addresses: "@ + join(
                sorted_unique(named),
                ", "@,
            ) + " — resolve them first"@,
        )
    } else {
        None
    }
}

fn entry_is_name(entry: &str) -> (r: bool)
    ensures
        r == is_name(entry@),
{
    !trimmed_end(entry, Class::ZeroNetwork).as_str().is_empty() && !is_address(entry)
}

fn named_entries(entries: &[String]) -> (r: Vec<String>)
    ensures
        texts(r@) == names(texts(entries@)),
{
    let mut out: Vec<String> = Vec::new();
    let mut i: usize = 0;
    let ghost all = texts(entries@);
    assert(texts(out@) =~= Seq::<Seq<char>>::empty());
    while i < entries.len()
        invariant
            all == texts(entries@),
            i <= entries@.len(),
            texts(out@) == names(all.take(i as int)),
        decreases entries@.len() - i,
    {
        proof {
            assert(all.take(i + 1).drop_last() =~= all.take(i as int));
            assert(all.take(i + 1).last() == entries@[i as int]@);
        }
        if entry_is_name(entries[i].as_str()) {
            let e = entries[i].clone();
            proof {
                lemma_texts_push(out@, e);
            }
            out.push(e);
        }
        i = i + 1;
    }
    assert(all.take(all.len() as int) =~= all);
    out
}

fn addressless_targets(store: &HostStore) -> (r: Vec<String>)
    ensures
        texts(r@) == addressless(store@.hosts),
{
    let mut out: Vec<String> = Vec::new();
    let mut i: usize = 0;
    let ghost all = store@.hosts;
    assert(texts(out@) =~= Seq::<Seq<char>>::empty());
    while i < store.hosts.len()
        invariant
            all == store@.hosts,
            i <= store.hosts@.len() == all.len(),
            texts(out@) == addressless(all.take(i as int)),
        decreases store.hosts@.len() - i,
    {
        proof {
            assert(all.take(i + 1).drop_last() =~= all.take(i as int));
            assert(all.take(i + 1).last() == store.hosts@[i as int]@);
            assert(all[i as int].ips.len() == store.hosts@[i as int].ips@.len());
        }
        if store.hosts[i].ips.len() == 0 {
            let t = store.hosts[i].target.clone();
            proof {
                lemma_texts_push(out@, t);
            }
            out.push(t);
        }
        i = i + 1;
    }
    assert(all.take(all.len() as int) =~= all);
    out
}

/// The value to write: the list's, or an error saying why it is not written.
///
/// A partial list would put traffic outside the tunnel with no visible sign,
/// so every host has to have an address, one whose target is an address as
/// much as any other. And a name written as an address is a route that covers
/// nothing. Both are refused with the hosts at fault.
pub fn value_or_error(store: &HostStore) -> (r: Result<String>)
    ensures
        match r {
            Ok(v) => refusal(store@.hosts) is None && v@ == value(store@.hosts),
            Err(Error::Invalid(m)) => refusal(store@.hosts) == Some(m@),
            Err(_) => false,
        },
{
    let missing = addressless_targets(store);
    assert(texts(missing@).len() == missing@.len());
    if missing.len() > 0 {
        let mut m: String = owned("these hosts have no addresses yet, run `resolve` first: ");
        m.append(joined(missing.as_slice(), ", ").as_str());
        return Err(Error::Invalid(m));
    }
    if store.hosts.len() == 0 {
        return Err(
            Error::Invalid(
                owned("the host list is empty — applying it would remove every route"),
            ),
        );
    }
    let all = store.entries();
    let named = named_entries(all.as_slice());
    assert(texts(named@).len() == named@.len());
    if named.len() > 0 {
        let once = sorted(named.as_slice());
        let mut m: String = owned("these hosts would be written as names, not addresses: ");
        m.append(joined(once.as_slice(), ", ").as_str());
        m.append(" — resolve them first");
        return Err(Error::Invalid(m));
    }
    Ok(store.allowed_ips_value())
}

// ---------------------------------------------------------------------------
// One file
// ---------------------------------------------------------------------------

/// What is to be done with a file.
#[derive(Debug, Clone, PartialEq, Eq)]
pub enum Plan {
    /// Nothing: it has no `AllowedIPs` line.
    NoAllowedIps,
    /// Nothing: it is as it should be.
    Unchanged,
    /// Nothing: so many entries would come out, and a line would be left with
    /// none.
    Emptied { removed: usize },
    /// Write this text; so many entries come out.
    Write { removed: usize, text: String },
}

/// A [`Plan`] as character sequences.
pub enum PlanView {
    NoAllowedIps,
    Unchanged,
    Emptied { removed: nat },
    Write { removed: nat, text: Seq<char> },
}

impl View for Plan {
    type V = PlanView;

    open spec fn view(&self) -> PlanView {
        match self {
            Plan::NoAllowedIps => PlanView::NoAllowedIps,
            Plan::Unchanged => PlanView::Unchanged,
            Plan::Emptied { removed } => PlanView::Emptied { removed: *removed as nat },
            Plan::Write { removed, text } => PlanView::Write {
                removed: *removed as nat,
                text: text@,
            },
        }
    }
}

/// What an apply does to a file with that text.
pub open spec fn apply_plan(text: Seq<char>, value: Seq<char>) -> PlanView {
    if !has_allowed_ips_line(conf(text)) {
        PlanView::NoAllowedIps
    } else if rewrite(text, value) == render(conf(text)) {
        PlanView::Unchanged
    } else {
        PlanView::Write { removed: 1, text: rewrite(text, value) }
    }
}

/// What an apply does to a file with that text.
pub fn plan_value(text: &str, value: &str) -> (r: Plan)
    ensures
        r@ == apply_plan(text@, value@),
{
    let mut c = WgConfig::parse(text);
    if !c.has_allowed_ips() {
        return Plan::NoAllowedIps;
    }
    let old = c.to_string();
    c.set_allowed_ips(value);
    let new = c.to_string();
    if same(old.as_str(), new.as_str()) {
        Plan::Unchanged
    } else {
        Plan::Write { removed: 1, text: new }
    }
}

// ---------------------------------------------------------------------------
// One pass over a folder
// ---------------------------------------------------------------------------

/// What a pass does to each file.
#[derive(Debug, Clone)]
pub enum Job {
    /// Give every `AllowedIPs` line this value.
    Apply(String),
    /// Take these addresses out.
    Subtract(Removals),
}

/// A [`Job`] as mathematical values.
pub enum JobView {
    Apply(Seq<char>),
    Subtract(Set<Seq<char>>),
}

impl View for Job {
    type V = JobView;

    open spec fn view(&self) -> JobView {
        match self {
            Job::Apply(v) => JobView::Apply(v@),
            Job::Subtract(r) => JobView::Subtract(r@),
        }
    }
}

/// What a job does to a file with that text.
pub open spec fn plan(job: JobView, text: Seq<char>) -> PlanView {
    match job {
        JobView::Apply(v) => apply_plan(text, v),
        JobView::Subtract(r) => subtract_plan(text, r),
    }
}

/// A file that is to be written.
#[derive(Debug, Clone, PartialEq, Eq)]
pub struct Pending<P> {
    pub path: P,
    pub removed: usize,
    pub text: String,
}

/// A pass over the files of a folder. Each file is read outside and handed
/// to [`Pass::read`]; when that asks for a write, the write is done outside
/// and its outcome handed to [`Pass::written`]. One broken file does not
/// stop the pass.
pub struct Pass<P> {
    job: Job,
    report: Report<P>,
}

/// A [`Pass`] as mathematical values: the job, and what is reported so far.
#[verifier::ext_equal]
pub struct PassView<P> {
    pub job: JobView,
    pub files: Seq<(P, ConfResult<P>)>,
    pub errors: Seq<(P, Seq<char>)>,
}

/// Errors with their words as character sequences.
pub open spec fn error_views<P>(errors: Seq<(P, String)>) -> Seq<(P, Seq<char>)> {
    Seq::new(errors.len(), |i: int| (errors[i].0, errors[i].1@))
}

impl<P> View for Pass<P> {
    type V = PassView<P>;

    closed spec fn view(&self) -> PassView<P> {
        PassView {
            job: self.job@,
            files: self.report.files@,
            errors: error_views(self.report.errors@),
        }
    }
}

/// A pass that has seen no file.
pub open spec fn begun<P>(job: JobView) -> PassView<P> {
    PassView { job, files: Seq::empty(), errors: Seq::empty() }
}

/// A pass with one more result.
pub open spec fn with_result<P>(s: PassView<P>, path: P, r: ConfResult<P>) -> PassView<P> {
    PassView { files: s.files.push((path, r)), ..s }
}

/// A pass with one more error.
pub open spec fn with_error<P>(s: PassView<P>, path: P, e: Seq<char>) -> PassView<P> {
    PassView { errors: s.errors.push((path, e)), ..s }
}

impl<P> Pass<P> {
    /// A pass that has seen no file.
    pub fn begin(job: Job) -> (r: Self)
        ensures
            r@ == begun::<P>(job@),
    {
        let r = Pass { job, report: Report { files: Vec::new(), errors: Vec::new() } };
        assert(r@ =~= begun::<P>(job@));
        r
    }

    /// Take what reading a file gave. A file that has to be written is
    /// handed back; every other is reported at once.
    pub fn read(&mut self, path: P, found: std::result::Result<String, String>) -> (r: Option<
        Pending<P>,
    >)
        ensures
            match found {
                Err(e) => r is None && final(self)@ == with_error(old(self)@, path, e@),
                Ok(text) => match plan(old(self)@.job, text@) {
                    PlanView::NoAllowedIps => r is None && final(self)@ == with_result(
                        old(self)@,
                        path,
                        ConfResult::NoAllowedIps { removed: 0 },
                    ),
                    PlanView::Unchanged => r is None && final(self)@ == with_result(
                        old(self)@,
                        path,
                        ConfResult::Unchanged { removed: 0 },
                    ),
                    PlanView::Emptied { removed } => r is None && removed <= usize::MAX
                        && final(self)@ == with_result(
                        old(self)@,
                        path,
                        ConfResult::Emptied { removed: removed as usize },
                    ),
                    PlanView::Write { removed, text: new } => {
                        &&& r matches Some(p)
                        &&& p.path == path
                        &&& p.removed == removed
                        &&& p.text@ == new
                        &&& final(self)@ == old(self)@
                    },
                },
            },
    {
        let text = match found {
            Ok(t) => t,
            Err(e) => {
                let ghost done = self.report.errors@;
                self.report.errors.push((path, e));
                assert(error_views(done.push((path, e))) =~= error_views(done).push((path, e@)));
                return None;
            },
        };
        let todo = match &self.job {
            Job::Apply(v) => plan_value(text.as_str(), v.as_str()),
            Job::Subtract(r) => plan_removal(text.as_str(), r),
        };
        match todo {
            Plan::NoAllowedIps => {
                self.report.files.push((path, ConfResult::NoAllowedIps { removed: 0 }));
                None
            },
            Plan::Unchanged => {
                self.report.files.push((path, ConfResult::Unchanged { removed: 0 }));
                None
            },
            Plan::Emptied { removed } => {
                self.report.files.push((path, ConfResult::Emptied { removed }));
                None
            },
            Plan::Write { removed, text } => Some(Pending { path, removed, text }),
        }
    }

    /// Take the outcome of a write: the backup it made, if it made one, or
    /// the words of the failure.
    pub fn written(
        &mut self,
        pending: Pending<P>,
        outcome: std::result::Result<Option<P>, String>,
    )
        ensures
            final(self)@ == (match outcome {
                Ok(backup) => with_result(
                    old(self)@,
                    pending.path,
                    ConfResult::Written { removed: pending.removed, backup },
                ),
                Err(e) => with_error(old(self)@, pending.path, e@),
            }),
    {
        let path = pending.path;
        match outcome {
            Ok(backup) => {
                self.report.files.push(
                    (path, ConfResult::Written { removed: pending.removed, backup }),
                );
            },
            Err(e) => {
                let ghost done = self.report.errors@;
                self.report.errors.push((path, e));
                assert(error_views(done.push((path, e))) =~= error_views(done).push((path, e@)));
            },
        }
    }

    /// What the pass did.
    pub fn finish(self) -> (r: Report<P>)
        ensures
            r.files@ == self@.files,
            error_views(r.errors@) == self@.errors,
    {
        self.report
    }
}

/// Begin to write the list's value into every `.conf` of a folder.
pub fn apply<P>(store: &HostStore) -> (r: Result<Pass<P>>)
    ensures
        match r {
            Ok(pass) => {
                &&& refusal(store@.hosts) is None
                &&& pass@ == begun::<P>(JobView::Apply(value(store@.hosts)))
            },
            Err(Error::Invalid(m)) => refusal(store@.hosts) == Some(m@),
            Err(_) => false,
        },
{
    match value_or_error(store) {
        Ok(v) => Ok(apply_value(v.as_str())),
        Err(e) => Err(e),
    }
}

/// Begin to write an explicit value into every `.conf` of a folder.
pub fn apply_value<P>(value: &str) -> (r: Pass<P>)
    ensures
        r@ == begun::<P>(JobView::Apply(value@)),
{
    Pass::begin(Job::Apply(owned(value)))
}

// ---------------------------------------------------------------------------
// Writing one file
// ---------------------------------------------------------------------------

/// A step of replacing a file.
#[derive(Debug, Clone, Copy, PartialEq, Eq, Structural)]
pub enum WriteStep {
    /// Copy the file to its backup.
    CopyToBackup,
    /// Write the new text beside the file.
    WriteTemporary,
    /// Move the new text over the file.
    RenameOver,
}

/// The steps that replace a file, in order. A backup that exists is the
/// owner's, or an earlier rescue, and is not overwritten.
pub open spec fn replacing(backup_exists: bool) -> Seq<WriteStep> {
    if backup_exists {
        seq![WriteStep::WriteTemporary, WriteStep::RenameOver]
    } else {
        seq![WriteStep::CopyToBackup, WriteStep::WriteTemporary, WriteStep::RenameOver]
    }
}

/// The steps that replace a file, in order. Each is taken only when the one
/// before it succeeded.
pub fn write_with_backup(backup_exists: bool) -> (r: Vec<WriteStep>)
    ensures
        r@ == replacing(backup_exists),
{
    let mut out: Vec<WriteStep> = Vec::new();
    if !backup_exists {
        out.push(WriteStep::CopyToBackup);
    }
    out.push(WriteStep::WriteTemporary);
    out.push(WriteStep::RenameOver);
    assert(out@ =~= replacing(backup_exists));
    out
}

// ---------------------------------------------------------------------------
// Laws
// ---------------------------------------------------------------------------

/// True when no entry comes after one that its name should follow.
pub open spec fn sorted_by_name<P>(list: Seq<DirEntry<P>>) -> bool {
    forall|i: int, j: int|
        0 <= i < j < list.len() ==> !bytes_less(
            (#[trigger] list[j]).name@,
            (#[trigger] list[i]).name@,
        )
}

proof fn lemma_place<P>(list: Seq<DirEntry<P>>, name: Seq<u8>)
    requires
        sorted_by_name(list),
    ensures
        place(list, name) <= list.len(),
        forall|k: int|
            0 <= k < place(list, name) ==> !bytes_less(name, (#[trigger] list[k]).name@),
        forall|k: int|
            place(list, name) <= k < list.len() ==> bytes_less(name, (#[trigger] list[k]).name@),
    decreases list.len(),
{
    if list.len() > 0 {
        let n = list.len() - 1;
        let d = list.drop_last();
        if bytes_less(name, list.last().name@) {
            assert forall|i: int, j: int| 0 <= i < j < d.len() implies !bytes_less(
                (#[trigger] d[j]).name@,
                (#[trigger] d[i]).name@,
            ) by {
                assert(!bytes_less(list[j].name@, list[i].name@));
            }
            lemma_place(d, name);
            assert forall|k: int| 0 <= k < place(list, name) implies !bytes_less(
                name,
                (#[trigger] list[k]).name@,
            ) by {
                assert(d[k] == list[k]);
            }
            assert forall|k: int| place(list, name) <= k < list.len() implies bytes_less(
                name,
                (#[trigger] list[k]).name@,
            ) by {
                if k < n {
                    assert(d[k] == list[k]);
                }
            }
        } else {
            assert forall|k: int| 0 <= k < list.len() implies !bytes_less(
                name,
                (#[trigger] list[k]).name@,
            ) by {
                if bytes_less(name, list[k].name@) && k < n {
                    assert(!bytes_less(list[n].name@, list[k].name@));
                    lemma_bytes_order(name, list[k].name@, list[n].name@);
                    lemma_bytes_order(list[n].name@, name, list[k].name@);
                    lemma_bytes_order(list[n].name@, list[k].name@, name);
                }
            }
        }
    }
}

/// The files of a folder come sorted by name, and are its `.conf` files, all
/// of them, each as often as the folder has it, and no other entry.
pub proof fn law_listing_is_sorted_and_complete<P>(entries: Seq<DirEntry<P>>)
    ensures
        sorted_by_name(listing(entries)),
        forall|e: DirEntry<P>| #[trigger]
            listing(entries).contains(e) <==> entries.contains(e) && is_conf(e),
        forall|e: DirEntry<P>| #[trigger]
            listing(entries).to_multiset().count(e) == if is_conf(e) {
                entries.to_multiset().count(e)
            } else {
                0
            },
    decreases entries.len(),
{
    broadcast use vstd::multiset::group_multiset_axioms;

    if entries.len() == 0 {
        entries.to_multiset_ensures();
        listing(entries).to_multiset_ensures();
    } else {
        let d = entries.drop_last();
        let done = listing(d);
        let e = entries.last();
        let r = listing(entries);
        law_listing_is_sorted_and_complete(d);
        let at = place(done, e.name@) as int;
        lemma_place(done, e.name@);
        d.to_multiset_ensures();
        assert(d.push(e) =~= entries);
        vstd::seq_lib::to_multiset_insert(done, at, e);
        assert forall|x: DirEntry<P>| #[trigger] r.to_multiset().count(x) == if is_conf(x) {
            entries.to_multiset().count(x)
        } else {
            0
        } by {
            assert(done.to_multiset().count(x) == if is_conf(x) {
                d.to_multiset().count(x)
            } else {
                0
            });
        }
        if is_conf(e) {
            assert forall|i: int, j: int| 0 <= i < j < r.len() implies !bytes_less(
                (#[trigger] r[j]).name@,
                (#[trigger] r[i]).name@,
            ) by {
                let a = if i < at {
                    i
                } else {
                    i - 1
                };
                let b = if j < at {
                    j
                } else {
                    j - 1
                };
                if i == at {
                    assert(r[j] == done[b]);
                    lemma_bytes_order(e.name@, done[b].name@, e.name@);
                } else if j == at {
                    assert(r[i] == done[a]);
                } else {
                    assert(r[i] == done[a] && r[j] == done[b]);
                }
            }
        }
        assert forall|x: DirEntry<P>| #[trigger] r.contains(x) <==> entries.contains(x) && is_conf(
            x,
        ) by {
            if r.contains(x) {
                let k = choose|k: int| 0 <= k < r.len() && r[k] == x;
                if is_conf(e) && k == at {
                    assert(entries[entries.len() - 1] == x);
                } else {
                    if is_conf(e) && k > at {
                        assert(done[k - 1] == x);
                    } else {
                        assert(done[k] == x);
                    }
                    assert(done.contains(x));
                    let j = choose|j: int| 0 <= j < d.len() && d[j] == x;
                    assert(entries[j] == x);
                }
            }
            if entries.contains(x) && is_conf(x) {
                let j = choose|j: int| 0 <= j < entries.len() && entries[j] == x;
                if j < d.len() {
                    assert(d[j] == x);
                    assert(done.contains(x));
                    let k = choose|k: int| 0 <= k < done.len() && done[k] == x;
                    if is_conf(e) {
                        if k < at {
                            assert(r[k] == x);
                        } else {
                            assert(r[k + 1] == x);
                        }
                    } else {
                        assert(r[k] == x);
                    }
                } else {
                    assert(r[at] == x);
                }
            }
        }
    }
}

proof fn lemma_names(entries: Seq<Seq<char>>, e: Seq<char>)
    requires
        names(entries).len() == 0,
        entries.contains(e),
    ensures
        !is_name(e),
    decreases entries.len(),
{
    let k = choose|k: int| 0 <= k < entries.len() && entries[k] == e;
    if k < entries.len() - 1 {
        assert(entries.drop_last()[k] == e);
        lemma_names(entries.drop_last(), e);
    }
}

proof fn lemma_addressless(hosts: Seq<HostView>)
    requires
        addressless(hosts).len() == 0,
    ensures
        forall|i: int| 0 <= i < hosts.len() ==> (#[trigger] hosts[i]).ips.len() > 0,
    decreases hosts.len(),
{
    if hosts.len() > 0 {
        let d = hosts.drop_last();
        lemma_addressless(d);
        assert forall|i: int| 0 <= i < hosts.len() implies (#[trigger] hosts[i]).ips.len() > 0 by {
            if i < d.len() {
                assert(d[i] == hosts[i]);
            }
        }
    }
}

/// A name is never written as an address, and a list is written whole or not
/// at all: where a value is given, there are hosts, each has an address, and
/// no entry of the value is a name.
pub proof fn law_written_list_is_whole(hosts: Seq<HostView>)
    requires
        refusal(hosts) is None,
    ensures
        hosts.len() > 0,
        forall|i: int| 0 <= i < hosts.len() ==> (#[trigger] hosts[i]).ips.len() > 0,
        forall|e: Seq<char>| #[trigger] unique(all_entries(hosts)).contains(e) ==> !is_name(e),
{
    lemma_addressless(hosts);
    lemma_add_missing(Seq::empty(), all_entries(hosts));
    assert forall|e: Seq<char>| #[trigger] unique(all_entries(hosts)).contains(e) implies !is_name(
        e,
    ) by {
        lemma_names(all_entries(hosts), e);
    }
}

/// True for a character that an address or a network can hold.
spec fn is_route_char(c: char) -> bool {
    is_address_char(c) || c == '/' || c == '+'
}

/// An entry that is no name is made of the characters of addresses and
/// networks.
proof fn lemma_route_chars(e: Seq<char>, k: int)
    requires
        !is_name(e),
        0 <= k < e.len(),
    ensures
        is_route_char(e[k]),
{
    if trim_end(e, Class::ZeroNetwork).len() == 0 {
        lemma_trim_end(e, Class::ZeroNetwork);
        assert(Class::ZeroNetwork.has(e[k]));
        assert(hex_digit('0') is Some);
    } else if ip(e) is Some {
        lemma_address_chars(e);
    } else {
        let (a, prefix) = split_once(e, '/')->0;
        lemma_address_chars(a);
        lemma_first_of(e, Class::One('/'));
        if k < a.len() {
            assert(a[k] == e[k]);
        } else if k > a.len() {
            let d = k - a.len() - 1;
            assert(prefix[d] == e[k]);
            if d > 0 || prefix[0] != '+' {
                let digits = if prefix[0] == '+' {
                    prefix.skip(1)
                } else {
                    prefix
                };
                let m = if prefix[0] == '+' {
                    d - 1
                } else {
                    d
                };
                assert(digits[m] == e[k]);
                assert(all_digits(digits));
                assert(is_digit(digits[m]));
            }
        }
    }
}

/// An entry that is no name is read back from a list as it is: it holds no
/// comma, no white space and no line break, and does not begin with `=`.
proof fn lemma_route(e: Seq<char>)
    requires
        !is_name(e),
        e.len() > 0,
    ensures
        is_piece(e, ','),
        !contains_char(e, '\n'),
        e[0] != '=',
{
    lemma_route_chars(e, 0);
    lemma_route_chars(e, e.len() - 1);
    assert(!is_white_space(e[0]) && !is_white_space(e.last()));
    assert(trim_start(e, Class::White) == e);
    assert(trim(e) == e);
    if contains_char(e, ',') {
        let k = choose|k: int| 0 <= k < e.len() && e[k] == ',';
        lemma_route_chars(e, k);
    }
    if contains_char(e, '\n') {
        let k = choose|k: int| 0 <= k < e.len() && e[k] == '\n';
        lemma_route_chars(e, k);
    }
}

proof fn lemma_entries_not_empty(hosts: Seq<HostView>, e: Seq<char>)
    requires
        all_entries(hosts).contains(e),
    ensures
        e.len() > 0,
    decreases hosts.len(),
{
    reveal_strlit("/32");
    reveal_strlit("/128");
    let all = all_entries(hosts);
    let k = choose|k: int| 0 <= k < all.len() && all[k] == e;
    if hosts.len() > 0 {
        let f = all_entries(hosts.drop_last());
        if k < f.len() {
            assert(f[k] == e);
            lemma_entries_not_empty(hosts.drop_last(), e);
        } else {
            let x = hosts.last().ips[k - f.len()];
            assert(e == entry(x));
        }
    }
}

/// The value of a list that is written is one line, whose entries are read
/// back one by one.
pub proof fn law_written_value_is_one_line(hosts: Seq<HostView>)
    requires
        refusal(hosts) is None,
    ensures
        !contains_char(value(hosts), '\n'),
        pieces(value(hosts), Class::One(',')) == unique(all_entries(hosts)),
        value_of(value(hosts)) == value(hosts),
{
    let listed = unique(all_entries(hosts));
    let v = value(hosts);
    law_written_list_is_whole(hosts);
    lemma_add_missing(Seq::empty(), all_entries(hosts));
    assert forall|k: int| 0 <= k < listed.len() implies is_piece(#[trigger] listed[k], ',')
        && !contains_char(listed[k], '\n') && listed[k][0] != '=' by {
        assert(listed.contains(listed[k]));
        lemma_entries_not_empty(hosts, listed[k]);
        lemma_route(listed[k]);
    }
    lemma_joined_chars(listed, '\n');
    if listed.len() > 0 {
        lemma_pieces_of_joined(listed);
        assert(is_piece(listed[0], ',') && listed[0][0] != '=');
        assert(trim_start(v, Class::One('=')) == v);
    } else {
        assert(v =~= Seq::<char>::empty());
        assert(value_of(v) =~= Seq::<char>::empty());
        lemma_pieces_of_one(v, Class::One(','));
        assert(listed =~= Seq::<Seq<char>>::empty());
    }
}

/// What an apply writes is read back as the list's entries: each
/// `AllowedIPs` line of the file lists them, all of them, in order and once.
pub proof fn law_applied_list_is_read_back(text: Seq<char>, hosts: Seq<HostView>)
    requires
        refusal(hosts) is None,
    ensures
        ({
            let vals = values(conf(rewrite(text, value(hosts))));
            &&& vals.len() == values(conf(text)).len()
            &&& forall|i: int|
                0 <= i < vals.len() ==> pieces(#[trigger] vals[i], Class::One(',')) == unique(
                    all_entries(hosts),
                )
        }),
{
    let v = value(hosts);
    law_written_value_is_one_line(hosts);
    law_read_back(text, v);
    let vals = values(conf(rewrite(text, v)));
    assert forall|i: int| 0 <= i < vals.len() implies pieces(#[trigger] vals[i], Class::One(','))
        == unique(all_entries(hosts)) by {
        assert(values(conf(rewrite(text, v)))[i] == value_of(v));
    }
}

/// A second run changes nothing: a file that was written is found unchanged.
pub proof fn law_second_apply_changes_nothing(text: Seq<char>, value: Seq<char>)
    requires
        !contains_char(value, '\n'),
        has_allowed_ips_line(conf(text)),
    ensures
        apply_plan(rewrite(text, value), value) == PlanView::Unchanged,
{
    law_read_back(text, value);
    law_rewrite_idempotent(text, value);
    law_render_rewritten(text, value);
}

/// What a pass knows once a file was read, and written where that was asked
/// for.
pub open spec fn after_file<P>(
    s: PassView<P>,
    path: P,
    found: std::result::Result<Seq<char>, Seq<char>>,
    outcome: std::result::Result<Option<P>, Seq<char>>,
) -> PassView<P> {
    match found {
        Err(e) => with_error(s, path, e),
        Ok(text) => match plan(s.job, text) {
            PlanView::NoAllowedIps => with_result(s, path, ConfResult::NoAllowedIps { removed: 0 }),
            PlanView::Unchanged => with_result(s, path, ConfResult::Unchanged { removed: 0 }),
            PlanView::Emptied { removed } => with_result(
                s,
                path,
                ConfResult::Emptied { removed: removed as usize },
            ),
            PlanView::Write { removed, .. } => match outcome {
                Ok(backup) => with_result(
                    s,
                    path,
                    ConfResult::Written { removed: removed as usize, backup },
                ),
                Err(e) => with_error(s, path, e),
            },
        },
    }
}

/// Each file is reported once, as a result or as an error, and what was
/// reported of the others stays: one broken file does not stop the pass.
pub proof fn law_each_file_is_reported_once<P>(
    s: PassView<P>,
    path: P,
    found: std::result::Result<Seq<char>, Seq<char>>,
    outcome: std::result::Result<Option<P>, Seq<char>>,
)
    ensures
        ({
            let t = after_file(s, path, found, outcome);
            &&& t.job == s.job
            &&& (t.errors == s.errors && t.files.len() == s.files.len() + 1 && t.files.drop_last()
                == s.files && t.files.last().0 == path) || (t.files == s.files && t.errors.len()
                == s.errors.len() + 1 && t.errors.drop_last() == s.errors && t.errors.last().0
                == path)
        }),
{
    let t = after_file(s, path, found, outcome);
    if t.files.len() > s.files.len() {
        assert(t.files.drop_last() =~= s.files);
    } else {
        assert(t.errors.drop_last() =~= s.errors);
    }
}

/// A backup is made before anything is written, unless there is one, which
/// is not touched; and the file itself is replaced last.
pub proof fn law_backup_comes_first(backup_exists: bool)
    ensures
        replacing(backup_exists).contains(WriteStep::CopyToBackup) == !backup_exists,
        !backup_exists ==> replacing(backup_exists)[0] == WriteStep::CopyToBackup,
        replacing(backup_exists).last() == WriteStep::RenameOver,
{
    let r = replacing(backup_exists);
    if !backup_exists {
        assert(r[0] == WriteStep::CopyToBackup);
    }
}

/// The text of a file after a job was done on it.
pub open spec fn text_after(job: JobView, text: Seq<char>) -> Seq<char> {
    match plan(job, text) {
        PlanView::Write { text: new, .. } => new,
        _ => text,
    }
}

/// The files of a folder after a job was done on each of them.
pub open spec fn texts_after<P>(job: JobView, files: Seq<(P, Seq<char>)>) -> Seq<(P, Seq<char>)> {
    Seq::new(files.len(), |i: int| (files[i].0, text_after(job, files[i].1)))
}

/// A pass over files that can all be read, with the outcome of the write of
/// each, where it is written.
pub open spec fn pass_over<P>(
    job: JobView,
    files: Seq<(P, Seq<char>)>,
    outcomes: Seq<std::result::Result<Option<P>, Seq<char>>>,
) -> PassView<P>
    decreases files.len(),
{
    if files.len() == 0 {
        begun(job)
    } else {
        after_file(
            pass_over(job, files.drop_last(), outcomes.drop_last()),
            files.last().0,
            Ok(files.last().1),
            outcomes.last(),
        )
    }
}

/// True when every write succeeded.
pub open spec fn all_written<P>(
    outcomes: Seq<std::result::Result<Option<P>, Seq<char>>>,
) -> bool {
    forall|i: int| 0 <= i < outcomes.len() ==> (#[trigger] outcomes[i]) is Ok
}

/// A second pass finds nothing to write where each file that the first one
/// wrote is found unchanged.
pub proof fn lemma_second_pass<P>(
    job: JobView,
    files: Seq<(P, Seq<char>)>,
    first: Seq<std::result::Result<Option<P>, Seq<char>>>,
    second: Seq<std::result::Result<Option<P>, Seq<char>>>,
)
    requires
        first.len() == files.len(),
        second.len() == files.len(),
        all_written(first),
        forall|i: int|
            0 <= i < files.len() && plan(job, (#[trigger] files[i]).1) is Write ==> plan(
                job,
                text_after(job, files[i].1),
            ) == PlanView::Unchanged,
    ensures
        ({
            let a = pass_over(job, files, first);
            let b = pass_over(job, texts_after(job, files), second);
            &&& a.job == job && b.job == job
            &&& a.errors.len() == 0 && b.errors.len() == 0
            &&& count(b.files, Kind::Written) == 0
            &&& count(b.files, Kind::Unchanged) == count(a.files, Kind::Written) + count(
                a.files,
                Kind::Unchanged,
            )
            &&& count(b.files, Kind::Emptied) == count(a.files, Kind::Emptied)
            &&& count(b.files, Kind::NoAllowedIps) == count(a.files, Kind::NoAllowedIps)
        }),
        texts_after(job, texts_after(job, files)) == texts_after(job, files),
    decreases files.len(),
{
    let after = texts_after(job, files);
    if files.len() > 0 {
        let d = files.drop_last();
        let n = files.len() - 1;
        assert forall|i: int| 0 <= i < first.drop_last().len() implies (
        #[trigger] first.drop_last()[i]) is Ok by {
            assert(first[i] is Ok);
        }
        assert forall|i: int| 0 <= i < d.len() && plan(job, (#[trigger] d[i]).1) is Write implies
            plan(job, text_after(job, d[i].1)) == PlanView::Unchanged by {
            assert(d[i] == files[i]);
        }
        lemma_second_pass(job, d, first.drop_last(), second.drop_last());
        assert(first[n] is Ok);
        assert(after.drop_last() =~= texts_after(job, d));
        assert(after.last() == (files[n].0, text_after(job, files[n].1)));
        assert(plan(job, files[n].1) is Write ==> plan(job, text_after(job, files[n].1))
            == PlanView::Unchanged);
        let p = pass_over(job, d, first.drop_last());
        let q = pass_over(job, texts_after(job, d), second.drop_last());
        let a = pass_over(job, files, first);
        let b = pass_over(job, after, second);
        assert(a.files.drop_last() =~= p.files);
        assert(b.files.drop_last() =~= q.files);
    }
    assert forall|i: int| 0 <= i < after.len() implies #[trigger] texts_after(job, after)[i]
        == after[i] by {
        assert(after[i] == (files[i].0, text_after(job, files[i].1)));
        assert(plan(job, files[i].1) is Write ==> plan(job, text_after(job, files[i].1))
            == PlanView::Unchanged);
    }
    assert(texts_after(job, after) =~= after);
}

/// A second apply over the files of a folder writes nothing: every file that
/// the first one wrote or found correct is found correct, and no text
/// changes.
pub proof fn law_second_apply_over_a_folder<P>(
    value: Seq<char>,
    files: Seq<(P, Seq<char>)>,
    first: Seq<std::result::Result<Option<P>, Seq<char>>>,
    second: Seq<std::result::Result<Option<P>, Seq<char>>>,
)
    requires
        !contains_char(value, '\n'),
        first.len() == files.len(),
        second.len() == files.len(),
        all_written(first),
    ensures
        ({
            let job = JobView::Apply(value);
            let a = pass_over(job, files, first);
            let b = pass_over(job, texts_after(job, files), second);
            &&& a.errors.len() == 0 && b.errors.len() == 0
            &&& count(b.files, Kind::Written) == 0
            &&& count(b.files, Kind::Unchanged) == count(a.files, Kind::Written) + count(
                a.files,
                Kind::Unchanged,
            )
            &&& texts_after(job, texts_after(job, files)) == texts_after(job, files)
        }),
{
    let job = JobView::Apply(value);
    assert forall|i: int| 0 <= i < files.len() && plan(job, (#[trigger] files[i]).1) is Write implies
        plan(job, text_after(job, files[i].1)) == PlanView::Unchanged by {
        law_second_apply_changes_nothing(files[i].1, value);
    }
    lemma_second_pass(job, files, first, second);
}

/// The files of a folder, by name, after one step of replacing the file
/// `name` with `text`.
pub open spec fn step_done(
    folder: Map<Seq<char>, Seq<char>>,
    name: Seq<char>,
    text: Seq<char>,
    step: WriteStep,
) -> Map<Seq<char>, Seq<char>> {
    match step {
        WriteStep::CopyToBackup => folder.insert(backup_name(name), folder[name]),
        WriteStep::WriteTemporary => folder.insert(temporary_name(name), text),
        WriteStep::RenameOver => folder.remove(temporary_name(name)).insert(
            name,
            folder[temporary_name(name)],
        ),
    }
}

/// The files of a folder after the steps of replacing a file.
pub open spec fn steps_done(
    folder: Map<Seq<char>, Seq<char>>,
    name: Seq<char>,
    text: Seq<char>,
    steps: Seq<WriteStep>,
) -> Map<Seq<char>, Seq<char>>
    decreases steps.len(),
{
    if steps.len() == 0 {
        folder
    } else {
        step_done(steps_done(folder, name, text, steps.drop_last()), name, text, steps.last())
    }
}

/// True for the name of a config: its extension is `conf`, in any case of
/// letter.
pub open spec fn names_a_conf(name: Seq<char>) -> bool {
    name.len() > 5 && eq_ignore_case(name.skip(name.len() - 5), ".conf"@)
}

/// Replacing a config gives it the new text, and touches nothing else but
/// the two files beside it: the backup holds what the config held, unless
/// there was one, which stays as it was; and the file that the text was
/// written to first is gone.
pub proof fn law_replacing_touches_one_config(
    folder: Map<Seq<char>, Seq<char>>,
    name: Seq<char>,
    text: Seq<char>,
)
    requires
        names_a_conf(name),
        folder.contains_key(name),
    ensures
        ({
            let has_backup = folder.contains_key(backup_name(name));
            let kept = if has_backup {
                folder
            } else {
                folder.insert(backup_name(name), folder[name])
            };
            steps_done(folder, name, text, replacing(has_backup)) == kept.insert(name, text).remove(
                temporary_name(name),
            )
        }),
        backup_name(name) != name,
        temporary_name(name) != name,
        backup_name(name) != temporary_name(name),
{
    let bak = backup_name(name);
    let tmp = temporary_name(name);
    reveal_strlit(".conf");
    reveal_strlit(".conf.bak");
    reveal_strlit(".conf.tmp");
    let tail = name.skip(name.len() - 5);
    assert(tail[4] == name.last());
    assert(name.last() == 'f' || name.last() == 'F');
    assert(bak.last() == 'k');
    assert(tmp.last() == 'p');
    let has_backup = folder.contains_key(bak);
    let steps = replacing(has_backup);
    reveal_with_fuel(steps_done, 4);
    let kept = if has_backup {
        folder
    } else {
        folder.insert(bak, folder[name])
    };
    if has_backup {
        assert(steps.drop_last() =~= seq![WriteStep::WriteTemporary]);
        assert(steps.drop_last().drop_last() =~= Seq::<WriteStep>::empty());
    } else {
        assert(steps.drop_last() =~= seq![WriteStep::CopyToBackup, WriteStep::WriteTemporary]);
        assert(steps.drop_last().drop_last() =~= seq![WriteStep::CopyToBackup]);
        assert(steps.drop_last().drop_last().drop_last() =~= Seq::<WriteStep>::empty());
    }
    assert(steps_done(folder, name, text, steps.drop_last()) =~= kept.insert(tmp, text));
    assert(steps_done(folder, name, text, steps) =~= kept.insert(name, text).remove(tmp));
}

/// After an apply every `AllowedIPs` line of a file lists exactly the value,
/// whether the file was written or found correct: there are as many lines
/// as before, and a file without such a line is not touched. A file is
/// written only where its text changes.
pub proof fn law_apply_gives_every_line_the_value(text: Seq<char>, value: Seq<char>)
    requires
        !contains_char(value, '\n'),
    ensures
        ({
            let before = values(conf(text));
            let after = values(conf(text_after(JobView::Apply(value), text)));
            &&& after.len() == before.len()
            &&& forall|i: int| 0 <= i < after.len() ==> #[trigger] after[i] == value_of(value)
            &&& trim(value) == value && (value.len() > 0 ==> value[0] != '=') ==> value_of(value)
                == value
            &&& match apply_plan(text, value) {
                PlanView::NoAllowedIps => before.len() == 0,
                PlanView::Unchanged => before.len() > 0,
                PlanView::Write { removed, text: new } => before.len() > 0 && removed == 1 && new
                    != text,
                PlanView::Emptied { .. } => false,
            }
        }),
{
    law_read_back(text, value);
    law_render_rewritten(text, value);
    law_rendered_text_is_stable(text);
    law_lines_with_a_value(conf(text));
}

/// An apply keeps every line that is no `AllowedIPs` line as it is, and of
/// those everything up to the `=` and the line ending.
pub proof fn law_apply_keeps_the_rest(text: Seq<char>, value: Seq<char>)
    requires
        !contains_char(value, '\n'),
    ensures
        ({
            let after = raw_lines(text_after(JobView::Apply(value), text));
            &&& after.len() == raw_lines(text).len()
            &&& forall|i: int|
                0 <= i < after.len() ==> match line(raw_lines(text)[i]) {
                    LineView::Verbatim(_) => #[trigger] after[i] == raw_lines(text)[i],
                    LineView::AllowedIps { prefix, cr, .. } => line(
                        #[trigger] after[i],
                    ) matches LineView::AllowedIps { prefix: p, cr: c, .. } && p == prefix && c
                        == cr,
                }
        }),
{
    let old = raw_lines(text);
    let after = raw_lines(text_after(JobView::Apply(value), text));
    law_rewrite_keeps_other_lines(text, value);
    lemma_raw_lines(text);
    if apply_plan(text, value) is Write {
        assert forall|i: int| 0 <= i < after.len() implies match line(old[i]) {
            LineView::Verbatim(_) => #[trigger] after[i] == old[i],
            LineView::AllowedIps { prefix, cr, .. } => line(
                #[trigger] after[i],
            ) matches LineView::AllowedIps { prefix: p, cr: c, .. } && p == prefix && c == cr,
        } by {
            lemma_line_of_rewritten(old[i], value);
        }
    }
}

/// A file is found correct if and only if it has an `AllowedIPs` line and
/// each of them reads, up to white space at its end, as an apply writes it.
pub proof fn law_correct_files_are_left_alone(text: Seq<char>, value: Seq<char>)
    requires
        !contains_char(value, '\n'),
    ensures
        apply_plan(text, value) == PlanView::Unchanged <==> values(conf(text)).len() > 0
            && forall|i: int|
            0 <= i < conf(text).len() && (#[trigger] conf(text)[i]) is AllowedIps ==> trim_end(
                conf(text)[i]->suffix,
                Class::White,
            ) == trim_end(seq![' '] + value, Class::White),
{
    law_rewrite_changes_other_values(text, value);
    law_lines_with_a_value(conf(text));
}

/// A list is written if and only if it has hosts, each of them has an
/// address, and every entry is an address, a network or a spelling of the
/// network of all addresses.
pub proof fn law_when_a_list_is_written(hosts: Seq<HostView>)
    ensures
        refusal(hosts) is None <==> {
            &&& hosts.len() > 0
            &&& forall|i: int| 0 <= i < hosts.len() ==> (#[trigger] hosts[i]).ips.len() > 0
            &&& forall|i: int, k: int|
                0 <= i < hosts.len() && 0 <= k < hosts[i].ips.len() ==> {
                    let e = entry(#[trigger] hosts[i].ips[k]);
                    is_ip_or_network(e) || forall|j: int|
                        0 <= j < e.len() ==> #[trigger] e[j] == '0' || e[j] == '/' || e[j] == ':'
                }
        },
{
    let all = all_entries(hosts);
    if refusal(hosts) is None {
        law_written_list_is_whole(hosts);
        law_value_is_every_address_once(hosts);
        assert forall|i: int, k: int|
            0 <= i < hosts.len() && 0 <= k < hosts[i].ips.len() implies {
            let e = entry(#[trigger] hosts[i].ips[k]);
            is_ip_or_network(e) || forall|j: int|
                0 <= j < e.len() ==> #[trigger] e[j] == '0' || e[j] == '/' || e[j] == ':'
        } by {
            let e = entry(hosts[i].ips[k]);
            assert(is_entry_of(hosts, e));
            assert(unique(all).contains(e));
            lemma_zero_network(e);
        }
    }
    if hosts.len() > 0 && (forall|i: int|
        0 <= i < hosts.len() ==> (#[trigger] hosts[i]).ips.len() > 0) && (forall|i: int, k: int|
        0 <= i < hosts.len() && 0 <= k < hosts[i].ips.len() ==> {
            let e = entry(#[trigger] hosts[i].ips[k]);
            is_ip_or_network(e) || forall|j: int|
                0 <= j < e.len() ==> #[trigger] e[j] == '0' || e[j] == '/' || e[j] == ':'
        }) {
        lemma_all_addressed(hosts);
        assert forall|m: int| 0 <= m < all.len() implies !is_name(#[trigger] all[m]) by {
            let e = all[m];
            assert(all.contains(e));
            lemma_all_entries(hosts, e);
            let (i, k) = choose|i: int, k: int|
                0 <= i < hosts.len() && 0 <= k < hosts[i].ips.len() && entry(
                    #[trigger] hosts[i].ips[k],
                ) == e;
            lemma_zero_network(e);
        }
        lemma_no_names(all);
    }
}

proof fn lemma_zero_network(e: Seq<char>)
    ensures
        is_name(e) <==> !is_ip_or_network(e) && !(forall|j: int|
            0 <= j < e.len() ==> #[trigger] e[j] == '0' || e[j] == '/' || e[j] == ':'),
{
    let t = trim_end(e, Class::ZeroNetwork);
    lemma_trim_end(e, Class::ZeroNetwork);
    if t.len() == 0 {
        assert forall|j: int| 0 <= j < e.len() implies #[trigger] e[j] == '0' || e[j] == '/' || e[j]
            == ':' by {
            assert(Class::ZeroNetwork.has(e[j]));
        }
    } else if forall|j: int|
        0 <= j < e.len() ==> #[trigger] e[j] == '0' || e[j] == '/' || e[j] == ':' {
        assert(t.last() == e[t.len() - 1]);
        assert(Class::ZeroNetwork.has(e[t.len() - 1]));
    }
}

proof fn lemma_no_names(entries: Seq<Seq<char>>)
    requires
        forall|m: int| 0 <= m < entries.len() ==> !is_name(#[trigger] entries[m]),
    ensures
        names(entries).len() == 0,
    decreases entries.len(),
{
    if entries.len() > 0 {
        let d = entries.drop_last();
        assert forall|m: int| 0 <= m < d.len() implies !is_name(#[trigger] d[m]) by {
            assert(d[m] == entries[m]);
        }
        lemma_no_names(d);
        assert(!is_name(entries[entries.len() - 1]));
    }
}

proof fn lemma_all_addressed(hosts: Seq<HostView>)
    requires
        forall|i: int| 0 <= i < hosts.len() ==> (#[trigger] hosts[i]).ips.len() > 0,
    ensures
        addressless(hosts).len() == 0,
    decreases hosts.len(),
{
    if hosts.len() > 0 {
        let d = hosts.drop_last();
        assert forall|i: int| 0 <= i < d.len() implies (#[trigger] d[i]).ips.len() > 0 by {
            assert(d[i] == hosts[i]);
        }
        lemma_all_addressed(d);
        assert(hosts[hosts.len() - 1].ips.len() > 0);
    }
}

/// What a refusal names: the targets of the hosts without an address, in
/// list order; the entries that are names, in the order of the list.
pub proof fn law_refused_hosts(hosts: Seq<HostView>, entries: Seq<Seq<char>>)
    ensures
        addressless(hosts) == hosts.filter(|h: HostView| h.ips.len() == 0).map_values(
            |h: HostView| h.target,
        ),
        names(entries) == entries.filter(|e: Seq<char>| is_name(e)),
    decreases hosts.len() + entries.len(),
{
    reveal(Seq::filter);
    let none = |h: HostView| h.ips.len() == 0;
    let target = |h: HostView| h.target;
    if hosts.len() > 0 {
        let d = hosts.drop_last();
        law_refused_hosts(d, entries);
        if none(hosts.last()) {
            assert(d.filter(none).push(hosts.last()).map_values(target) =~= d.filter(
                none,
            ).map_values(target).push(hosts.last().target));
        }
    } else {
        assert(addressless(hosts) =~= hosts.filter(none).map_values(target));
        if entries.len() > 0 {
            law_refused_hosts(hosts, entries.drop_last());
        } else {
            assert(names(entries) =~= entries);
        }
    }
}

/// The hosts without an address come first: as long as there are any, a
/// refusal names their targets and nothing else. An empty list is refused
/// as such, and of entries that are names each is told once, in order.
pub proof fn law_refusal_names_the_hosts(hosts: Seq<HostView>)
    ensures
        ({
            let missing = hosts.filter(|h: HostView| h.ips.len() == 0).map_values(
                |h: HostView| h.target,
            );
            let named = all_entries(hosts).filter(|e: Seq<char>| is_name(e));
            &&& missing.len() > 0 ==> refusal(hosts) == Some(
                "these hosts have no addresses yet, run `resolve` first: "@ + join(missing, ", "@),
            )
            &&& hosts.len() == 0 ==> refusal(hosts) == Some(
                "the host list is empty — applying it would remove every route"@,
            )
            &&& hosts.len() > 0 && missing.len() == 0 && named.len() > 0 ==> refusal(hosts) == Some(
                "these hosts would be written as names, not addresses: "@ + join(
                    sorted_unique(named),
                    ", "@,
                ) + " — resolve them first"@,
            )
        }),
{
    law_refused_hosts(hosts, all_entries(hosts));
    if hosts.len() == 0 {
        assert(hosts.filter(|h: HostView| h.ips.len() == 0).len() == 0) by {
            reveal(Seq::filter);
        }
    }
}

/// The counts of a report are over all its files: how many were written,
/// found correct, left alone so as not to be emptied, or have no line; and
/// how many entries the written ones lost.
pub proof fn law_counts_are_over_all_files<P>(
    a: Seq<(P, ConfResult<P>)>,
    b: Seq<(P, ConfResult<P>)>,
    f: (P, ConfResult<P>),
)
    ensures
        count(a, Kind::Written) == a.filter(|f: (P, ConfResult<P>)| f.1 is Written).len(),
        count(a, Kind::Unchanged) == a.filter(|f: (P, ConfResult<P>)| f.1 is Unchanged).len(),
        count(a, Kind::Emptied) == a.filter(|f: (P, ConfResult<P>)| f.1 is Emptied).len(),
        count(a, Kind::NoAllowedIps) == a.filter(
            |f: (P, ConfResult<P>)| f.1 is NoAllowedIps,
        ).len(),
        removed_total(a + b) == removed_total(a) + removed_total(b),
        removed_total(seq![f]) == (match f.1 {
            ConfResult::Written { removed, .. } => removed as nat,
            _ => 0,
        }),
    decreases a.len() + b.len(),
{
    reveal(Seq::filter);
    if a.len() > 0 {
        law_counts_are_over_all_files(a.drop_last(), b, f);
    }
    if b.len() > 0 {
        law_counts_are_over_all_files(a, b.drop_last(), f);
        assert((a + b).drop_last() =~= a + b.drop_last());
        assert((a + b).last() == b.last());
    } else {
        assert(a + b =~= a);
    }
    reveal_with_fuel(removed_total, 2);
    assert(seq![f].drop_last() =~= Seq::<(P, ConfResult<P>)>::empty());
    assert(seq![f].last() == f);
}

/// The name of a config is anything, but not nothing, with `.conf` behind it
/// in any case of letter.
pub proof fn law_name_of_a_config(stem: Seq<u8>, dot: u8, c: u8, o: u8, n: u8, f: u8)
    ensures
        is_conf_name(stem + seq![dot, c, o, n, f]) <==> {
            &&& stem.len() > 0
            &&& dot == 0x2e
            &&& c == 0x43 || c == 0x63
            &&& o == 0x4f || o == 0x6f
            &&& n == 0x4e || n == 0x6e
            &&& f == 0x46 || f == 0x66
        },
        stem.len() <= 5 ==> !is_conf_name(stem),
{
    let name = stem + seq![dot, c, o, n, f];
    let k = stem.len() as int;
    assert(name[k] == dot && name[k + 1] == c && name[k + 2] == o && name[k + 3] == n && name[k + 4]
        == f);
}

/// Only files are listed, not folders, and only those with the name of a
/// config.
pub proof fn law_only_config_files_are_listed<P>(entries: Seq<DirEntry<P>>, e: DirEntry<P>)
    ensures
        listing(entries).contains(e) <==> entries.contains(e) && e.is_file && is_conf_name(e.name@),
{
    law_listing_is_sorted_and_complete(entries);
    assert(listing(entries).contains(e) <==> entries.contains(e) && is_conf(e));
}

} // verus!
