//! The configured domains and the results of their last speed test.

use vstd::prelude::*;

use crate::cache;
use crate::cache::Cache;
use crate::candidates;
use crate::candidates::parse_ip_content;
use crate::config::cfst::{CfstConfig, CfstDomainEntry, CfstMode};
use crate::domain;
use crate::domain::{Domain, DomainView, Name};
use crate::latency;
use crate::latency::fastest;
use crate::net;
use crate::net::{IpAddr, Ipv4Addr, Ipv6Addr};
use crate::time::Duration;

verus! {

/// Results of a CFST speed test for a single domain.
#[derive(Debug)]
pub struct CfstResults {
    /// The best IPv4 addresses, the fastest first.
    pub ipv4: Vec<Ipv4Addr>,
    /// The best IPv6 addresses, the fastest first.
    pub ipv6: Vec<Ipv6Addr>,
    /// When the test was done.
    pub updated_at: Duration,
    /// A later test could not be done.
    pub stale: bool,
}

/// Results of a test as sequences of addresses.
pub struct ResultsView {
    pub ipv4: Seq<Ipv4Addr>,
    pub ipv6: Seq<Ipv6Addr>,
    pub updated_at: Duration,
    pub stale: bool,
}

impl View for CfstResults {
    type V = ResultsView;

    open spec fn view(&self) -> ResultsView {
        ResultsView {
            ipv4: self.ipv4@,
            ipv6: self.ipv6@,
            updated_at: self.updated_at,
            stale: self.stale,
        }
    }
}

impl Clone for CfstResults {
    fn clone(&self) -> (r: CfstResults)
        ensures
            r@ == self@,
    {
        let ipv4 = self.ipv4.clone();
        let ipv6 = self.ipv6.clone();
        proof {
            assert(ipv4@ =~= self.ipv4@);
            assert(ipv6@ =~= self.ipv6@);
        }
        CfstResults { ipv4, ipv6, updated_at: self.updated_at, stale: self.stale }
    }
}

impl CfstResults {
    /// Whether there is an IPv4 address.
    pub fn has_ipv4(&self) -> (r: bool)
        ensures
            r == (self@.ipv4.len() > 0),
    {
        !self.ipv4.is_empty()
    }

    /// Whether there is an IPv6 address.
    pub fn has_ipv6(&self) -> (r: bool)
        ensures
            r == (self@.ipv6.len() > 0),
    {
        !self.ipv6.is_empty()
    }
}

/// Convert a Domain to a DNS Name for use as a cache key.
pub fn domain_to_name(domain: &Domain) -> (r: Option<Name>)
    ensures
        match domain@ {
            DomainView::Name(name) => r is Some && r->0@ == name,
            DomainView::DomainSet(_) => r is None,
        },
{
    match domain {
        Domain::Name(wildcard_name) => Some(wildcard_name.name().clone()),
        Domain::DomainSet(_) => None,
    }
}

/// The entry covers the queried name.
pub open spec fn covers(entry: CfstDomainEntry, qname: Seq<char>) -> bool {
    entry.domain@ matches DomainView::Name(name) && domain::matches_domain(qname, name)
}

/// The entry at `i` is the first that covers the queried name.
pub open spec fn first_cover(domains: Seq<CfstDomainEntry>, qname: Seq<char>, i: int) -> bool {
    &&& 0 <= i < domains.len()
    &&& covers(domains[i], qname)
    &&& forall|j: int| 0 <= j < i ==> !covers(#[trigger] domains[j], qname)
}

/// The file of candidates for an entry: its own, or else the global one.
pub open spec fn ip_file_for(config: CfstConfig, entry: CfstDomainEntry) -> Option<Seq<char>> {
    match entry.ip_file {
        Some(path) => Some(path@),
        None => match config.ip_file {
            Some(path) => Some(path@),
            None => None,
        },
    }
}

/// How many results are kept for an entry: its own setting, or else the global one.
pub open spec fn result_count_for(config: CfstConfig, entry: CfstDomainEntry) -> usize {
    match entry.result_count {
        Some(count) => count,
        None => crate::config::cfst::set_or(config.result_count, 4),
    }
}

/// The port of the first TCP mode.
pub open spec fn first_tcp(modes: Seq<CfstMode>) -> Option<u16>
    decreases modes.len(),
{
    if modes.len() == 0 {
        None
    } else {
        match modes[0] {
            CfstMode::Tcp(port) => Some(port),
            _ => first_tcp(modes.drop_first()),
        }
    }
}

/// The modes that are set.
pub open spec fn modes_of(config: CfstConfig) -> Seq<CfstMode> {
    match config.mode {
        Some(modes) => modes@,
        None => seq![],
    }
}

/// The port to connect to: that of the first TCP mode, or else 443.
pub open spec fn port_of(config: CfstConfig) -> u16 {
    crate::config::cfst::set_or(first_tcp(modes_of(config)), 443)
}

/// A mode asks for more than connecting.
pub open spec fn has_unsupported(config: CfstConfig) -> bool {
    exists|i: int|
        0 <= i < modes_of(config).len() && (#[trigger] modes_of(config)[i] == CfstMode::Httping
            || modes_of(config)[i] == CfstMode::Download)
}

/// The port to connect to: that of the first TCP mode, or else 443.
fn tcp_port(config: &CfstConfig) -> (r: u16)
    ensures
        r == port_of(*config),
{
    if let Some(modes) = &config.mode {
        let mut i: usize = 0;
        assert(modes@.skip(0) =~= modes@);
        while i < modes.len()
            invariant
                i <= modes@.len(),
                config.mode == Some(*modes),
                first_tcp(modes@) == first_tcp(modes@.skip(i as int)),
            decreases modes@.len() - i,
        {
            if let CfstMode::Tcp(port) = modes[i] {
                return port;
            }
            assert(modes@.skip(i as int).drop_first() =~= modes@.skip(i + 1));
            i = i + 1;
        }
    }
    443
}

/// Whether a mode asks for more than connecting.
fn unsupported_modes(config: &CfstConfig) -> (r: bool)
    ensures
        r == has_unsupported(*config),
{
    if let Some(modes) = &config.mode {
        let mut i: usize = 0;
        while i < modes.len()
            invariant
                i <= modes@.len(),
                config.mode == Some(*modes),
                forall|k: int|
                    0 <= k < i ==> #[trigger] modes@[k] != CfstMode::Httping && modes@[k]
                        != CfstMode::Download,
            decreases modes@.len() - i,
        {
            if modes[i] == CfstMode::Httping || modes[i] == CfstMode::Download {
                assert(modes_of(*config)[i as int] == modes@[i as int]);
                return true;
            }
            i = i + 1;
        }
    }
    false
}

/// What is to be measured, and how.
#[derive(Debug)]
pub struct ProbePlan {
    /// The IPv4 addresses to connect to.
    pub ipv4_candidates: Vec<Ipv4Addr>,
    /// The IPv6 addresses to connect to.
    pub ipv6_candidates: Vec<Ipv6Addr>,
    /// The port to connect to.
    pub port: u16,
    /// How many addresses are measured at a time.
    pub concurrency: usize,
    /// How many attempts are made on an address.
    pub ping_times: usize,
    /// The modes ask for more than connecting, which is all that is done.
    pub unsupported_modes: bool,
}

/// What has happened in the refresh of a domain.
#[derive(Debug)]
pub enum RefreshEvent {
    /// The refresh begins.
    Begin,
    /// The file of candidates could not be read.
    ReadFailed,
    /// The file of candidates was read.
    FileRead(String),
    /// The candidates were measured: those that answered with their latencies, in
    /// the order of the candidates, and the time.
    Measured(Vec<(Ipv4Addr, Duration)>, Vec<(Ipv6Addr, Duration)>, Duration),
}

/// What is to be done in the refresh of a domain.
#[derive(Debug)]
pub enum RefreshAction {
    /// Nothing: the entry is not about a name.
    NoName,
    /// Nothing: there is no file of candidates for this name.
    NoIpFile(Name),
    /// Read this file.
    ReadFile(String),
    /// Nothing: what is kept stays, marked as out of date.
    KeptStale,
    /// Measure the candidates.
    Probe(ProbePlan),
    /// Nothing: the best of what was measured is kept.
    Stored,
}

/// The results as sequences of addresses.
pub open spec fn results_views(kept: Map<Seq<char>, CfstResults>) -> Map<Seq<char>, ResultsView> {
    kept.map_values(|results: CfstResults| results@)
}

/// Marks results as out of date.
pub open spec fn marked_stale(kept: Map<Seq<char>, ResultsView>, name: Seq<char>) -> Map<
    Seq<char>,
    ResultsView,
> {
    if kept.dom().contains(name) {
        kept.insert(name, ResultsView { stale: true, ..kept[name] })
    } else {
        kept
    }
}

/// Manages CFST speed tests and caches results.
#[derive(Debug)]
pub struct CfstManager {
    config: CfstConfig,
    domains: Vec<CfstDomainEntry>,
    results: Cache<CfstResults>,
}

impl CfstManager {
    /// The global settings.
    pub closed spec fn config(&self) -> CfstConfig {
        self.config
    }

    /// The configured entries.
    pub closed spec fn domains(&self) -> Seq<CfstDomainEntry> {
        self.domains@
    }

    /// The results that are kept, by name.
    pub closed spec fn results(&self) -> Map<Seq<char>, ResultsView> {
        results_views(self.results@)
    }

    /// A manager for the configured entries that has no results.
    pub fn new(config: CfstConfig, domains: Vec<CfstDomainEntry>) -> (r: CfstManager)
        ensures
            r.config() == config,
            r.domains() == domains@,
            r.results() == Map::<Seq<char>, ResultsView>::empty(),
    {
        let r = CfstManager { config, domains, results: Cache::new() };
        assert(r.results() =~= Map::<Seq<char>, ResultsView>::empty());
        r
    }

    /// How many entries are configured.
    pub fn domain_count(&self) -> (r: usize)
        ensures
            r == self.domains().len(),
    {
        self.domains.len()
    }

    /// The entry with whose refresh a pass over all entries begins, if there is any.
    pub fn first_entry(&self) -> (r: Option<usize>)
        ensures
            r is Some <==> self.domains().len() > 0,
            r matches Some(index) ==> index == 0,
    {
        if self.domains.len() > 0 {
            Some(0)
        } else {
            None
        }
    }

    /// The entry whose refresh the next step of a pass belongs to, after the action in
    /// the refresh of the entry at `index`; none where the pass is over.
    pub fn next_entry(&self, index: usize, action: &RefreshAction) -> (r: Option<usize>)
        requires
            index < self.domains().len(),
        ensures
            r is None <==> ends_pass(self.domains().len(), index as int, *action),
            r matches Some(next) ==> {
                &&& next < self.domains().len()
                &&& next == entry_after(index as int, *action)
                &&& forall|last: StepTaken, now: StepTaken|
                    last.index == index && last.action == *action && #[trigger] comes_next(last, now)
                        ==> now.index == next
            },
    {
        match action {
            RefreshAction::ReadFile(_) => Some(index),
            RefreshAction::Probe(_) => Some(index),
            _ => if index < self.domains.len() - 1 {
                Some(index + 1)
            } else {
                None
            },
        }
    }

    /// Takes the refresh of the entry at `index` one step further.
    pub fn refresh_domain(&mut self, index: usize, event: RefreshEvent) -> (r: RefreshAction)
        requires
            index < old(self).domains().len(),
        ensures
            refresh_step(*old(self), index as int, event, r, *final(self)),
    {
        let name = match domain_to_name(&self.domains[index].domain) {
            Some(name) => name,
            None => return RefreshAction::NoName,
        };
        let ip_file = match &self.domains[index].ip_file {
            Some(path) => path.clone(),
            None => match &self.config.ip_file {
                Some(path) => path.clone(),
                None => return RefreshAction::NoIpFile(name),
            },
        };
        match event {
            RefreshEvent::Begin => RefreshAction::ReadFile(ip_file),
            RefreshEvent::ReadFailed => {
                self.mark_stale(name);
                RefreshAction::KeptStale
            },
            RefreshEvent::FileRead(content) => RefreshAction::Probe(self.plan(content.as_str())),
            RefreshEvent::Measured(ipv4, ipv6, now) => {
                let count = match self.domains[index].result_count {
                    Some(count) => count,
                    None => self.config.result_count(),
                };
                let best_ipv4 = fastest(&ipv4, count);
                let best_ipv6 = fastest(&ipv6, count);
                let results = CfstResults {
                    ipv4: best_ipv4,
                    ipv6: best_ipv6,
                    updated_at: now,
                    stale: false,
                };
                proof {
                    assert(results_views(self.results@.insert(name@, results)) =~= results_views(
                        self.results@,
                    ).insert(name@, results@));
                }
                self.results.insert(name, results);
                RefreshAction::Stored
            },
        }
    }

    /// What is to be measured for the candidates that a file lists.
    fn plan(&self, content: &str) -> (r: ProbePlan)
        ensures
            is_plan(r, self.config(), content@),
    {
        let (ipv4_candidates, ipv6_candidates) = parse_ip_content(
            content,
            self.config.candidate_count(),
        );
        ProbePlan {
            ipv4_candidates,
            ipv6_candidates,
            port: tcp_port(&self.config),
            concurrency: self.config.concurrency(),
            ping_times: self.config.ping_times(),
            unsupported_modes: unsupported_modes(&self.config),
        }
    }

    /// Marks the results of a name as out of date.
    fn mark_stale(&mut self, name: Name)
        ensures
            final(self).config() == old(self).config(),
            final(self).domains() == old(self).domains(),
            final(self).results() == marked_stale(old(self).results(), name@),
    {
        match self.results.remove(&name) {
            Some(results) => {
                let mut marked = results;
                marked.stale = true;
                self.results.insert(name, marked);
                proof {
                    assert(self.results() =~= marked_stale(old(self).results(), name@));
                }
            },
            None => {
                assert(self.results() =~= old(self).results());
            },
        }
    }

    /// Get cached results for a domain.
    pub fn get_results(&self, domain: &Name) -> (r: Option<CfstResults>)
        ensures
            match r {
                Some(results) => {
                    &&& self.results().dom().contains(domain@)
                    &&& results@ == self.results()[domain@]
                },
                None => !self.results().dom().contains(domain@),
            },
    {
        match self.results.get(domain) {
            Some(results) => Some(results.clone()),
            None => None,
        }
    }

    /// Get all cached results, each with its name.
    pub fn all_results(&self) -> (r: Vec<(Name, CfstResults)>)
        ensures
            cache::distinct(r@),
            results_views(cache::by_name(r@)) == self.results(),
    {
        let entries = self.results.entries();
        let mut r: Vec<(Name, CfstResults)> = Vec::new();
        let mut i: usize = 0;
        while i < entries.len()
            invariant
                i <= entries@.len(),
                r@.len() == i,
                forall|k: int|
                    0 <= k < i ==> (#[trigger] r@[k]).0 == entries@[k].0 && r@[k].1@
                        == entries@[k].1@,
            decreases entries@.len() - i,
        {
            r.push((entries[i].0.clone(), entries[i].1.clone()));
            i = i + 1;
        }
        proof {
            assert(cache::distinct(r@)) by {
                assert forall|i: int, j: int| 0 <= i < j < r@.len() implies (#[trigger] r@[i]).0@
                    != (#[trigger] r@[j]).0@ by {
                    assert(entries@[i].0@ != entries@[j].0@);
                }
            }
            let got = results_views(cache::by_name(r@));
            let want = results_views(cache::by_name(entries@));
            assert forall|key: Seq<char>|
                got.dom().contains(key) == #[trigger] want.dom().contains(key) by {
                if exists|i: int| cache::is_for(r@, i, key) {
                    let i = choose|i: int| cache::is_for(r@, i, key);
                    assert(cache::is_for(entries@, i, key));
                }
                if exists|i: int| cache::is_for(entries@, i, key) {
                    let i = choose|i: int| cache::is_for(entries@, i, key);
                    assert(cache::is_for(r@, i, key));
                }
            }
            assert(got.dom() =~= want.dom());
            assert forall|key: Seq<char>| #[trigger]
                got.dom().contains(key) implies got[key] == want[key] by {
                let i = choose|i: int| cache::is_for(r@, i, key);
                cache::lemma_by_name(r@, i);
                cache::lemma_by_name(entries@, i);
            }
            assert(got =~= want);
        }
        r
    }

    /// Check if a queried domain matches any configured cfst-domain entry.
    pub fn has_domain(&self, domain: &Name) -> (r: bool)
        ensures
            r == exists|i: int|
                0 <= i < self.domains().len() && covers(#[trigger] self.domains()[i], domain@),
    {
        self.find_matching_name(domain).is_some()
    }

    /// Find the matching Name key for a queried domain: that of the first entry
    /// that covers it.
    pub fn find_matching_name(&self, domain: &Name) -> (r: Option<&Name>)
        ensures
            match r {
                Some(key) => exists|i: int| #[trigger]
                    first_cover(self.domains(), domain@, i) && self.domains()[i].domain@
                        == DomainView::Name(key@),
                None => forall|i: int|
                    0 <= i < self.domains().len() ==> !covers(
                        #[trigger] self.domains()[i],
                        domain@,
                    ),
            },
    {
        let mut i: usize = 0;
        while i < self.domains.len()
            invariant
                i <= self.domains@.len(),
                forall|j: int| 0 <= j < i ==> !covers(#[trigger] self.domains@[j], domain@),
            decreases self.domains@.len() - i,
        {
            match &self.domains[i].domain {
                Domain::Name(wildcard_name) => {
                    if wildcard_name.is_match(domain) {
                        assert(first_cover(self.domains(), domain@, i as int));
                        return Some(wildcard_name.name());
                    }
                },
                Domain::DomainSet(_) => {},
            }
            i = i + 1;
        }
        None
    }
}

/// The plan is to measure the candidates that a file lists as the settings say.
pub open spec fn is_plan(plan: ProbePlan, config: CfstConfig, content: Seq<char>) -> bool {
    let listed = net::at_most(
        candidates::listed_in(content),
        crate::config::cfst::set_or(config.candidate_count, 1024) as nat,
    );
    &&& plan.ipv4_candidates@ == candidates::v4_in(listed)
    &&& plan.ipv6_candidates@ == candidates::v6_in(listed)
    &&& plan.port == port_of(config)
    &&& plan.concurrency == crate::config::cfst::set_or(config.concurrency, 128)
    &&& plan.ping_times == crate::config::cfst::set_or(config.ping_times, 4)
    &&& plan.unsupported_modes == has_unsupported(config)
}

/// The results that are kept of what was measured for an entry.
pub open spec fn best_of(
    config: CfstConfig,
    entry: CfstDomainEntry,
    ipv4: Seq<(Ipv4Addr, Duration)>,
    ipv6: Seq<(Ipv6Addr, Duration)>,
    now: Duration,
) -> ResultsView {
    let count = result_count_for(config, entry) as nat;
    ResultsView {
        ipv4: latency::fastest_of(ipv4, count),
        ipv6: latency::fastest_of(ipv6, count),
        updated_at: now,
        stale: false,
    }
}

/// One step in the refresh of the entry at `index`.
pub open spec fn refresh_step(
    before: CfstManager,
    index: int,
    event: RefreshEvent,
    action: RefreshAction,
    after: CfstManager,
) -> bool {
    let entry = before.domains()[index];
    let config = before.config();
    let kept = before.results();
    &&& after.config() == config
    &&& after.domains() == before.domains()
    &&& match (entry.domain@, ip_file_for(config, entry)) {
        (DomainView::DomainSet(_), _) => action is NoName && after.results() == kept,
        (DomainView::Name(name), None) => {
            &&& action matches RefreshAction::NoIpFile(told) && told@ == name
            &&& after.results() == kept
        },
        (DomainView::Name(name), Some(ip_file)) => match event {
            RefreshEvent::Begin => {
                &&& action matches RefreshAction::ReadFile(path) && path@ == ip_file
                &&& after.results() == kept
            },
            RefreshEvent::ReadFailed => {
                &&& action is KeptStale
                &&& after.results() == marked_stale(kept, name)
            },
            RefreshEvent::FileRead(content) => {
                &&& action matches RefreshAction::Probe(plan) && is_plan(plan, config, content@)
                &&& after.results() == kept
            },
            RefreshEvent::Measured(ipv4, ipv6, now) => {
                &&& action is Stored
                &&& after.results() == kept.insert(
                    name,
                    best_of(config, entry, ipv4@, ipv6@, now),
                )
            },
        },
    }
}

/// What is kept of a measurement is what is read for the name afterwards, until
/// the next step that concerns the name.
pub proof fn law_measured_is_read_back(
    before: CfstManager,
    index: int,
    ipv4: Vec<(Ipv4Addr, Duration)>,
    ipv6: Vec<(Ipv6Addr, Duration)>,
    now: Duration,
    action: RefreshAction,
    after: CfstManager,
    name: Seq<char>,
)
    requires
        refresh_step(before, index, RefreshEvent::Measured(ipv4, ipv6, now), action, after),
        before.domains()[index].domain@ == DomainView::Name(name),
        ip_file_for(before.config(), before.domains()[index]) is Some,
    ensures
        after.results().dom().contains(name),
        after.results()[name] == best_of(
            before.config(),
            before.domains()[index],
            ipv4@,
            ipv6@,
            now,
        ),
{
}

/// A step in the refresh of an entry leaves the settings, the entries and the
/// results of every other name as they were.
pub proof fn law_refresh_concerns_one_name(
    before: CfstManager,
    index: int,
    event: RefreshEvent,
    action: RefreshAction,
    after: CfstManager,
    other: Seq<char>,
)
    requires
        refresh_step(before, index, event, action, after),
        before.domains()[index].domain@ != DomainView::Name(other),
    ensures
        after.config() == before.config(),
        after.domains() == before.domains(),
        after.results().dom().contains(other) == before.results().dom().contains(other),
        before.results().dom().contains(other) ==> after.results()[other]
            == before.results()[other],
{
}

/// Where the file of candidates cannot be read, no results are lost: those of the
/// name are marked as out of date, and that is all that changes.
pub proof fn law_failed_read_loses_nothing(
    before: CfstManager,
    index: int,
    action: RefreshAction,
    after: CfstManager,
    name: Seq<char>,
)
    requires
        refresh_step(before, index, RefreshEvent::ReadFailed, action, after),
    ensures
        after.results().dom() == before.results().dom(),
        before.results().dom().contains(name) ==> {
            let was = before.results()[name];
            let became = after.results()[name];
            &&& became.ipv4 == was.ipv4
            &&& became.ipv6 == was.ipv6
            &&& became.updated_at == was.updated_at
            &&& was.stale ==> became.stale
            &&& before.domains()[index].domain@ == DomainView::Name(name) && ip_file_for(
                before.config(),
                before.domains()[index],
            ) is Some ==> became.stale
        },
{
    assert(after.results().dom() =~= before.results().dom());
}

/// A name is covered by an entry exactly if there is a first entry that covers it,
/// and there is only one such.
pub proof fn law_cover_is_found(domains: Seq<CfstDomainEntry>, qname: Seq<char>)
    ensures
        (exists|i: int| 0 <= i < domains.len() && covers(#[trigger] domains[i], qname)) <==> (
        exists|i: int| #[trigger] first_cover(domains, qname, i)),
        forall|i: int, j: int| #[trigger]
            first_cover(domains, qname, i) && #[trigger] first_cover(domains, qname, j) ==> i == j,
{
    if exists|i: int| 0 <= i < domains.len() && covers(#[trigger] domains[i], qname) {
        let i = choose|i: int| 0 <= i < domains.len() && covers(#[trigger] domains[i], qname);
        lemma_first_cover(domains, qname, i);
    }
    assert forall|i: int, j: int| #[trigger]
        first_cover(domains, qname, i) && #[trigger] first_cover(domains, qname, j) implies i
        == j by {
        if i < j {
            assert(!covers(domains[i], qname));
        } else if j < i {
            assert(!covers(domains[j], qname));
        }
    }
}

proof fn lemma_first_cover(domains: Seq<CfstDomainEntry>, qname: Seq<char>, i: int)
    requires
        0 <= i < domains.len(),
        covers(domains[i], qname),
    ensures
        exists|k: int| #[trigger] first_cover(domains, qname, k),
    decreases i,
{
    if exists|j: int| 0 <= j < i && covers(#[trigger] domains[j], qname) {
        let j = choose|j: int| 0 <= j < i && covers(#[trigger] domains[j], qname);
        lemma_first_cover(domains, qname, j);
    } else {
        assert(first_cover(domains, qname, i));
    }
}

/// A step that was taken: in the refresh of which entry, on what event, and what was
/// to be done then.
pub struct StepTaken {
    pub index: int,
    pub event: RefreshEvent,
    pub action: RefreshAction,
}

/// The refresh of an entry goes on after the action.
pub open spec fn goes_on(action: RefreshAction) -> bool {
    action is ReadFile || action is Probe
}

/// The event is what can come of the action.
pub open spec fn comes_of(action: RefreshAction, event: RefreshEvent) -> bool {
    match action {
        RefreshAction::ReadFile(_) => event is ReadFailed || event is FileRead,
        RefreshAction::Probe(_) => event is Measured,
        _ => false,
    }
}

/// The entry whose refresh the step after the action belongs to: the same entry where
/// its refresh goes on, or else the one after it.
pub open spec fn entry_after(index: int, action: RefreshAction) -> int {
    if goes_on(action) {
        index
    } else {
        index + 1
    }
}

/// The step `now` comes after the step `last`: in the same refresh where that goes on,
/// or else as the beginning of the refresh of the next entry.
pub open spec fn comes_next(last: StepTaken, now: StepTaken) -> bool {
    &&& now.index == entry_after(last.index, last.action)
    &&& if goes_on(last.action) {
        comes_of(last.action, now.event)
    } else {
        now.event is Begin
    }
}

/// A pass over `count` entries is over with the action.
pub open spec fn ends_pass(count: nat, index: int, action: RefreshAction) -> bool {
    index == count - 1 && !goes_on(action)
}

/// The steps refresh all entries once, one entry after the other. The manager is
/// `states[k]` before the step at `k`, and `states[k + 1]` after it.
pub open spec fn is_pass(states: Seq<CfstManager>, steps: Seq<StepTaken>) -> bool {
    let count = states[0].domains().len();
    &&& states.len() == steps.len() + 1
    &&& forall|k: int|
        0 <= k < steps.len() ==> refresh_step(
            states[k],
            (#[trigger] steps[k]).index,
            steps[k].event,
            steps[k].action,
            states[k + 1],
        )
    &&& forall|k: int, l: int|
        0 <= k && l == k + 1 && l < steps.len() ==> comes_next(
            #[trigger] steps[k],
            #[trigger] steps[l],
        )
    &&& count == 0 ==> steps.len() == 0
    &&& count > 0 ==> {
        &&& steps.len() > 0
        &&& steps[0].index == 0
        &&& steps[0].event is Begin
        &&& ends_pass(count, steps.last().index, steps.last().action)
    }
}

/// The entries of a pass come in order, and once the refresh of one has ended, it is
/// the turn of those after it.
proof fn lemma_pass_order(states: Seq<CfstManager>, steps: Seq<StepTaken>, k: int, l: int)
    requires
        is_pass(states, steps),
        0 <= k <= l < steps.len(),
    ensures
        0 <= steps[k].index <= steps[l].index,
        k < l && !goes_on(steps[k].action) ==> steps[k].index < steps[l].index,
    decreases l,
{
    if k < l {
        lemma_pass_order(states, steps, k, l - 1);
        assert(comes_next(steps[l - 1], steps[l]));
    } else if l > 0 {
        lemma_pass_order(states, steps, l - 1, l - 1);
        assert(comes_next(steps[l - 1], steps[l]));
    }
}

/// Settings and entries stay as they are, and so do the results of a name over steps
/// that go on or that are about other names.
proof fn lemma_pass_frame(
    states: Seq<CfstManager>,
    steps: Seq<StepTaken>,
    from: int,
    to: int,
    name: Seq<char>,
)
    requires
        is_pass(states, steps),
        0 <= from <= to <= steps.len(),
    ensures
        states[to].config() == states[from].config(),
        states[to].domains() == states[from].domains(),
        (forall|k: int|
            from <= k < to ==> goes_on((#[trigger] steps[k]).action)
                || states[from].domains()[steps[k].index].domain@ != DomainView::Name(name)) ==> {
            &&& states[to].results().dom().contains(name)
                == states[from].results().dom().contains(name)
            &&& states[from].results().dom().contains(name) ==> states[to].results()[name]
                == states[from].results()[name]
        },
    decreases to - from,
{
    if from < to {
        let k = to - 1;
        lemma_pass_frame(states, steps, from, k, name);
        let step = steps[k];
        assert(refresh_step(states[k], step.index, step.event, step.action, states[k + 1]));
    }
}

/// A pass comes to the refresh of every entry, and each of them ends: where there is a
/// file of candidates for a name, with what was measured, or because the file could not
/// be read.
pub proof fn law_pass_reaches_every_entry(
    states: Seq<CfstManager>,
    steps: Seq<StepTaken>,
    index: int,
)
    requires
        is_pass(states, steps),
        0 <= index < states[0].domains().len(),
    ensures
        ({
            let entry = states[0].domains()[index];
            exists|k: int|
                0 <= k < steps.len() && (#[trigger] steps[k]).index == index && !goes_on(
                    steps[k].action,
                ) && (entry.domain@ is Name && ip_file_for(states[0].config(), entry) is Some ==> (
                steps[k].event is Measured && steps[k].action is Stored) || (
                steps[k].event is ReadFailed && steps[k].action is KeptStale))
        }),
{
    let k = lemma_pass_end(states, steps, index, steps.len() - 1);
    lemma_pass_frame(states, steps, 0, k, seq![]);
    assert(refresh_step(states[k], index, steps[k].event, steps[k].action, states[k + 1]));
}

/// The step with which the refresh of an entry ended that is not after `at`.
proof fn lemma_pass_end(
    states: Seq<CfstManager>,
    steps: Seq<StepTaken>,
    index: int,
    at: int,
) -> (k: int)
    requires
        is_pass(states, steps),
        0 <= index,
        0 <= at < steps.len(),
        steps[at].index > index || (steps[at].index == index && !goes_on(steps[at].action)),
    ensures
        0 <= k <= at,
        steps[k].index == index,
        !goes_on(steps[k].action),
    decreases at,
{
    if steps[at].index == index {
        at
    } else {
        assert(comes_next(steps[at - 1], steps[at]));
        lemma_pass_end(states, steps, index, at - 1)
    }
}

/// After a pass, the results of every name that was measured in it are the best of what
/// was measured, and are not out of date, whatever happened to the other entries. A later
/// entry for the same name would take their place.
pub proof fn law_pass_keeps_what_was_measured(
    states: Seq<CfstManager>,
    steps: Seq<StepTaken>,
    at: int,
    ipv4: Vec<(Ipv4Addr, Duration)>,
    ipv6: Vec<(Ipv6Addr, Duration)>,
    now: Duration,
    name: Seq<char>,
)
    requires
        is_pass(states, steps),
        0 <= at < steps.len(),
        steps[at].event == RefreshEvent::Measured(ipv4, ipv6, now),
        states[0].domains()[steps[at].index].domain@ == DomainView::Name(name),
        forall|j: int|
            steps[at].index < j < states[0].domains().len() ==> (
            #[trigger] states[0].domains()[j]).domain@ != DomainView::Name(name),
    ensures
        states.last().results().dom().contains(name),
        states.last().results()[name] == best_of(
            states[0].config(),
            states[0].domains()[steps[at].index],
            ipv4@,
            ipv6@,
            now,
        ),
        !states.last().results()[name].stale,
{
    let index = steps[at].index;
    lemma_pass_frame(states, steps, 0, at, name);
    lemma_pass_frame(states, steps, 0, at + 1, name);
    assert(at > 0);
    let before = steps[at - 1];
    assert(comes_next(before, steps[at]));
    lemma_pass_frame(states, steps, 0, at - 1, name);
    assert(refresh_step(states[at - 1], before.index, before.event, before.action, states[at]));
    assert(refresh_step(states[at], index, steps[at].event, steps[at].action, states[at + 1]));
    assert forall|k: int| at + 1 <= k < steps.len() implies goes_on((#[trigger] steps[k]).action)
        || states[at + 1].domains()[steps[k].index].domain@ != DomainView::Name(name) by {
        lemma_pass_order(states, steps, at, k);
        lemma_pass_order(states, steps, k, steps.len() - 1);
        assert(states[0].domains()[steps[k].index].domain@ != DomainView::Name(name));
    }
    lemma_pass_frame(states, steps, at + 1, steps.len() as int, name);
}

/// After a pass, the results of a name whose file of candidates could not be read are
/// those from before the pass, marked as out of date, whatever happened to the other
/// entries, if none of these is for the same name.
pub proof fn law_pass_keeps_what_was_not_measured(
    states: Seq<CfstManager>,
    steps: Seq<StepTaken>,
    at: int,
    name: Seq<char>,
)
    requires
        is_pass(states, steps),
        0 <= at < steps.len(),
        steps[at].event is ReadFailed,
        states[0].domains()[steps[at].index].domain@ == DomainView::Name(name),
        forall|j: int|
            0 <= j < states[0].domains().len() && j != steps[at].index ==> (
            #[trigger] states[0].domains()[j]).domain@ != DomainView::Name(name),
    ensures
        states.last().results().dom().contains(name) == states[0].results().dom().contains(name),
        states[0].results().dom().contains(name) ==> states.last().results()[name]
            == (ResultsView { stale: true, ..states[0].results()[name] }),
{
    let index = steps[at].index;
    assert(at > 0);
    let before = steps[at - 1];
    assert(comes_next(before, steps[at]));
    lemma_pass_frame(states, steps, 0, at - 1, name);
    assert(refresh_step(states[at - 1], before.index, before.event, before.action, states[at]));
    assert forall|k: int| 0 <= k < at implies goes_on((#[trigger] steps[k]).action)
        || states[0].domains()[steps[k].index].domain@ != DomainView::Name(name) by {
        lemma_pass_order(states, steps, k, at);
        lemma_pass_order(states, steps, k, steps.len() - 1);
        if !goes_on(steps[k].action) {
            assert(states[0].domains()[steps[k].index].domain@ != DomainView::Name(name));
        }
    }
    lemma_pass_frame(states, steps, 0, at, name);
    assert(refresh_step(states[at], index, steps[at].event, steps[at].action, states[at + 1]));
    assert forall|k: int| at + 1 <= k < steps.len() implies goes_on((#[trigger] steps[k]).action)
        || states[at + 1].domains()[steps[k].index].domain@ != DomainView::Name(name) by {
        lemma_pass_order(states, steps, at, k);
        lemma_pass_order(states, steps, k, steps.len() - 1);
        assert(states[0].domains()[steps[k].index].domain@ != DomainView::Name(name));
    }
    lemma_pass_frame(states, steps, at + 1, steps.len() as int, name);
}

/// A pass leaves the settings, the entries and the results of every name that no entry
/// is for as they were.
pub proof fn law_pass_concerns_configured_names(
    states: Seq<CfstManager>,
    steps: Seq<StepTaken>,
    other: Seq<char>,
)
    requires
        is_pass(states, steps),
        forall|j: int|
            0 <= j < states[0].domains().len() ==> (#[trigger] states[0].domains()[j]).domain@
                != DomainView::Name(other),
    ensures
        states.last().config() == states[0].config(),
        states.last().domains() == states[0].domains(),
        states.last().results().dom().contains(other) == states[0].results().dom().contains(
            other,
        ),
        states[0].results().dom().contains(other) ==> states.last().results()[other]
            == states[0].results()[other],
{
    assert forall|k: int| 0 <= k < steps.len() implies goes_on((#[trigger] steps[k]).action)
        || states[0].domains()[steps[k].index].domain@ != DomainView::Name(other) by {
        lemma_pass_order(states, steps, k, steps.len() - 1);
        assert(states[0].domains()[steps[k].index].domain@ != DomainView::Name(other));
    }
    lemma_pass_frame(states, steps, 0, steps.len() as int, other);
}

/// Where the candidates of a plan were measured, the results are among the addresses that
/// the file of candidates lists, and every one of them answered.
pub proof fn law_results_are_listed(
    config: CfstConfig,
    entry: CfstDomainEntry,
    content: Seq<char>,
    plan: ProbePlan,
    averages_v4: Seq<Option<Duration>>,
    averages_v6: Seq<Option<Duration>>,
    now: Duration,
)
    requires
        is_plan(plan, config, content),
        averages_v4.len() == plan.ipv4_candidates@.len(),
        averages_v6.len() == plan.ipv6_candidates@.len(),
    ensures
        ({
            let c4 = plan.ipv4_candidates@;
            let c6 = plan.ipv6_candidates@;
            let best = best_of(
                config,
                entry,
                latency::reachable_of(c4, averages_v4),
                latency::reachable_of(c6, averages_v6),
                now,
            );
            &&& forall|i: int|
                0 <= i < best.ipv4.len() ==> candidates::listed_in(content).contains(
                    IpAddr::V4(#[trigger] best.ipv4[i]),
                ) && exists|k: int|
                    0 <= k < c4.len() && #[trigger] c4[k] == best.ipv4[i] && averages_v4[k] is Some
            &&& forall|i: int|
                0 <= i < best.ipv6.len() ==> candidates::listed_in(content).contains(
                    IpAddr::V6(#[trigger] best.ipv6[i]),
                ) && exists|k: int|
                    0 <= k < c6.len() && #[trigger] c6[k] == best.ipv6[i] && averages_v6[k] is Some
        }),
{
    let c4 = plan.ipv4_candidates@;
    let c6 = plan.ipv6_candidates@;
    let count = result_count_for(config, entry) as nat;
    let listed = candidates::listed_in(content);
    let taken = net::at_most(
        listed,
        crate::config::cfst::set_or(config.candidate_count, 1024) as nat,
    );
    candidates::lemma_in_contains(taken);
    assert forall|ip: IpAddr| taken.contains(ip) implies #[trigger] listed.contains(ip) by {
        let k = choose|k: int| 0 <= k < taken.len() && taken[k] == ip;
        assert(listed[k] == ip);
    }
    latency::law_results_are_reachable_candidates(c4, averages_v4, count);
    latency::law_results_are_reachable_candidates(c6, averages_v6, count);
    let best_v4 = latency::fastest_of(latency::reachable_of(c4, averages_v4), count);
    let best_v6 = latency::fastest_of(latency::reachable_of(c6, averages_v6), count);
    assert forall|i: int| 0 <= i < best_v4.len() implies listed.contains(
        IpAddr::V4(#[trigger] best_v4[i]),
    ) by {
        let k = choose|k: int|
            0 <= k < c4.len() && #[trigger] c4[k] == best_v4[i] && averages_v4[k] is Some;
        assert(taken.contains(IpAddr::V4(candidates::v4_in(taken)[k])));
    }
    assert forall|i: int| 0 <= i < best_v6.len() implies listed.contains(
        IpAddr::V6(#[trigger] best_v6[i]),
    ) by {
        let k = choose|k: int|
            0 <= k < c6.len() && #[trigger] c6[k] == best_v6[i] && averages_v6[k] is Some;
        assert(taken.contains(IpAddr::V6(candidates::v6_in(taken)[k])));
    }
}

/// An entry for a name covers this name and the names below it, and no others; an entry
/// for a set covers none.
pub proof fn law_cover_is_label_aware(entry: CfstDomainEntry, qname: Seq<char>)
    ensures
        match entry.domain@ {
            DomainView::Name(name) => covers(entry, qname) <==> qname == name || exists|
                labels: Seq<char>,
            | qname == #[trigger] (labels + seq!['.']) + name,
            DomainView::DomainSet(_) => !covers(entry, qname),
        },
{
    if let DomainView::Name(name) = entry.domain@ {
        domain::law_match_is_label_aware(qname, name);
    }
}

/// Of the entries that cover a name, the first in the configuration counts.
pub proof fn law_first_cover_comes_first(
    domains: Seq<CfstDomainEntry>,
    qname: Seq<char>,
    i: int,
    j: int,
)
    requires
        first_cover(domains, qname, i),
        0 <= j < domains.len(),
        covers(domains[j], qname),
    ensures
        0 <= i <= j,
        covers(domains[i], qname),
{
}

/// What an entry sets itself comes before the global settings: its own file is read, and
/// as many results are kept as it says. Only where it sets none, the global setting is
/// used, and for the count else 4.
pub proof fn law_entry_settings_come_first(config: CfstConfig, entry: CfstDomainEntry)
    ensures
        entry.ip_file matches Some(own) ==> ip_file_for(config, entry) == Some(own@),
        entry.ip_file is None ==> (config.ip_file matches Some(path) ==> ip_file_for(config, entry)
            == Some(path@)),
        entry.ip_file is None && config.ip_file is None ==> ip_file_for(config, entry) is None,
        entry.result_count matches Some(own) ==> result_count_for(config, entry) == own,
        entry.result_count is None ==> (config.result_count matches Some(count)
            ==> result_count_for(config, entry) == count),
        entry.result_count is None && config.result_count is None ==> result_count_for(
            config,
            entry,
        ) == 4,
{
}

/// What is kept of a measurement are the fastest addresses of each family, from the fastest
/// on: as many as the entry says, or else the global settings, or else 4, or all where
/// fewer were measured. They are not out of date, and bear the time of the measurement.
pub proof fn law_measurement_keeps_the_fastest(
    before: CfstManager,
    index: int,
    ipv4: Vec<(Ipv4Addr, Duration)>,
    ipv6: Vec<(Ipv6Addr, Duration)>,
    now: Duration,
    action: RefreshAction,
    after: CfstManager,
    name: Seq<char>,
)
    requires
        refresh_step(before, index, RefreshEvent::Measured(ipv4, ipv6, now), action, after),
        before.domains()[index].domain@ == DomainView::Name(name),
        before.domains()[index].ip_file is Some || before.config().ip_file is Some,
    ensures
        ({
            let own = before.domains()[index].result_count;
            let global = before.config().result_count;
            let kept = after.results()[name];
            let ranked_v4 = latency::by_latency(ipv4@);
            let ranked_v6 = latency::by_latency(ipv6@);
            &&& action is Stored
            &&& after.results().dom() == before.results().dom().insert(name)
            &&& own matches Some(n) ==> {
                &&& kept.ipv4.len() == if ipv4@.len() < n { ipv4@.len() } else { n as nat }
                &&& kept.ipv6.len() == if ipv6@.len() < n { ipv6@.len() } else { n as nat }
            }
            &&& own is None ==> (global matches Some(n) ==> {
                &&& kept.ipv4.len() == if ipv4@.len() < n { ipv4@.len() } else { n as nat }
                &&& kept.ipv6.len() == if ipv6@.len() < n { ipv6@.len() } else { n as nat }
            })
            &&& own is None && global is None ==> {
                &&& kept.ipv4.len() == if ipv4@.len() < 4 { ipv4@.len() } else { 4 }
                &&& kept.ipv6.len() == if ipv6@.len() < 4 { ipv6@.len() } else { 4 }
            }
            &&& forall|i: int|
                0 <= i < kept.ipv4.len() ==> #[trigger] kept.ipv4[i] == ranked_v4[i].0
            &&& forall|i: int|
                0 <= i < kept.ipv6.len() ==> #[trigger] kept.ipv6[i] == ranked_v6[i].0
            &&& kept.updated_at == now
            &&& !kept.stale
        }),
{
    let entry = before.domains()[index];
    let count = result_count_for(before.config(), entry) as nat;
    law_entry_settings_come_first(before.config(), entry);
    latency::law_fastest_are_kept(ipv4@, count);
    latency::law_fastest_are_kept(ipv6@, count);
    assert(after.results().dom() =~= before.results().dom().insert(name));
}

/// What is done in the refresh of an entry: nothing for a set, or where no file is set; else
/// the file of the entry, or else the global one, is read; where it cannot be read, the
/// results stay; where it was read, the candidates that it lists are measured.
pub proof fn law_refresh_actions(
    before: CfstManager,
    index: int,
    event: RefreshEvent,
    action: RefreshAction,
    after: CfstManager,
)
    requires
        refresh_step(before, index, event, action, after),
    ensures
        ({
            let entry = before.domains()[index];
            let own = entry.ip_file;
            let global = before.config().ip_file;
            &&& entry.domain@ is DomainSet ==> action is NoName
            &&& entry.domain@ matches DomainView::Name(name) ==> {
                &&& own is None && global is None ==> (action matches RefreshAction::NoIpFile(told)
                    && told@ == name)
                &&& own is Some || global is Some ==> {
                    &&& event is Begin ==> (action matches RefreshAction::ReadFile(path) && path@
                        == if own is Some {
                        own->0@
                    } else {
                        global->0@
                    })
                    &&& event is ReadFailed ==> action is KeptStale
                    &&& event is FileRead ==> action is Probe
                    &&& event is Measured ==> action is Stored
                }
            }
            &&& !(event is Measured) ==> after.results().dom() == before.results().dom()
            &&& event is Begin || event is FileRead ==> after.results() == before.results()
        }),
{
    law_entry_settings_come_first(before.config(), before.domains()[index]);
    if !(event is Measured) {
        assert(after.results().dom() =~= before.results().dom());
    }
}

/// A plan follows the settings: the number of candidates, of those measured at a time and
/// of attempts is what is set, or else 1024, 128 and 4; the port is that of the first TCP
/// mode, or else 443; and it is said whether a mode asks for more than connecting.
pub proof fn law_plan_follows_settings(plan: ProbePlan, config: CfstConfig, content: Seq<char>)
    requires
        is_plan(plan, config, content),
    ensures
        config.concurrency matches Some(n) ==> plan.concurrency == n,
        config.concurrency is None ==> plan.concurrency == 128,
        config.ping_times matches Some(n) ==> plan.ping_times == n,
        config.ping_times is None ==> plan.ping_times == 4,
        ({
            let count = plan.ipv4_candidates@.len() + plan.ipv6_candidates@.len();
            let listed = candidates::listed_in(content).len();
            let most: nat = if config.candidate_count is Some {
                config.candidate_count->0 as nat
            } else {
                1024
            };
            count == if listed < most {
                listed
            } else {
                most
            }
        }),
        config.mode is None ==> plan.port == 443 && !plan.unsupported_modes,
        config.mode matches Some(modes) ==> {
            &&& forall|i: int|
                0 <= i < modes@.len() && (#[trigger] modes@[i]) is Tcp && (forall|j: int|
                    0 <= j < i ==> !((#[trigger] modes@[j]) is Tcp)) ==> modes@[i] == CfstMode::Tcp(
                    plan.port,
                )
            &&& (forall|i: int| 0 <= i < modes@.len() ==> !((#[trigger] modes@[i]) is Tcp))
                ==> plan.port == 443
            &&& plan.unsupported_modes <==> exists|i: int|
                0 <= i < modes@.len() && !((#[trigger] modes@[i]) is Tcp)
        },
{
    let count = crate::config::cfst::set_or(config.candidate_count, 1024) as nat;
    candidates::law_candidates_are_capped(content, count);
    if let Some(modes) = config.mode {
        assert forall|i: int|
            0 <= i < modes@.len() && (#[trigger] modes@[i]) is Tcp && (forall|j: int|
                0 <= j < i ==> !((#[trigger] modes@[j]) is Tcp)) implies modes@[i]
            == CfstMode::Tcp(plan.port) by {
            lemma_first_tcp(modes@, i);
        }
        if forall|i: int| 0 <= i < modes@.len() ==> !((#[trigger] modes@[i]) is Tcp) {
            lemma_first_tcp(modes@, modes@.len() as int);
        }
        assert(modes_of(config) == modes@);
        if exists|i: int| 0 <= i < modes@.len() && !((#[trigger] modes@[i]) is Tcp) {
            let i = choose|i: int| 0 <= i < modes@.len() && !((#[trigger] modes@[i]) is Tcp);
            assert(modes_of(config)[i] == modes@[i]);
        }
    }
}

proof fn lemma_first_tcp(modes: Seq<CfstMode>, n: int)
    requires
        0 <= n <= modes.len(),
        forall|j: int| 0 <= j < n ==> !((#[trigger] modes[j]) is Tcp),
        n < modes.len() ==> modes[n] is Tcp,
    ensures
        n < modes.len() ==> first_tcp(modes) == Some(modes[n]->Tcp_0),
        n == modes.len() ==> first_tcp(modes) is None,
    decreases modes.len(),
{
    if n > 0 {
        let rest = modes.drop_first();
        assert(!(modes[0] is Tcp));
        assert forall|j: int| 0 <= j < n - 1 implies !((#[trigger] rest[j]) is Tcp) by {
            assert(rest[j] == modes[j + 1]);
        }
        lemma_first_tcp(rest, n - 1);
    }
}

/// The candidates of a plan are the first that the file lists, over both families, as many
/// as are to be taken: those of either family are in the order in which they are listed.
pub proof fn law_plan_takes_the_first_candidates(
    plan: ProbePlan,
    config: CfstConfig,
    content: Seq<char>,
    taken: Seq<IpAddr>,
)
    requires
        is_plan(plan, config, content),
        taken.is_prefix_of(candidates::listed_in(content)),
        config.candidate_count matches Some(n) ==> taken.len() <= n,
        config.candidate_count is None ==> taken.len() <= 1024,
        taken.len() < candidates::listed_in(content).len() ==> taken.len()
            == if config.candidate_count is Some {
            config.candidate_count->0
        } else {
            1024
        },
    ensures
        plan.ipv4_candidates@.map_values(|ip: Ipv4Addr| IpAddr::V4(ip)) == taken.filter(
            |ip: IpAddr| ip is V4,
        ),
        plan.ipv6_candidates@.map_values(|ip: Ipv6Addr| IpAddr::V6(ip)) == taken.filter(
            |ip: IpAddr| ip is V6,
        ),
{
    let listed = candidates::listed_in(content);
    let count = crate::config::cfst::set_or(config.candidate_count, 1024) as nat;
    assert(net::at_most(listed, count) =~= taken);
    candidates::law_families_are_told_apart(taken);
}

/// What is said of results as sequences is said of what they hold.
pub proof fn law_results_are_seen_as_they_are(results: CfstResults)
    ensures
        results@.ipv4 == results.ipv4@,
        results@.ipv6 == results.ipv6@,
        results@.updated_at == results.updated_at,
        results@.stale == results.stale,
{
}

} // verus!
