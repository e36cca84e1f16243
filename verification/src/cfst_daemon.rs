//! Daemon-side CFST manager.
//!
//! Holds the `cfst-domain` rules, takes in refreshed IPs, and answers A/AAAA
//! queries from cache.

use vstd::prelude::*;
use vstd::string::StrSliceExecFns;

use crate::cache::Cache;
use crate::config::cfst::CfstConfig;
use crate::domain;
use crate::domain::{domain_matches, normalize_domain, Name};
use crate::net::IpAddr;
use crate::time;
use crate::time::Duration;

verus! {

/// A `cfst-domain` rule.
#[derive(Clone, Debug)]
pub struct CfstDomainConfig {
    /// The domain as it was written.
    pub domain: String,
    /// The settings of the test.
    pub cfst: CfstConfig,
    /// The time from one test to the next, for which results are fresh.
    pub refresh_interval: Duration,
    /// The time to live of an answer from fresh results.
    pub ttl: Duration,
    /// Whether results stay in use once they are out of date.
    pub serve_stale: bool,
}

impl CfstDomainConfig {
    /// The domain of the rule in normal form.
    pub open spec fn name(&self) -> Seq<char> {
        domain::normalized(self.domain@)
    }

    /// The domain of the rule in normal form.
    pub fn normalized_domain(&self) -> (r: String)
        ensures
            r@ == self.name(),
    {
        normalize_domain(self.domain.as_str())
    }
}

/// The family of addresses that a query asks for.
#[derive(Clone, Copy, Debug, PartialEq, Eq, Structural)]
pub enum QueryFamily {
    V4,
    V6,
}

/// A tested address.
#[derive(Clone, Copy, Debug, PartialEq, Eq, Structural)]
pub struct CfstResult {
    /// The address.
    pub ip: IpAddr,
}

/// An answer from the cache.
#[derive(Clone, Debug)]
pub struct CfstAnswer {
    /// The addresses, at least one, all of the family asked for.
    pub ips: Vec<IpAddr>,
    /// How long the answer may be kept.
    pub ttl: Duration,
    /// The answer is from results that are out of date.
    pub stale: bool,
}

/// An answer as a sequence of addresses.
pub struct AnswerView {
    pub ips: Seq<IpAddr>,
    pub ttl: Duration,
    pub stale: bool,
}

impl View for CfstAnswer {
    type V = AnswerView;

    open spec fn view(&self) -> AnswerView {
        AnswerView { ips: self.ips@, ttl: self.ttl, stale: self.stale }
    }
}

/// The results of the last successful test of a domain.
#[derive(Clone, Debug)]
pub struct CfstCacheEntry {
    /// The tested addresses.
    pub results: Vec<CfstResult>,
    /// When the test was done.
    pub updated_at: Duration,
    /// Until when the results are fresh.
    pub expires_at: Duration,
}

/// The results of a test as a sequence.
pub struct EntryView {
    pub results: Seq<CfstResult>,
    pub updated_at: Duration,
    pub expires_at: Duration,
}

impl View for CfstCacheEntry {
    type V = EntryView;

    open spec fn view(&self) -> EntryView {
        EntryView {
            results: self.results@,
            updated_at: self.updated_at,
            expires_at: self.expires_at,
        }
    }
}

/// How a test ended.
#[derive(Debug)]
pub enum CfstRun {
    /// With these results.
    Done(Vec<CfstResult>),
    /// With an error.
    Failed,
}

/// What became of a refresh.
#[derive(Clone, Copy, Debug, PartialEq, Eq, Structural)]
pub enum RefreshReport {
    /// The results are kept.
    Stored,
    /// There was no usable address; what was kept before stays.
    NoUsableIps,
    /// The test failed; what was kept before stays.
    Failed,
}

/// The address is of the family asked for.
pub open spec fn in_family(ip: IpAddr, family: QueryFamily) -> bool {
    match (family, ip) {
        (QueryFamily::V4, IpAddr::V4(_)) => true,
        (QueryFamily::V6, IpAddr::V6(_)) => true,
        _ => false,
    }
}

/// The addresses of the family asked for, in order.
pub open spec fn ips_in_family(results: Seq<CfstResult>, family: QueryFamily) -> Seq<IpAddr>
    decreases results.len(),
{
    if results.len() == 0 {
        seq![]
    } else {
        let before = ips_in_family(results.drop_last(), family);
        if in_family(results.last().ip, family) {
            before.push(results.last().ip)
        } else {
            before
        }
    }
}

/// The entries as sequences.
pub open spec fn entry_views(kept: Map<Seq<char>, CfstCacheEntry>) -> Map<Seq<char>, EntryView> {
    kept.map_values(|entry: CfstCacheEntry| entry@)
}

/// The results are out of date.
pub open spec fn expired(entry: EntryView, now: Duration) -> bool {
    now@ > entry.expires_at@
}

/// A rule can answer: it covers the queried name in normal form, there are
/// results for it, and they are fresh or may be used nevertheless.
pub open spec fn usable(
    rule: CfstDomainConfig,
    kept: Map<Seq<char>, EntryView>,
    qname: Seq<char>,
    now: Duration,
) -> bool {
    &&& domain::matches_domain(qname, rule.name())
    &&& kept.dom().contains(rule.name())
    &&& expired(kept[rule.name()], now) ==> rule.serve_stale
}

/// The rule at `i` answers: of those that can, the first with the longest domain.
/// (The domains compared are ends of the same name, so the one with more
/// characters is the one with more bytes, too.)
pub open spec fn answers(
    rules: Seq<CfstDomainConfig>,
    kept: Map<Seq<char>, EntryView>,
    qname: Seq<char>,
    now: Duration,
    i: int,
) -> bool {
    &&& 0 <= i < rules.len()
    &&& usable(rules[i], kept, qname, now)
    &&& forall|j: int|
        0 <= j < rules.len() && usable(#[trigger] rules[j], kept, qname, now)
            ==> rules[j].name().len() < rules[i].name().len() || (rules[j].name().len()
            == rules[i].name().len() && i <= j)
}

/// The time to live of an answer from results that are out of date: 30 seconds.
pub const STALE_TTL_NANOS: u128 = 30_000_000_000;

/// The answer that a rule gives, if it has addresses of the family asked for.
pub open spec fn answer_of(
    rule: CfstDomainConfig,
    entry: EntryView,
    family: QueryFamily,
    now: Duration,
) -> Option<AnswerView> {
    let ips = ips_in_family(entry.results, family);
    if ips.len() == 0 {
        None
    } else if expired(entry, now) {
        Some(AnswerView { ips, ttl: Duration { nanos: STALE_TTL_NANOS }, stale: true })
    } else {
        Some(AnswerView { ips, ttl: rule.ttl, stale: false })
    }
}

/// What is kept of a successful test of a rule.
pub open spec fn entry_for(rule: CfstDomainConfig, results: Seq<CfstResult>, now: Duration) -> EntryView {
    EntryView {
        results,
        updated_at: now,
        expires_at: Duration { nanos: (now.nanos + rule.refresh_interval.nanos) as u128 },
    }
}

/// What is kept after a test of a rule: its results, if there are any, in place of
/// those that were kept for the domain of the rule.
pub open spec fn refreshed(
    kept: Map<Seq<char>, EntryView>,
    rule: CfstDomainConfig,
    run: CfstRun,
    now: Duration,
) -> Map<Seq<char>, EntryView> {
    match run {
        CfstRun::Done(results) => if results@.len() > 0 {
            kept.insert(rule.name(), entry_for(rule, results@, now))
        } else {
            kept
        },
        CfstRun::Failed => kept,
    }
}

/// What is reported of a test.
pub open spec fn report_of(run: CfstRun) -> RefreshReport {
    match run {
        CfstRun::Done(results) => if results@.len() > 0 {
            RefreshReport::Stored
        } else {
            RefreshReport::NoUsableIps
        },
        CfstRun::Failed => RefreshReport::Failed,
    }
}

/// The rules and the results of their last successful tests.
#[derive(Debug)]
pub struct CfstManager {
    rules: Vec<CfstDomainConfig>,
    cache: Cache<CfstCacheEntry>,
}

impl CfstManager {
    /// The rules.
    pub closed spec fn rules(&self) -> Seq<CfstDomainConfig> {
        self.rules@
    }

    /// The results that are kept, by domain in normal form.
    pub closed spec fn cache(&self) -> Map<Seq<char>, EntryView> {
        entry_views(self.cache@)
    }

    /// A manager for the rules that has no results.
    pub fn new(rules: Vec<CfstDomainConfig>) -> (r: CfstManager)
        ensures
            r.rules() == rules@,
            r.cache() == Map::<Seq<char>, EntryView>::empty(),
    {
        let r = CfstManager { rules, cache: Cache::new() };
        assert(r.cache() =~= Map::<Seq<char>, EntryView>::empty());
        r
    }

    /// Whether there are no rules.
    pub fn is_empty(&self) -> (r: bool)
        ensures
            r == (self.rules().len() == 0),
    {
        self.rules.is_empty()
    }

    /// Returns true if `qname` matches any configured cfst-domain.
    pub fn matches(&self, qname: &str) -> (r: bool)
        ensures
            r == exists|i: int|
                0 <= i < self.rules().len() && domain::matches_domain(
                    domain::normalized(qname@),
                    (#[trigger] self.rules()[i]).name(),
                ),
    {
        let normal = normalize_domain(qname);
        let mut i: usize = 0;
        while i < self.rules.len()
            invariant
                i <= self.rules@.len(),
                normal@ == domain::normalized(qname@),
                forall|k: int|
                    0 <= k < i ==> !domain::matches_domain(
                        normal@,
                        (#[trigger] self.rules@[k]).name(),
                    ),
            decreases self.rules@.len() - i,
        {
            let rule_domain = self.rules[i].normalized_domain();
            if domain_matches(normal.as_str(), rule_domain.as_str()) {
                assert(self.rules()[i as int] == self.rules@[i as int]);
                return true;
            }
            i = i + 1;
        }
        false
    }

    /// The answer to a query at the time `now`, from the most specific rule that
    /// can give one.
    pub fn lookup(&self, qname: &str, family: QueryFamily, now: Duration) -> (r: Option<CfstAnswer>)
        ensures
            forall|i: int| #[trigger]
                answers(self.rules(), self.cache(), domain::normalized(qname@), now, i) ==> match r {
                    Some(answer) => answer_of(
                        self.rules()[i],
                        self.cache()[self.rules()[i].name()],
                        family,
                        now,
                    ) == Some(answer@),
                    None => answer_of(
                        self.rules()[i],
                        self.cache()[self.rules()[i].name()],
                        family,
                        now,
                    ) is None,
                },
            r is Some ==> exists|i: int| #[trigger]
                answers(self.rules(), self.cache(), domain::normalized(qname@), now, i),
            r matches Some(answer) ==> forall|i: int| #[trigger]
                answers(self.rules(), self.cache(), domain::normalized(qname@), now, i) ==> {
                    let entry = self.cache()[self.rules()[i].name()];
                    &&& answer.ips@ == entry.results.map_values(
                        |result: CfstResult| result.ip,
                    ).filter(|ip: IpAddr| (ip is V4) == (family is V4))
                    &&& answer.stale == (now@ > entry.expires_at@)
                    &&& !answer.stale ==> answer.ttl == self.rules()[i].ttl
                    &&& answer.stale ==> answer.ttl@ == 30_000_000_000
                },
    {
        let qname = normalize_domain(qname);
        let ghost rules = self.rules@;
        let ghost kept = self.cache();
        let mut best: Option<(usize, &CfstCacheEntry, usize)> = None;
        let mut i: usize = 0;
        while i < self.rules.len()
            invariant
                i <= self.rules@.len(),
                rules == self.rules@,
                kept == entry_views(self.cache@),
                match best {
                    None => forall|k: int| 0 <= k < i ==> !usable(#[trigger] rules[k], kept, qname@, now),
                    Some((at, entry, len)) => {
                        &&& at < i
                        &&& answers(rules.take(i as int), kept, qname@, now, at as int)
                        &&& entry@ == kept[rules[at as int].name()]
                        &&& len == rules[at as int].name().len()
                    },
                },
            decreases self.rules@.len() - i,
        {
            let name = Name::normal(self.rules[i].domain.as_str());
            let ghost sofar = rules.take(i as int);
            let ghost next = rules.take(i + 1);
            let mut found: Option<&CfstCacheEntry> = None;
            if domain_matches(qname.as_str(), name.as_str()) {
                if let Some(entry) = self.cache.get(&name) {
                    if now.nanos <= entry.expires_at.nanos || self.rules[i].serve_stale {
                        found = Some(entry);
                    }
                }
            }
            assert(found is Some == usable(rules[i as int], kept, qname@, now));
            if let Some(entry) = found {
                let len: usize = name.as_str().unicode_len();
                let replaces = match best {
                    None => true,
                    Some((_, _, best_len)) => len > best_len,
                };
                proof {
                    assert forall|j: int|
                        0 <= j < next.len() && usable(#[trigger] next[j], kept, qname@, now)
                            && replaces implies next[j].name().len() < len || (next[j].name().len()
                        == len && i <= j) by {
                        if j < i {
                            assert(next[j] == rules[j]);
                            assert(next[j] == sofar[j]);
                        }
                    }
                    assert(next[i as int] == rules[i as int]);
                    if !replaces {
                        let at = (best->0).0 as int;
                        assert(next[at] == sofar[at]);
                        assert forall|j: int|
                            0 <= j < next.len() && usable(
                                #[trigger] next[j],
                                kept,
                                qname@,
                                now,
                            ) implies next[j].name().len() < next[at].name().len() || (
                        next[j].name().len() == next[at].name().len() && at <= j) by {
                            if j < i {
                                assert(next[j] == sofar[j]);
                            }
                        }
                    }
                }
                if replaces {
                    best = Some((i, entry, len));
                }
            } else {
                proof {
                    if best is Some {
                        let at = (best->0).0 as int;
                        assert(next[at] == sofar[at]);
                        assert forall|j: int|
                            0 <= j < next.len() && usable(
                                #[trigger] next[j],
                                kept,
                                qname@,
                                now,
                            ) implies next[j].name().len() < next[at].name().len() || (
                        next[j].name().len() == next[at].name().len() && at <= j) by {
                            assert(next[j] == rules[j]);
                            if j < i {
                                assert(next[j] == sofar[j]);
                            }
                        }
                    }
                }
            }
            i = i + 1;
        }
        assert(rules.take(rules.len() as int) =~= rules);
        let (at, entry, _) = match best {
            Some(best) => best,
            None => return None,
        };
        proof {
            assert forall|k: int| #[trigger] answers(rules, kept, qname@, now, k) implies k == at by {
                assert(usable(rules[k], kept, qname@, now));
                assert(usable(rules[at as int], kept, qname@, now));
            }
        }
        let ips = pick_family(&entry.results, family);
        proof {
            lemma_ips_are_filtered(entry.results@, family);
        }
        if ips.is_empty() {
            return None;
        }
        let stale = now.nanos > entry.expires_at.nanos;
        let ttl = if stale {
            Duration { nanos: STALE_TTL_NANOS }
        } else {
            self.rules[at].ttl
        };
        Some(CfstAnswer { ips, ttl, stale })
    }

    /// Takes in how the test of a rule ended at the time `now`.
    pub fn refresh_rule(&mut self, rule: &CfstDomainConfig, run: CfstRun, now: Duration) -> (r:
        RefreshReport)
        requires
            run matches CfstRun::Done(results) && results@.len() > 0 ==> now@
                + rule.refresh_interval@ <= time::MAX_NANOS,
        ensures
            final(self).rules() == old(self).rules(),
            final(self).cache() == refreshed(old(self).cache(), *rule, run, now),
            r == report_of(run),
    {
        match run {
            CfstRun::Done(results) => {
                if results.is_empty() {
                    return RefreshReport::NoUsableIps;
                }
                let entry = CfstCacheEntry {
                    results,
                    updated_at: now,
                    expires_at: now.plus(rule.refresh_interval),
                };
                let name = Name::normal(rule.domain.as_str());
                proof {
                    assert(entry_views(self.cache@.insert(name@, entry)) =~= entry_views(
                        self.cache@,
                    ).insert(name@, entry@));
                }
                self.cache.insert(name, entry);
                RefreshReport::Stored
            },
            CfstRun::Failed => RefreshReport::Failed,
        }
    }
}

impl Default for CfstManager {
    /// A manager that has no rules.
    fn default() -> (r: CfstManager)
        ensures
            r.rules() == Seq::<CfstDomainConfig>::empty(),
            r.cache() == Map::<Seq<char>, EntryView>::empty(),
    {
        CfstManager::new(Vec::new())
    }
}

/// The addresses of the family asked for, in order.
fn pick_family(results: &Vec<CfstResult>, family: QueryFamily) -> (r: Vec<IpAddr>)
    ensures
        r@ == ips_in_family(results@, family),
{
    let mut r: Vec<IpAddr> = Vec::new();
    let mut i: usize = 0;
    while i < results.len()
        invariant
            i <= results@.len(),
            r@ == ips_in_family(results@.take(i as int), family),
        decreases results@.len() - i,
    {
        let ip = results[i].ip;
        let wanted = match (family, ip) {
            (QueryFamily::V4, IpAddr::V4(_)) => true,
            (QueryFamily::V6, IpAddr::V6(_)) => true,
            _ => false,
        };
        assert(results@.take(i + 1).drop_last() =~= results@.take(i as int));
        if wanted {
            r.push(ip);
        }
        i = i + 1;
    }
    assert(results@.take(results@.len() as int) =~= results@);
    r
}

/// One rule answers where one can, and only one.
pub proof fn law_one_rule_answers(
    rules: Seq<CfstDomainConfig>,
    kept: Map<Seq<char>, EntryView>,
    qname: Seq<char>,
    now: Duration,
)
    ensures
        (exists|i: int| 0 <= i < rules.len() && usable(#[trigger] rules[i], kept, qname, now))
            <==> (exists|i: int| #[trigger] answers(rules, kept, qname, now, i)),
        forall|i: int, j: int| #[trigger]
            answers(rules, kept, qname, now, i) && #[trigger] answers(rules, kept, qname, now, j)
                ==> i == j,
{
    if exists|i: int| 0 <= i < rules.len() && usable(#[trigger] rules[i], kept, qname, now) {
        lemma_best(rules, kept, qname, now, rules.len() as int);
        assert(rules.take(rules.len() as int) =~= rules);
    }
    assert forall|i: int, j: int| #[trigger]
        answers(rules, kept, qname, now, i) && #[trigger] answers(
        rules,
        kept,
        qname,
        now,
        j,
    ) implies i == j by {
        assert(usable(rules[i], kept, qname, now));
        assert(usable(rules[j], kept, qname, now));
    }
}

proof fn lemma_best(
    rules: Seq<CfstDomainConfig>,
    kept: Map<Seq<char>, EntryView>,
    qname: Seq<char>,
    now: Duration,
    n: int,
)
    requires
        0 <= n <= rules.len(),
    ensures
        (exists|i: int| 0 <= i < n && usable(#[trigger] rules[i], kept, qname, now)) ==> (exists|
            k: int,
        | #[trigger] answers(rules.take(n), kept, qname, now, k)),
    decreases n,
{
    if n > 0 {
        lemma_best(rules, kept, qname, now, n - 1);
        let sofar = rules.take(n - 1);
        let next = rules.take(n);
        let last = n - 1;
        assert(next[last] == rules[last]);
        if exists|k: int| #[trigger] answers(sofar, kept, qname, now, k) {
            let k = choose|k: int| #[trigger] answers(sofar, kept, qname, now, k);
            assert(next[k] == sofar[k]);
            if usable(rules[last], kept, qname, now) && rules[last].name().len()
                > rules[k].name().len() {
                assert forall|j: int|
                    0 <= j < next.len() && usable(
                        #[trigger] next[j],
                        kept,
                        qname,
                        now,
                    ) implies next[j].name().len() < next[last].name().len() || (
                next[j].name().len() == next[last].name().len() && last <= j) by {
                    if j < last {
                        assert(next[j] == sofar[j]);
                    }
                }
                assert(answers(next, kept, qname, now, last));
            } else {
                assert forall|j: int|
                    0 <= j < next.len() && usable(
                        #[trigger] next[j],
                        kept,
                        qname,
                        now,
                    ) implies next[j].name().len() < next[k].name().len() || (next[j].name().len()
                    == next[k].name().len() && k <= j) by {
                    if j < last {
                        assert(next[j] == sofar[j]);
                    }
                }
                assert(answers(next, kept, qname, now, k));
            }
        } else if usable(rules[last], kept, qname, now) {
            assert forall|j: int|
                0 <= j < next.len() && usable(#[trigger] next[j], kept, qname, now) implies last
                <= j by {
                if j < last {
                    assert(next[j] == rules[j]);
                }
            }
            assert(answers(next, kept, qname, now, last));
        } else {
            if exists|i: int| 0 <= i < n && usable(#[trigger] rules[i], kept, qname, now) {
                let i = choose|i: int| 0 <= i < n && usable(#[trigger] rules[i], kept, qname, now);
                assert(i < last);
            }
        }
    }
}

/// An answer has at least one address, all of the family asked for and among the
/// results; it is marked as out of date exactly if the results are, and then has
/// the short time to live.
pub proof fn law_answers_are_sound(
    rule: CfstDomainConfig,
    entry: EntryView,
    family: QueryFamily,
    now: Duration,
)
    ensures
        answer_of(rule, entry, family, now) matches Some(answer) ==> {
            &&& answer.ips.len() > 0
            &&& forall|i: int|
                0 <= i < answer.ips.len() ==> in_family(#[trigger] answer.ips[i], family)
                    && entry.results.contains(CfstResult { ip: answer.ips[i] })
            &&& answer.stale == (now@ > entry.expires_at@)
            &&& answer.ttl == if answer.stale {
                Duration { nanos: STALE_TTL_NANOS }
            } else {
                rule.ttl
            }
        },
        answer_of(rule, entry, family, now) is None <==> forall|i: int|
            0 <= i < entry.results.len() ==> !in_family((#[trigger] entry.results[i]).ip, family),
{
    lemma_ips_in_family(entry.results, family);
}

proof fn lemma_ips_in_family(results: Seq<CfstResult>, family: QueryFamily)
    ensures
        forall|i: int|
            0 <= i < ips_in_family(results, family).len() ==> in_family(
                #[trigger] ips_in_family(results, family)[i],
                family,
            ) && results.contains(CfstResult { ip: ips_in_family(results, family)[i] }),
        ips_in_family(results, family).len() == 0 <==> forall|i: int|
            0 <= i < results.len() ==> !in_family((#[trigger] results[i]).ip, family),
    decreases results.len(),
{
    if results.len() > 0 {
        let before = results.drop_last();
        lemma_ips_in_family(before, family);
        let ips = ips_in_family(results, family);
        let old_ips = ips_in_family(before, family);
        assert forall|i: int| 0 <= i < ips.len() implies in_family(#[trigger] ips[i], family)
            && results.contains(CfstResult { ip: ips[i] }) by {
            if i < old_ips.len() {
                assert(ips[i] == old_ips[i]);
                let k = choose|k: int| 0 <= k < before.len() && before[k] == CfstResult { ip: old_ips[i] };
                assert(results[k] == before[k]);
            } else {
                assert(results[results.len() - 1] == CfstResult { ip: ips[i] });
            }
        }
        if ips.len() == 0 {
            assert forall|i: int| 0 <= i < results.len() implies !in_family(
                (#[trigger] results[i]).ip,
                family,
            ) by {
                if i < before.len() {
                    assert(results[i] == before[i]);
                }
            }
        }
        if forall|i: int|
            0 <= i < results.len() ==> !in_family((#[trigger] results[i]).ip, family) {
            assert forall|i: int| 0 <= i < before.len() implies !in_family(
                (#[trigger] before[i]).ip,
                family,
            ) by {
                assert(results[i] == before[i]);
            }
            assert(!in_family(results[results.len() - 1].ip, family));
        }
    }
}

/// A rule that answers covers the name, so that only queries that match a rule
/// are answered.
pub proof fn law_only_matches_are_answered(
    rules: Seq<CfstDomainConfig>,
    kept: Map<Seq<char>, EntryView>,
    qname: Seq<char>,
    now: Duration,
    i: int,
)
    requires
        answers(rules, kept, qname, now, i),
    ensures
        0 <= i < rules.len() && domain::matches_domain(qname, rules[i].name()),
{
}

/// After a test of a rule gave results, a query for its domain is answered from
/// them by a rule for the domain: for as long as they are fresh, and then for as
/// long as the rule lets results be used that are out of date.
pub proof fn law_refreshed_domain_is_answered(
    rules: Seq<CfstDomainConfig>,
    before: Map<Seq<char>, EntryView>,
    at: int,
    results: Vec<CfstResult>,
    refreshed_at: Duration,
    now: Duration,
)
    requires
        0 <= at < rules.len(),
        results@.len() > 0,
        refreshed_at@ + rules[at].refresh_interval@ <= time::MAX_NANOS,
        now@ <= refreshed_at@ + rules[at].refresh_interval@ || rules[at].serve_stale,
    ensures
        ({
            let name = rules[at].name();
            let after = refreshed(before, rules[at], CfstRun::Done(results), refreshed_at);
            &&& exists|i: int| #[trigger] answers(rules, after, name, now, i)
            &&& forall|i: int| #[trigger]
                answers(rules, after, name, now, i) ==> {
                    &&& rules[i].name() == name
                    &&& after[name].results == results@
                    &&& expired(after[name], now) == (now@ > refreshed_at@
                        + rules[at].refresh_interval@)
                }
        }),
{
    let name = rules[at].name();
    let after = refreshed(before, rules[at], CfstRun::Done(results), refreshed_at);
    assert(usable(rules[at], after, name, now));
    law_one_rule_answers(rules, after, name, now);
    assert forall|i: int| #[trigger] answers(rules, after, name, now, i) implies rules[i].name()
        == name by {
        assert(usable(rules[at], after, name, now));
        assert(name.len() <= rules[i].name().len());
        domain::law_match_is_label_aware(name, rules[i].name());
    }
}

/// A test that failed or gave no address takes nothing away, and a test that gave
/// some concerns the results of no other domain.
pub proof fn law_refresh_loses_nothing(
    kept: Map<Seq<char>, EntryView>,
    rule: CfstDomainConfig,
    run: CfstRun,
    now: Duration,
    other: Seq<char>,
)
    requires
        kept.dom().contains(other),
        other != rule.name() || !(report_of(run) is Stored),
    ensures
        refreshed(kept, rule, run, now).dom().contains(other),
        refreshed(kept, rule, run, now)[other] == kept[other],
{
}

/// Results that are out of date are not used by a rule that forbids it.
pub proof fn law_stale_needs_consent(
    rules: Seq<CfstDomainConfig>,
    kept: Map<Seq<char>, EntryView>,
    qname: Seq<char>,
    now: Duration,
    i: int,
)
    requires
        answers(rules, kept, qname, now, i),
        expired(kept[rules[i].name()], now),
    ensures
        rules[i].serve_stale,
{
}

/// The addresses of the family asked for are all those of the results that are of this
/// family, in order.
proof fn lemma_ips_are_filtered(results: Seq<CfstResult>, family: QueryFamily)
    ensures
        ips_in_family(results, family) == results.map_values(
            |result: CfstResult| result.ip,
        ).filter(|ip: IpAddr| (ip is V4) == (family is V4)),
    decreases results.len(),
{
    reveal(Seq::filter);
    if results.len() > 0 {
        let ips = results.map_values(|result: CfstResult| result.ip);
        lemma_ips_are_filtered(results.drop_last(), family);
        assert(ips.drop_last() =~= results.drop_last().map_values(
            |result: CfstResult| result.ip,
        ));
        assert(ips.last() == results.last().ip);
    }
}

/// An answer has all addresses of the results that are of the family asked for, each as
/// often as it occurs and in order, and no others. There is no answer exactly if there
/// are none.
pub proof fn law_answers_are_complete(
    rule: CfstDomainConfig,
    entry: EntryView,
    family: QueryFamily,
    now: Duration,
)
    ensures
        ({
            let wanted = entry.results.map_values(|result: CfstResult| result.ip).filter(
                |ip: IpAddr| (ip is V4) == (family is V4),
            );
            match answer_of(rule, entry, family, now) {
                Some(answer) => wanted.len() > 0 && answer.ips == wanted,
                None => wanted.len() == 0,
            }
        }),
{
    lemma_ips_are_filtered(entry.results, family);
}

/// An answer from fresh results has the time to live of the rule; one from results that
/// are out of date has 30 seconds, and is marked.
pub proof fn law_answers_have_the_right_ttl(
    rule: CfstDomainConfig,
    entry: EntryView,
    family: QueryFamily,
    now: Duration,
)
    ensures
        answer_of(rule, entry, family, now) matches Some(answer) ==> {
            &&& now@ <= entry.expires_at@ ==> !answer.stale && answer.ttl == rule.ttl
            &&& now@ > entry.expires_at@ ==> answer.stale && answer.ttl@ == 30_000_000_000
        },
{
}

/// A rule can answer exactly if the name asked for is its domain, or some labels and a
/// full stop before its domain, and there are results for its domain that are fresh or
/// may be used nevertheless.
pub proof fn law_which_rules_can_answer(
    rule: CfstDomainConfig,
    kept: Map<Seq<char>, EntryView>,
    qname: Seq<char>,
    now: Duration,
)
    ensures
        usable(rule, kept, qname, now) <==> {
            let name = domain::normalized(rule.domain@);
            &&& qname == name || exists|labels: Seq<char>|
                qname == #[trigger] (labels + seq!['.']) + name
            &&& kept.dom().contains(name)
            &&& now@ <= kept[name].expires_at@ || rule.serve_stale
        },
{
    domain::law_match_is_label_aware(qname, rule.name());
}

/// The rule that answers is the most specific of those that can: its domain is, or lies
/// under, the domain of each of them, and of those for the same domain it is the first.
pub proof fn law_most_specific_rule_answers(
    rules: Seq<CfstDomainConfig>,
    kept: Map<Seq<char>, EntryView>,
    qname: Seq<char>,
    now: Duration,
    i: int,
    j: int,
)
    requires
        answers(rules, kept, qname, now, i),
        0 <= j < rules.len(),
        usable(rules[j], kept, qname, now),
    ensures
        domain::matches_domain(rules[i].name(), rules[j].name()),
        rules[i].name() == rules[j].name() ==> i <= j,
{
    domain::lemma_longer_cover_is_below(qname, rules[i].name(), rules[j].name());
}

/// After a test of a rule gave results, queries for its domain and for every name below
/// it are answered: by a rule for the domain, or by one for a domain below it.
pub proof fn law_names_below_are_answered(
    rules: Seq<CfstDomainConfig>,
    before: Map<Seq<char>, EntryView>,
    at: int,
    results: Vec<CfstResult>,
    refreshed_at: Duration,
    now: Duration,
    qname: Seq<char>,
)
    requires
        0 <= at < rules.len(),
        results@.len() > 0,
        refreshed_at@ + rules[at].refresh_interval@ <= time::MAX_NANOS,
        now@ <= refreshed_at@ + rules[at].refresh_interval@ || rules[at].serve_stale,
        qname == rules[at].name() || exists|labels: Seq<char>|
            qname == #[trigger] (labels + seq!['.']) + rules[at].name(),
    ensures
        ({
            let after = refreshed(before, rules[at], CfstRun::Done(results), refreshed_at);
            &&& exists|i: int| #[trigger] answers(rules, after, qname, now, i)
            &&& forall|i: int| #[trigger]
                answers(rules, after, qname, now, i) ==> domain::matches_domain(
                    rules[i].name(),
                    rules[at].name(),
                )
        }),
{
    let after = refreshed(before, rules[at], CfstRun::Done(results), refreshed_at);
    law_which_rules_can_answer(rules[at], after, qname, now);
    assert(usable(rules[at], after, qname, now));
    law_one_rule_answers(rules, after, qname, now);
    assert forall|i: int| #[trigger]
        answers(rules, after, qname, now, i) implies domain::matches_domain(
        rules[i].name(),
        rules[at].name(),
    ) by {
        law_most_specific_rule_answers(rules, after, qname, now, i, at);
    }
}

/// All results of a test are kept for the domain of the rule, with the time of the test,
/// and are fresh for as long as the rule says. A test that failed or gave nothing changes
/// nothing. What is reported tells these cases apart.
pub proof fn law_refresh_keeps_all_results(
    kept: Map<Seq<char>, EntryView>,
    rule: CfstDomainConfig,
    run: CfstRun,
    now: Duration,
)
    requires
        now@ + rule.refresh_interval@ <= time::MAX_NANOS,
    ensures
        ({
            let after = refreshed(kept, rule, run, now);
            let name = domain::normalized(rule.domain@);
            match run {
                CfstRun::Done(results) => {
                    &&& results@.len() > 0 ==> {
                        &&& after.dom() == kept.dom().insert(name)
                        &&& after[name].results == results@
                        &&& after[name].updated_at == now
                        &&& after[name].expires_at@ == now@ + rule.refresh_interval@
                        &&& report_of(run) is Stored
                    }
                    &&& results@.len() == 0 ==> after == kept && report_of(run) is NoUsableIps
                },
                CfstRun::Failed => after == kept && report_of(run) is Failed,
            }
        }),
{
}

/// What is said of answers and entries as sequences is said of what they hold.
pub proof fn law_answers_are_seen_as_they_are(answer: CfstAnswer, entry: CfstCacheEntry)
    ensures
        answer@.ips == answer.ips@,
        answer@.ttl == answer.ttl,
        answer@.stale == answer.stale,
        entry@.results == entry.results@,
        entry@.updated_at == entry.updated_at,
        entry@.expires_at == entry.expires_at,
{
}

} // verus!
