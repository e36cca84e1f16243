//! Answers to DNS queries from the results of speed tests.

use vstd::prelude::*;

use crate::cfst;
use crate::cfst::{CfstManager, CfstResults, ResultsView};
use crate::config::cfst::CfstConfig;
use crate::domain::Name;
use crate::latency;
use crate::net::{Ipv4Addr, Ipv6Addr};
use crate::time;
use crate::time::Duration;

verus! {

/// The type of record that a query asks for.
#[derive(Clone, Copy, Debug, PartialEq, Eq, Structural)]
pub enum RecordType {
    A,
    AAAA,
    /// Any other type, by its number.
    Other(u16),
}

/// What a record of an answer holds.
#[derive(Clone, Copy, Debug, PartialEq, Eq, Structural)]
pub enum RData {
    A(Ipv4Addr),
    AAAA(Ipv6Addr),
}

/// A record of an answer.
#[derive(Debug)]
pub struct Record {
    /// The name that was asked for, as it was asked for.
    pub name: String,
    /// The time to live in seconds.
    pub ttl: u32,
    /// The address.
    pub rdata: RData,
}

/// A record of an answer in terms of characters.
pub struct RecordView {
    pub name: Seq<char>,
    pub ttl: u32,
    pub rdata: RData,
}

impl View for Record {
    type V = RecordView;

    open spec fn view(&self) -> RecordView {
        RecordView { name: self.name@, ttl: self.ttl, rdata: self.rdata }
    }
}

/// What is done with a query.
#[derive(Debug)]
pub enum Handling {
    /// The next in line handles it.
    Next,
    /// It is answered with these records, valid until the time given, from results
    /// that are out of date or not; the answer counts as a static one.
    Answer(Vec<Record>, Duration, bool),
}

/// The time to live in seconds of an answer from results that are out of date.
pub const STALE_TTL: u32 = 30;

/// The time to live of an answer from these results.
pub open spec fn ttl_of(config: CfstConfig, results: ResultsView) -> u32 {
    if results.stale {
        STALE_TTL
    } else {
        crate::config::cfst::set_or(config.ttl, 300)
    }
}

/// The addresses of the type asked for.
pub open spec fn rdata_of(query_type: RecordType, results: ResultsView) -> Seq<RData> {
    match query_type {
        RecordType::A => results.ipv4.map_values(|ip: Ipv4Addr| RData::A(ip)),
        RecordType::AAAA => results.ipv6.map_values(|ip: Ipv6Addr| RData::AAAA(ip)),
        RecordType::Other(_) => seq![],
    }
}

/// The records of a vector.
pub open spec fn record_views(records: Seq<Record>) -> Seq<RecordView> {
    records.map_values(|record: Record| record@)
}

/// Records for a name that hold the given addresses.
pub open spec fn records_of(name: Seq<char>, ttl: u32, rdata: Seq<RData>) -> Seq<RecordView> {
    rdata.map_values(|rdata: RData| RecordView { name, ttl, rdata })
}

/// The results that the manager keeps for a queried name: those kept for the
/// name of the first entry that covers it.
pub open spec fn results_for(manager: CfstManager, qname: Seq<char>, results: ResultsView) -> bool {
    exists|i: int| #[trigger]
        cfst::first_cover(manager.domains(), qname, i) && {
            let key = manager.domains()[i].domain@->Name_0;
            manager.results().dom().contains(key) && manager.results()[key] == results
        }
}

/// The results that the manager keeps for a queried name hold addresses of the
/// type asked for.
pub open spec fn can_answer(
    manager: CfstManager,
    query_type: RecordType,
    qname: Seq<char>,
    results: ResultsView,
) -> bool {
    results_for(manager, qname, results) && rdata_of(query_type, results).len() > 0
}

/// Answers queries for the configured domains.
#[derive(Clone, Copy, Debug)]
pub struct CfstMiddleware<'a> {
    /// The configured domains and their results.
    pub manager: &'a CfstManager,
    /// The settings for the answers.
    pub config: &'a CfstConfig,
}

impl<'a> CfstMiddleware<'a> {
    /// Answers from the results of this manager.
    pub fn new(manager: &'a CfstManager, config: &'a CfstConfig) -> (r: CfstMiddleware<'a>)
        ensures
            r == (CfstMiddleware { manager, config }),
    {
        CfstMiddleware { manager, config }
    }

    /// What is done with a query at the time `now`. The name asked for is given
    /// twice: as a name, by which the results are found, and as it was asked for,
    /// which is the name that the records bear.
    pub fn handle(
        &self,
        query_type: RecordType,
        query_name: &Name,
        asked_name: &str,
        now: Duration,
    ) -> (r: Handling)
        requires
            forall|results: ResultsView| #[trigger]
                can_answer(*self.manager, query_type, query_name@, results) ==> now@
                    + time::secs_nanos(ttl_of(*self.config, results) as int) <= time::MAX_NANOS,
        ensures
            match r {
                Handling::Next => forall|results: ResultsView|
                    !can_answer(*self.manager, query_type, query_name@, results),
                Handling::Answer(records, valid_until, stale) => exists|results: ResultsView| #[trigger]
                    can_answer(*self.manager, query_type, query_name@, results) && {
                        let ttl = ttl_of(*self.config, results);
                        &&& record_views(records@) == records_of(
                            asked_name@,
                            ttl,
                            rdata_of(query_type, results),
                        )
                        &&& valid_until@ == now@ + time::secs_nanos(ttl as int)
                        &&& stale == results.stale
                        &&& records@.len() == (match query_type {
                            RecordType::A => results.ipv4.len(),
                            RecordType::AAAA => results.ipv6.len(),
                            RecordType::Other(_) => 0,
                        })
                        &&& forall|i: int|
                            0 <= i < records@.len() ==> {
                                &&& (#[trigger] records@[i]).name@ == asked_name@
                                &&& records@[i].ttl == ttl
                                &&& query_type is A ==> records@[i].rdata == RData::A(
                                    results.ipv4[i],
                                )
                                &&& query_type is AAAA ==> records@[i].rdata == RData::AAAA(
                                    results.ipv6[i],
                                )
                            }
                    },
            },
    {
        let results = match self.answerable(query_type, query_name) {
            Some(results) => results,
            None => return Handling::Next,
        };
        let ttl = self.answer_ttl(&results);
        let records = match query_type {
            RecordType::A => records_a(asked_name, ttl, &results.ipv4),
            RecordType::AAAA => records_aaaa(asked_name, ttl, &results.ipv6),
            RecordType::Other(_) => return Handling::Next,
        };
        Handling::Answer(records, now.plus(Duration::from_secs(ttl as u64)), results.stale)
    }

    /// Whether the deadline of the answer can be told, as `handle` needs; so it can where
    /// the query is not answered.
    pub fn deadline_fits(&self, query_type: RecordType, query_name: &Name, now: Duration) -> (r:
        bool)
        ensures
            r == forall|results: ResultsView| #[trigger]
                can_answer(*self.manager, query_type, query_name@, results) ==> now@
                    + time::secs_nanos(ttl_of(*self.config, results) as int) <= time::MAX_NANOS,
    {
        match self.answerable(query_type, query_name) {
            Some(results) => {
                let ttl = Duration::from_secs(self.answer_ttl(&results) as u64);
                proof {
                    assert forall|other: ResultsView| #[trigger]
                        can_answer(*self.manager, query_type, query_name@, other) implies other
                        == results@ by {
                        law_one_result_bears(*self.manager, query_name@, other, results@);
                    }
                }
                now.nanos <= time::MAX_NANOS && ttl.nanos <= time::MAX_NANOS - now.nanos
            },
            None => true,
        }
    }

    /// The time to live of an answer from these results.
    fn answer_ttl(&self, results: &CfstResults) -> (r: u32)
        ensures
            r == ttl_of(*self.config, results@),
    {
        if results.stale {
            STALE_TTL
        } else {
            self.config.ttl()
        }
    }

    /// The results from which a query is answered, if it is.
    fn answerable(&self, query_type: RecordType, query_name: &Name) -> (r: Option<CfstResults>)
        ensures
            match r {
                Some(results) => can_answer(*self.manager, query_type, query_name@, results@),
                None => forall|results: ResultsView|
                    !can_answer(*self.manager, query_type, query_name@, results),
            },
    {
        match query_type {
            RecordType::A => {},
            RecordType::AAAA => {},
            RecordType::Other(_) => return None,
        }
        let key = match self.manager.find_matching_name(query_name) {
            Some(key) => key,
            None => return None,
        };
        proof {
            cfst::law_cover_is_found(self.manager.domains(), query_name@);
        }
        let results = match self.manager.get_results(key) {
            Some(results) => results,
            None => return None,
        };
        proof {
            assert(results_for(*self.manager, query_name@, results@));
            assert forall|other: ResultsView| #[trigger]
                results_for(*self.manager, query_name@, other) implies other == results@ by {
                law_one_result_bears(*self.manager, query_name@, other, results@);
            }
        }
        let has_any = match query_type {
            RecordType::A => results.has_ipv4(),
            RecordType::AAAA => results.has_ipv6(),
            RecordType::Other(_) => false,
        };
        if has_any {
            Some(results)
        } else {
            None
        }
    }
}

/// Records that hold IPv4 addresses.
fn records_a(name: &str, ttl: u32, ips: &Vec<Ipv4Addr>) -> (r: Vec<Record>)
    ensures
        record_views(r@) == records_of(name@, ttl, ips@.map_values(|ip: Ipv4Addr| RData::A(ip))),
        r@.len() == ips@.len(),
        forall|i: int|
            0 <= i < r@.len() ==> (#[trigger] r@[i]).name@ == name@ && r@[i].ttl == ttl
                && r@[i].rdata == RData::A(ips@[i]),
{
    let ghost want = records_of(name@, ttl, ips@.map_values(|ip: Ipv4Addr| RData::A(ip)));
    let mut r: Vec<Record> = Vec::new();
    let mut i: usize = 0;
    while i < ips.len()
        invariant
            i <= ips@.len() == want.len(),
            want == records_of(name@, ttl, ips@.map_values(|ip: Ipv4Addr| RData::A(ip))),
            record_views(r@) == want.take(i as int),
            r@.len() == i,
            forall|k: int|
                0 <= k < i ==> (#[trigger] r@[k]).name@ == name@ && r@[k].ttl == ttl
                    && r@[k].rdata == RData::A(ips@[k]),
        decreases ips@.len() - i,
    {
        let record = Record { name: name.to_owned(), ttl, rdata: RData::A(ips[i]) };
        let ghost before = r@;
        r.push(record);
        proof {
            assert(record@ == want[i as int]);
            assert(record_views(r@) =~= record_views(before).push(record@));
            assert(want.take(i + 1) =~= want.take(i as int).push(want[i as int]));
        }
        i = i + 1;
    }
    assert(want.take(want.len() as int) =~= want);
    r
}

/// Records that hold IPv6 addresses.
fn records_aaaa(name: &str, ttl: u32, ips: &Vec<Ipv6Addr>) -> (r: Vec<Record>)
    ensures
        record_views(r@) == records_of(
            name@,
            ttl,
            ips@.map_values(|ip: Ipv6Addr| RData::AAAA(ip)),
        ),
        r@.len() == ips@.len(),
        forall|i: int|
            0 <= i < r@.len() ==> (#[trigger] r@[i]).name@ == name@ && r@[i].ttl == ttl
                && r@[i].rdata == RData::AAAA(ips@[i]),
{
    let ghost want = records_of(name@, ttl, ips@.map_values(|ip: Ipv6Addr| RData::AAAA(ip)));
    let mut r: Vec<Record> = Vec::new();
    let mut i: usize = 0;
    while i < ips.len()
        invariant
            i <= ips@.len() == want.len(),
            want == records_of(name@, ttl, ips@.map_values(|ip: Ipv6Addr| RData::AAAA(ip))),
            record_views(r@) == want.take(i as int),
            r@.len() == i,
            forall|k: int|
                0 <= k < i ==> (#[trigger] r@[k]).name@ == name@ && r@[k].ttl == ttl
                    && r@[k].rdata == RData::AAAA(ips@[k]),
        decreases ips@.len() - i,
    {
        let record = Record { name: name.to_owned(), ttl, rdata: RData::AAAA(ips[i]) };
        let ghost before = r@;
        r.push(record);
        proof {
            assert(record@ == want[i as int]);
            assert(record_views(r@) =~= record_views(before).push(record@));
            assert(want.take(i + 1) =~= want.take(i as int).push(want[i as int]));
        }
        i = i + 1;
    }
    assert(want.take(want.len() as int) =~= want);
    r
}

/// The results that bear on a queried name are determined.
pub proof fn law_one_result_bears(
    manager: CfstManager,
    qname: Seq<char>,
    a: ResultsView,
    b: ResultsView,
)
    requires
        results_for(manager, qname, a),
        results_for(manager, qname, b),
    ensures
        a == b,
{
    cfst::law_cover_is_found(manager.domains(), qname);
}

/// Only queries for addresses are answered, and only for names that an entry
/// covers.
pub proof fn law_other_queries_pass(
    manager: CfstManager,
    query_type: RecordType,
    qname: Seq<char>,
    results: ResultsView,
)
    requires
        query_type is Other || forall|i: int|
            0 <= i < manager.domains().len() ==> !cfst::covers(
                #[trigger] manager.domains()[i],
                qname,
            ),
    ensures
        !can_answer(manager, query_type, qname, results),
{
}

/// A query for addresses of a family that the results lack passes, though there
/// are results for the name.
pub proof fn law_missing_family_passes(
    manager: CfstManager,
    qname: Seq<char>,
    results: ResultsView,
)
    ensures
        results.ipv4.len() == 0 ==> !can_answer(manager, RecordType::A, qname, results),
        results.ipv6.len() == 0 ==> !can_answer(manager, RecordType::AAAA, qname, results),
{
}

/// Once addresses of an entry were measured, queries for the names that it is the
/// first to cover are answered with the fastest of them, with the time to live that
/// is set.
pub proof fn law_measured_is_answered(
    before: CfstManager,
    index: int,
    ipv4: Vec<(Ipv4Addr, Duration)>,
    ipv6: Vec<(Ipv6Addr, Duration)>,
    measured_at: Duration,
    action: cfst::RefreshAction,
    after: CfstManager,
    config: CfstConfig,
    qname: Seq<char>,
)
    requires
        cfst::refresh_step(
            before,
            index,
            cfst::RefreshEvent::Measured(ipv4, ipv6, measured_at),
            action,
            after,
        ),
        cfst::ip_file_for(before.config(), before.domains()[index]) is Some,
        cfst::first_cover(before.domains(), qname, index),
        cfst::result_count_for(before.config(), before.domains()[index]) > 0,
    ensures
        ({
            let entry = before.domains()[index];
            let best = cfst::best_of(before.config(), entry, ipv4@, ipv6@, measured_at);
            let count = cfst::result_count_for(before.config(), entry) as nat;
            &&& ttl_of(config, best) == crate::config::cfst::set_or(config.ttl, 300)
            &&& ipv4@.len() > 0 ==> can_answer(after, RecordType::A, qname, best)
            &&& ipv6@.len() > 0 ==> can_answer(after, RecordType::AAAA, qname, best)
            &&& rdata_of(RecordType::A, best) == latency::fastest_of(ipv4@, count).map_values(
                |ip: Ipv4Addr| RData::A(ip),
            )
            &&& rdata_of(RecordType::AAAA, best) == latency::fastest_of(ipv6@, count).map_values(
                |ip: Ipv6Addr| RData::AAAA(ip),
            )
        }),
{
    let entry = before.domains()[index];
    let best = cfst::best_of(before.config(), entry, ipv4@, ipv6@, measured_at);
    let count = cfst::result_count_for(before.config(), entry) as nat;
    latency::law_fastest_are_kept(ipv4@, count);
    latency::law_fastest_are_kept(ipv6@, count);
    assert(cfst::first_cover(after.domains(), qname, index));
    assert(results_for(after, qname, best));
}

/// Where the file of candidates of an entry could not be read, queries for the names
/// that it is the first to cover are answered as before, but with the short time to
/// live.
pub proof fn law_failed_read_keeps_answers(
    before: CfstManager,
    index: int,
    action: cfst::RefreshAction,
    after: CfstManager,
    config: CfstConfig,
    query_type: RecordType,
    qname: Seq<char>,
    results: ResultsView,
)
    requires
        cfst::refresh_step(before, index, cfst::RefreshEvent::ReadFailed, action, after),
        cfst::ip_file_for(before.config(), before.domains()[index]) is Some,
        cfst::first_cover(before.domains(), qname, index),
        can_answer(before, query_type, qname, results),
    ensures
        ({
            let marked = ResultsView { stale: true, ..results };
            &&& can_answer(after, query_type, qname, marked)
            &&& rdata_of(query_type, marked) == rdata_of(query_type, results)
            &&& ttl_of(config, marked) == STALE_TTL
        }),
{
    let marked = ResultsView { stale: true, ..results };
    cfst::law_cover_is_found(before.domains(), qname);
    assert(cfst::first_cover(after.domains(), qname, index));
    assert(results_for(after, qname, marked));
}

/// The records of an answer are one for each address of the results that is of the type
/// asked for, in order, each with the name and the time to live of the answer.
pub proof fn law_one_record_for_each_address(name: Seq<char>, ttl: u32, results: ResultsView)
    ensures
        ({
            let a = records_of(name, ttl, rdata_of(RecordType::A, results));
            let aaaa = records_of(name, ttl, rdata_of(RecordType::AAAA, results));
            &&& a.len() == results.ipv4.len()
            &&& forall|i: int|
                0 <= i < results.ipv4.len() ==> (#[trigger] a[i]) == (RecordView {
                    name,
                    ttl,
                    rdata: RData::A(results.ipv4[i]),
                })
            &&& aaaa.len() == results.ipv6.len()
            &&& forall|i: int|
                0 <= i < results.ipv6.len() ==> (#[trigger] aaaa[i]) == (RecordView {
                    name,
                    ttl,
                    rdata: RData::AAAA(results.ipv6[i]),
                })
        }),
{
}

/// The time to live of an answer is 30 seconds from results that are out of date; else it
/// is what is set, or 300 seconds where nothing is.
pub proof fn law_answers_have_the_right_ttl(config: CfstConfig, results: ResultsView)
    ensures
        results.stale ==> ttl_of(config, results) == 30,
        !results.stale ==> (config.ttl matches Some(ttl) ==> ttl_of(config, results) == ttl),
        !results.stale && config.ttl is None ==> ttl_of(config, results) == 300,
{
}

/// A query can be answered exactly if it asks for addresses, an entry covers the name, and
/// there are results for the name of the first such entry with an address of the type.
pub proof fn law_which_queries_are_answered(
    manager: CfstManager,
    query_type: RecordType,
    qname: Seq<char>,
    index: int,
    key: Seq<char>,
)
    requires
        0 <= index < manager.domains().len(),
        manager.domains()[index].domain@ == crate::domain::DomainView::Name(key),
        crate::domain::matches_domain(qname, key),
        forall|j: int, other: Seq<char>|
            0 <= j < index && (#[trigger] manager.domains()[j]).domain@
                == crate::domain::DomainView::Name(other)
                ==> !#[trigger] crate::domain::matches_domain(qname, other),
    ensures
        forall|results: ResultsView| #[trigger]
            can_answer(manager, query_type, qname, results) <==> {
                &&& manager.results().dom().contains(key)
                &&& results == manager.results()[key]
                &&& (query_type is A && results.ipv4.len() > 0) || (query_type is AAAA
                    && results.ipv6.len() > 0)
            },
{
    assert(cfst::covers(manager.domains()[index], qname));
    assert forall|j: int| 0 <= j < index implies !cfst::covers(
        #[trigger] manager.domains()[j],
        qname,
    ) by {
        if let crate::domain::DomainView::Name(other) = manager.domains()[j].domain@ {
            assert(!crate::domain::matches_domain(qname, other));
        }
    }
    assert(cfst::first_cover(manager.domains(), qname, index));
    cfst::law_cover_is_found(manager.domains(), qname);
}

} // verus!
