use cfst::cfst::{
    domain_to_name, CfstManager, CfstResults, RefreshAction, RefreshEvent,
};
use cfst::config::cfst::{CfstConfig, CfstDomainEntry, CfstMode};
use cfst::dns_mw_cfst::{CfstMiddleware, Handling, RData, RecordType};
use cfst::domain::{Domain, Name, WildcardName};
use cfst::latency::{fastest, next_attempt, reachable, LatencyMeter};
use cfst::net::{Ipv4Addr, Ipv6Addr};
use cfst::time::Duration;

fn v4(a: u8, b: u8, c: u8, d: u8) -> Ipv4Addr {
    Ipv4Addr { bits: u32::from_be_bytes([a, b, c, d]) }
}

fn v6(bits: u128) -> Ipv6Addr {
    Ipv6Addr { bits }
}

fn ms(n: u128) -> Duration {
    Duration { nanos: n * 1_000_000 }
}

fn entry(domain: Domain) -> CfstDomainEntry {
    CfstDomainEntry { domain, url: None, ip_file: None, result_count: None }
}

fn named(text: &str) -> Domain {
    Domain::Name(WildcardName::Default(Name::new(text)))
}

fn with_file() -> CfstConfig {
    CfstConfig { ip_file: Some("ip.txt".to_string()), ..CfstConfig::default() }
}

/// A manager for one domain with the given results.
fn create_test_manager(domain: &str, ipv4: Vec<Ipv4Addr>, ipv6: Vec<Ipv6Addr>) -> CfstManager {
    let mut manager = CfstManager::new(with_file(), vec![entry(named(domain))]);
    let ipv4 = ipv4.into_iter().map(|ip| (ip, ms(1))).collect();
    let ipv6 = ipv6.into_iter().map(|ip| (ip, ms(1))).collect();
    manager.refresh_domain(0, RefreshEvent::Measured(ipv4, ipv6, ms(0)));
    manager
}

/// What a query is answered with, where the next in line answers with `fallback`.
fn lookup_rdata(
    middleware: &CfstMiddleware,
    name: &str,
    query_type: RecordType,
    fallback: &[RData],
) -> Vec<RData> {
    match middleware.handle(query_type, &Name::new(name), name, ms(0)) {
        Handling::Answer(records, _, _) => records.iter().map(|r| r.rdata).collect(),
        Handling::Next => fallback.to_vec(),
    }
}

#[test]
fn test_cfst_middleware_returns_cached_ipv4() {
    let manager =
        create_test_manager("cdn.example.com", vec![v4(1, 2, 3, 4), v4(5, 6, 7, 8)], vec![]);
    let config = CfstConfig::default();
    let middleware = CfstMiddleware::new(&manager, &config);
    let result = lookup_rdata(&middleware, "cdn.example.com", RecordType::A, &[]);
    assert_eq!(result.len(), 2);
    assert!(result.contains(&RData::A(v4(1, 2, 3, 4))));
    assert!(result.contains(&RData::A(v4(5, 6, 7, 8))));
}

#[test]
fn test_cfst_middleware_returns_cached_ipv6() {
    let ip = v6(0x2001_0db8_0000_0000_0000_0000_0000_0001);
    let manager = create_test_manager("cdn.example.com", vec![], vec![ip]);
    let config = CfstConfig::default();
    let middleware = CfstMiddleware::new(&manager, &config);
    let result = lookup_rdata(&middleware, "cdn.example.com", RecordType::AAAA, &[]);
    assert_eq!(result.len(), 1);
    assert!(result.contains(&RData::AAAA(ip)));
}

#[test]
fn test_cfst_middleware_passthrough_non_cfst_domain() {
    let manager = create_test_manager("cdn.example.com", vec![v4(1, 2, 3, 4)], vec![]);
    let config = CfstConfig::default();
    let middleware = CfstMiddleware::new(&manager, &config);
    let next = [RData::A(v4(9, 9, 9, 9))];
    let result = lookup_rdata(&middleware, "other.example.com", RecordType::A, &next);
    assert_eq!(result.len(), 1);
    assert_eq!(result[0], RData::A(v4(9, 9, 9, 9)));
}

#[test]
fn test_cfst_middleware_passthrough_when_no_ipv4_results() {
    let manager = create_test_manager("cdn.example.com", vec![], vec![]);
    let config = CfstConfig::default();
    let middleware = CfstMiddleware::new(&manager, &config);
    let next = [RData::A(v4(9, 9, 9, 9))];
    let result = lookup_rdata(&middleware, "cdn.example.com", RecordType::A, &next);
    // Should fall through because results has no IPv4
    assert_eq!(result.len(), 1);
    assert_eq!(result[0], RData::A(v4(9, 9, 9, 9)));
}

#[test]
fn answers_have_the_time_to_live_that_is_set() {
    let mut manager = create_test_manager("example.com", vec![v4(1, 2, 3, 4)], vec![v6(7)]);
    let config = CfstConfig { ttl: Some(60), ..CfstConfig::default() };
    let middleware = CfstMiddleware::new(&manager, &config);
    let asked = Name::new("www.example.com");
    match middleware.handle(RecordType::A, &asked, "WWW.Example.com.", ms(5_000)) {
        Handling::Answer(records, valid_until, stale) => {
            assert!(!stale);
            assert_eq!(records.len(), 1);
            assert_eq!(records[0].name, "WWW.Example.com.");
            assert_eq!(records[0].ttl, 60);
            assert_eq!(records[0].rdata, RData::A(v4(1, 2, 3, 4)));
            assert_eq!(valid_until, ms(65_000));
        }
        Handling::Next => panic!("not answered"),
    }
    manager.refresh_domain(0, RefreshEvent::ReadFailed);
    let middleware = CfstMiddleware::new(&manager, &config);
    match middleware.handle(RecordType::AAAA, &asked, "www.example.com", ms(5_000)) {
        Handling::Answer(records, valid_until, stale) => {
            assert!(stale);
            assert_eq!(records[0].ttl, 30);
            assert_eq!(records[0].rdata, RData::AAAA(v6(7)));
            assert_eq!(valid_until, ms(35_000));
        }
        Handling::Next => panic!("not answered"),
    }
}

#[test]
fn other_queries_pass() {
    let manager = create_test_manager("example.com", vec![v4(1, 2, 3, 4)], vec![]);
    let config = CfstConfig::default();
    let middleware = CfstMiddleware::new(&manager, &config);
    let name = Name::new("example.com");
    assert!(matches!(middleware.handle(RecordType::Other(15), &name, "example.com", ms(0)), Handling::Next));
    assert!(matches!(middleware.handle(RecordType::AAAA, &name, "example.com", ms(0)), Handling::Next));
}

#[test]
fn names_without_results_pass() {
    let manager = CfstManager::new(with_file(), vec![entry(named("example.com"))]);
    let config = CfstConfig::default();
    let middleware = CfstMiddleware::new(&manager, &config);
    let name = Name::new("example.com");
    assert!(middleware.manager.has_domain(&name));
    assert!(matches!(middleware.handle(RecordType::A, &name, "example.com", ms(0)), Handling::Next));
}

#[test]
fn settings_have_defaults() {
    let config = CfstConfig::default();
    assert_eq!(config.candidate_count(), 1024);
    assert_eq!(config.concurrency(), 128);
    assert_eq!(config.ping_times(), 4);
    assert_eq!(config.download_test_count(), 10);
    assert_eq!(config.result_count(), 4);
    assert_eq!(config.refresh_interval(), Duration::from_secs(3600));
    assert_eq!(config.ttl(), 300);
    assert_eq!(config.min_speed(), None);
    assert!(config.serve_stale());
    assert!(!config.preload());
}

#[test]
fn settings_are_used_where_they_are_set() {
    let config = CfstConfig {
        candidate_count: Some(1),
        concurrency: Some(2),
        ping_times: Some(3),
        download_test_count: Some(5),
        result_count: Some(6),
        refresh_interval: Some(ms(7)),
        ttl: Some(8),
        min_speed: Some(9),
        serve_stale: Some(false),
        preload: Some(true),
        ..CfstConfig::default()
    };
    assert_eq!(config.candidate_count(), 1);
    assert_eq!(config.concurrency(), 2);
    assert_eq!(config.ping_times(), 3);
    assert_eq!(config.download_test_count(), 5);
    assert_eq!(config.result_count(), 6);
    assert_eq!(config.refresh_interval(), ms(7));
    assert_eq!(config.ttl(), 8);
    assert_eq!(config.min_speed(), Some(9));
    assert!(!config.serve_stale());
    assert!(config.preload());
}

#[test]
fn refresh_goes_step_by_step() {
    let mut config = with_file();
    config.mode = Some(vec![CfstMode::Httping, CfstMode::Tcp(8443), CfstMode::Tcp(80)]);
    config.candidate_count = Some(3);
    config.result_count = Some(1);
    let mut manager = CfstManager::new(config, vec![entry(named("a.b"))]);
    match manager.refresh_domain(0, RefreshEvent::Begin) {
        RefreshAction::ReadFile(path) => assert_eq!(path, "ip.txt"),
        other => panic!("{other:?}"),
    }
    match manager.refresh_domain(0, RefreshEvent::FileRead("1.1.1.1\n10.0.0.0/24\n".to_string())) {
        RefreshAction::Probe(plan) => {
            assert_eq!(plan.ipv4_candidates, vec![v4(1, 1, 1, 1), v4(10, 0, 0, 1), v4(10, 0, 0, 2)]);
            assert!(plan.ipv6_candidates.is_empty());
            assert_eq!(plan.port, 8443);
            assert_eq!(plan.concurrency, 128);
            assert_eq!(plan.ping_times, 4);
            assert!(plan.unsupported_modes);
        }
        other => panic!("{other:?}"),
    }
    let measured = vec![(v4(1, 1, 1, 1), ms(9)), (v4(10, 0, 0, 2), ms(3))];
    let action = manager.refresh_domain(0, RefreshEvent::Measured(measured, vec![], ms(50)));
    assert!(matches!(action, RefreshAction::Stored));
    let results = manager.get_results(&Name::new("A.B")).unwrap();
    assert_eq!(results.ipv4, vec![v4(10, 0, 0, 2)]);
    assert!(results.ipv6.is_empty());
    assert_eq!(results.updated_at, ms(50));
    assert!(!results.stale);
    assert!(results.has_ipv4());
    assert!(!results.has_ipv6());
}

#[test]
fn the_port_is_443_without_a_tcp_mode() {
    for mode in [None, Some(vec![]), Some(vec![CfstMode::Download])] {
        let unsupported = mode.as_ref().is_some_and(|m| !m.is_empty());
        let config = CfstConfig { mode, ..with_file() };
        let mut manager = CfstManager::new(config, vec![entry(named("a.b"))]);
        match manager.refresh_domain(0, RefreshEvent::FileRead(String::new())) {
            RefreshAction::Probe(plan) => {
                assert_eq!(plan.port, 443);
                assert_eq!(plan.unsupported_modes, unsupported);
            }
            other => panic!("{other:?}"),
        }
    }
}

#[test]
fn an_entry_overrides_the_global_settings() {
    let mut own = entry(named("a.b"));
    own.ip_file = Some("own.txt".to_string());
    own.result_count = Some(2);
    let mut manager = CfstManager::new(with_file(), vec![own]);
    match manager.refresh_domain(0, RefreshEvent::Begin) {
        RefreshAction::ReadFile(path) => assert_eq!(path, "own.txt"),
        other => panic!("{other:?}"),
    }
    let measured: Vec<_> = (1..9).map(|i| (v4(1, 1, 1, i), ms(100 - i as u128))).collect();
    manager.refresh_domain(0, RefreshEvent::Measured(measured, vec![], ms(0)));
    let results = manager.get_results(&Name::new("a.b")).unwrap();
    assert_eq!(results.ipv4, vec![v4(1, 1, 1, 8), v4(1, 1, 1, 7)]);
}

#[test]
fn refresh_needs_a_name_and_a_file() {
    let domains = vec![entry(Domain::DomainSet("set".to_string())), entry(named("a.b"))];
    let mut manager = CfstManager::new(CfstConfig::default(), domains);
    assert_eq!(manager.domain_count(), 2);
    assert!(matches!(manager.refresh_domain(0, RefreshEvent::Begin), RefreshAction::NoName));
    match manager.refresh_domain(1, RefreshEvent::Begin) {
        RefreshAction::NoIpFile(name) => assert_eq!(name.as_str(), "a.b"),
        other => panic!("{other:?}"),
    }
    assert!(manager.all_results().is_empty());
}

#[test]
fn a_failed_read_marks_results_as_stale() {
    let domains = vec![entry(named("a.b")), entry(named("c.d"))];
    let mut manager = CfstManager::new(with_file(), domains);
    assert!(matches!(manager.refresh_domain(0, RefreshEvent::ReadFailed), RefreshAction::KeptStale));
    assert!(manager.get_results(&Name::new("a.b")).is_none());
    for i in 0..2 {
        let measured = vec![(v4(1, 1, 1, i as u8), ms(1))];
        manager.refresh_domain(i, RefreshEvent::Measured(measured, vec![], ms(3)));
    }
    manager.refresh_domain(0, RefreshEvent::ReadFailed);
    let first = manager.get_results(&Name::new("a.b")).unwrap();
    assert!(first.stale);
    assert_eq!(first.ipv4, vec![v4(1, 1, 1, 0)]);
    assert_eq!(first.updated_at, ms(3));
    assert!(!manager.get_results(&Name::new("c.d")).unwrap().stale);
    let all = manager.all_results();
    assert_eq!(all.len(), 2);
    manager.refresh_domain(0, RefreshEvent::Measured(vec![], vec![], ms(9)));
    assert!(!manager.get_results(&Name::new("a.b")).unwrap().stale);
}

#[test]
fn all_results_are_listed_once() {
    let domains = vec![entry(named("a.b")), entry(named("A.B")), entry(named("c.d"))];
    let mut manager = CfstManager::new(with_file(), domains);
    for i in 0..3 {
        let measured = vec![(v4(1, 1, 1, i as u8), ms(1))];
        manager.refresh_domain(i, RefreshEvent::Measured(measured, vec![], ms(0)));
    }
    let mut all: Vec<(String, CfstResults)> =
        manager.all_results().into_iter().map(|(n, r)| (n.as_str().to_string(), r)).collect();
    all.sort_by(|a, b| a.0.cmp(&b.0));
    assert_eq!(all.len(), 2);
    assert_eq!(all[0].0, "a.b");
    assert_eq!(all[0].1.ipv4, vec![v4(1, 1, 1, 1)]);
    assert_eq!(all[1].0, "c.d");
}

#[test]
fn the_first_entry_that_covers_a_name_gives_the_key() {
    let domains = vec![
        entry(Domain::DomainSet("set".to_string())),
        entry(named("cdn.example.com")),
        entry(named("example.com")),
    ];
    let manager = CfstManager::new(with_file(), domains);
    let key = |q: &str| manager.find_matching_name(&Name::new(q)).map(|n| n.as_str().to_string());
    assert_eq!(key("a.cdn.example.com").as_deref(), Some("cdn.example.com"));
    assert_eq!(key("www.example.com").as_deref(), Some("example.com"));
    assert_eq!(key("badexample.com"), None);
    assert!(manager.has_domain(&Name::new("Example.com")));
    assert!(!manager.has_domain(&Name::new("com")));
    assert!(domain_to_name(&Domain::DomainSet("set".to_string())).is_none());
    assert_eq!(domain_to_name(&named("x.Y")).unwrap().as_str(), "x.y");
}

#[test]
fn the_fastest_come_first() {
    let measured = vec![('a', ms(5)), ('b', ms(3)), ('c', ms(5)), ('d', ms(1)), ('e', ms(3))];
    assert_eq!(fastest(&measured, 9), vec!['d', 'b', 'e', 'a', 'c']);
    assert_eq!(fastest(&measured, 3), vec!['d', 'b', 'e']);
    assert_eq!(fastest(&measured, 2), vec!['d', 'b']);
    assert!(fastest(&measured, 0).is_empty());
    assert!(fastest::<char>(&vec![], 3).is_empty());
}

#[test]
fn ranking_agrees_with_a_stable_sort() {
    let mut seed: u32 = 7;
    let measured: Vec<(usize, Duration)> = (0..200)
        .map(|i| {
            seed = seed.wrapping_mul(1_103_515_245).wrapping_add(12_345);
            (i, ms((seed >> 16) as u128 % 17))
        })
        .collect();
    let mut sorted = measured.clone();
    sorted.sort_by(|a, b| a.1.cmp(&b.1));
    for count in [0, 1, 4, 50, 199, 200, 1000] {
        let want: Vec<usize> = sorted.iter().take(count).map(|m| m.0).collect();
        assert_eq!(fastest(&measured, count), want);
    }
}

#[test]
fn latencies_are_averaged_over_the_successes() {
    let mut meter = LatencyMeter::new();
    assert_eq!(meter.average(), None);
    meter.record(None);
    assert_eq!(meter.average(), None);
    meter.record(Some(Duration { nanos: 10 }));
    meter.record(None);
    meter.record(Some(Duration { nanos: 15 }));
    assert_eq!(meter.average(), Some(Duration { nanos: 12 }));
    assert_eq!(meter.success_count, 2);
}

#[test]
fn averages_agree_with_the_standard_library() {
    for (total, count) in [(1_999_999_999u64, 2u32), (7, 3), (5_000_000_001, 4), (0, 9)] {
        let meter = LatencyMeter { total: Duration { nanos: total as u128 }, success_count: count };
        let want = std::time::Duration::from_nanos(total) / count;
        assert_eq!(meter.average().unwrap().nanos, want.as_nanos());
    }
    assert_eq!(cfst::time::MAX_NANOS, std::time::Duration::MAX.as_nanos());
    assert_eq!(
        Duration::from_secs(u64::MAX).nanos,
        std::time::Duration::from_secs(u64::MAX).as_nanos()
    );
    assert_eq!(ms(2).plus(ms(3)), ms(5));
}

#[test]
fn attempts_are_counted_and_limited() {
    let mut made = 0;
    while let Some(limit) = next_attempt(made, 4) {
        assert_eq!(limit, Duration::from_secs(5));
        made += 1;
    }
    assert_eq!(made, 4);
    assert_eq!(next_attempt(0, 0), None);
    assert_eq!(next_attempt(5, 4), None);
    assert_eq!(next_attempt(usize::MAX - 1, usize::MAX), Some(ms(5_000)));
}

/// Refreshes all entries once; `files` says what the file of each entry holds, if it
/// can be read. Every candidate answers, the later ones faster.
fn run_pass(manager: &mut CfstManager, files: &[Option<&str>], now: Duration) {
    let mut turn = manager.first_entry();
    let mut event = RefreshEvent::Begin;
    let mut begun = Vec::new();
    while let Some(index) = turn {
        if matches!(event, RefreshEvent::Begin) {
            begun.push(index);
        }
        let action = manager.refresh_domain(index, event);
        turn = manager.next_entry(index, &action);
        event = match action {
            RefreshAction::ReadFile(_) => match files[index] {
                Some(content) => RefreshEvent::FileRead(content.to_string()),
                None => RefreshEvent::ReadFailed,
            },
            RefreshAction::Probe(plan) => {
                let averages = (0..plan.ipv4_candidates.len())
                    .map(|i| Some(ms(100 - i as u128)))
                    .collect();
                RefreshEvent::Measured(reachable(&plan.ipv4_candidates, &averages), vec![], now)
            }
            _ => RefreshEvent::Begin,
        };
    }
    assert_eq!(begun, (0..manager.domain_count()).collect::<Vec<usize>>());
}

#[test]
fn a_pass_refreshes_every_entry() {
    let domains = vec![
        entry(named("a.b")),
        entry(Domain::DomainSet("set".to_string())),
        entry(named("c.d")),
        entry(named("e.f")),
    ];
    let mut manager = CfstManager::new(with_file(), domains);
    run_pass(&mut manager, &[Some("1.1.1.1"), None, None, Some("3.3.3.3\n3.3.3.4")], ms(1));
    let results = |manager: &CfstManager, name: &str| manager.get_results(&Name::new(name));
    assert_eq!(results(&manager, "a.b").unwrap().ipv4, vec![v4(1, 1, 1, 1)]);
    assert!(results(&manager, "c.d").is_none());
    assert_eq!(results(&manager, "e.f").unwrap().ipv4, vec![v4(3, 3, 3, 4), v4(3, 3, 3, 3)]);
    run_pass(&mut manager, &[None, None, Some("2.2.2.2"), Some("4.4.4.4")], ms(2));
    let first = results(&manager, "a.b").unwrap();
    assert!(first.stale);
    assert_eq!(first.ipv4, vec![v4(1, 1, 1, 1)]);
    assert_eq!(first.updated_at, ms(1));
    let second = results(&manager, "c.d").unwrap();
    assert!(!second.stale);
    assert_eq!(second.ipv4, vec![v4(2, 2, 2, 2)]);
    let third = results(&manager, "e.f").unwrap();
    assert!(!third.stale);
    assert_eq!(third.ipv4, vec![v4(4, 4, 4, 4)]);
    assert_eq!(third.updated_at, ms(2));
    assert_eq!(manager.all_results().len(), 3);
}

#[test]
fn entries_of_a_pass_come_in_order() {
    let domains = vec![entry(named("a.b")), entry(named("c.d"))];
    let manager = CfstManager::new(with_file(), domains);
    assert_eq!(manager.first_entry(), Some(0));
    let read = RefreshAction::ReadFile("ip.txt".to_string());
    assert_eq!(manager.next_entry(0, &read), Some(0));
    assert_eq!(manager.next_entry(1, &read), Some(1));
    for done in [RefreshAction::NoName, RefreshAction::KeptStale, RefreshAction::Stored] {
        assert_eq!(manager.next_entry(0, &done), Some(1));
        assert_eq!(manager.next_entry(1, &done), None);
    }
    assert_eq!(CfstManager::new(with_file(), vec![]).first_entry(), None);
}

#[test]
fn candidates_that_did_not_answer_are_no_results() {
    let candidates = vec!['a', 'b', 'c', 'd', 'b'];
    let averages = vec![Some(ms(4)), None, Some(ms(2)), None, Some(ms(3))];
    let measured = reachable(&candidates, &averages);
    assert_eq!(measured, vec![('a', ms(4)), ('c', ms(2)), ('b', ms(3))]);
    assert_eq!(fastest(&measured, 9), vec!['c', 'b', 'a']);
    assert!(reachable(&vec!['a'], &vec![None]).is_empty());
    assert!(reachable::<char>(&vec![], &vec![]).is_empty());
}

#[test]
fn results_are_listed_candidates() {
    let mut manager = CfstManager::new(with_file(), vec![entry(named("a.b"))]);
    let content = "1.1.1.1\n10.0.0.0/29\n2001:db8::1".to_string();
    let plan = match manager.refresh_domain(0, RefreshEvent::FileRead(content)) {
        RefreshAction::Probe(plan) => plan,
        other => panic!("{other:?}"),
    };
    let averages: Vec<Option<Duration>> = (0..plan.ipv4_candidates.len())
        .map(|i| if i % 2 == 0 { Some(ms(50 - i as u128)) } else { None })
        .collect();
    let ipv4 = reachable(&plan.ipv4_candidates, &averages);
    let ipv6 = reachable(&plan.ipv6_candidates, &vec![None]);
    manager.refresh_domain(0, RefreshEvent::Measured(ipv4, ipv6, ms(0)));
    let results = manager.get_results(&Name::new("a.b")).unwrap();
    let want = vec![v4(10, 0, 0, 6), v4(10, 0, 0, 4), v4(10, 0, 0, 2), v4(1, 1, 1, 1)];
    assert_eq!(results.ipv4, want);
    assert!(results.ipv6.is_empty());
}

#[test]
fn deadlines_that_cannot_be_told_are_found() {
    let manager = create_test_manager("example.com", vec![v4(1, 2, 3, 4)], vec![]);
    let config = CfstConfig { ttl: Some(60), ..CfstConfig::default() };
    let middleware = CfstMiddleware::new(&manager, &config);
    let name = Name::new("example.com");
    let last = Duration { nanos: cfst::time::MAX_NANOS - 60_000_000_000 };
    let late = Duration { nanos: last.nanos + 1 };
    assert!(middleware.deadline_fits(RecordType::A, &name, last));
    assert!(!middleware.deadline_fits(RecordType::A, &name, late));
    assert!(!middleware.deadline_fits(RecordType::A, &name, Duration { nanos: u128::MAX }));
    assert!(middleware.deadline_fits(RecordType::AAAA, &name, late));
    assert!(middleware.deadline_fits(RecordType::Other(1), &name, late));
    assert!(middleware.deadline_fits(RecordType::A, &Name::new("other"), late));
}

#[test]
fn only_the_name_itself_is_found() {
    let manager = create_test_manager("cdn.example.com", vec![v4(1, 2, 3, 4)], vec![]);
    let config = CfstConfig::default();
    let middleware = CfstMiddleware::new(&manager, &config);
    let answered = |name: &str| !lookup_rdata(&middleware, name, RecordType::A, &[]).is_empty();
    assert!(answered("CDN.example.com."));
    assert!(!answered("/cdn.example.com"));
    assert!(!answered(" cdn.example.com"));
    assert!(!answered("cdn.example.com/"));
}
