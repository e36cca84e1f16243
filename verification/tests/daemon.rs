use cfst::cfst_daemon::{
    CfstAnswer, CfstDomainConfig, CfstManager, CfstResult, CfstRun, QueryFamily, RefreshReport,
};
use cfst::config::cfst::CfstConfig;
use cfst::net::{IpAddr, Ipv4Addr, Ipv6Addr};
use cfst::time::Duration;

fn rule(domain: &str, serve_stale: bool, ttl: u64) -> CfstDomainConfig {
    CfstDomainConfig {
        domain: domain.to_string(),
        cfst: CfstConfig::default(),
        refresh_interval: secs(100),
        ttl: secs(ttl),
        serve_stale,
    }
}

fn secs(n: u64) -> Duration {
    Duration::from_secs(n)
}

fn v4(n: u32) -> IpAddr {
    IpAddr::V4(Ipv4Addr { bits: n })
}

fn v6(n: u128) -> IpAddr {
    IpAddr::V6(Ipv6Addr { bits: n })
}

fn done(ips: &[IpAddr]) -> CfstRun {
    CfstRun::Done(ips.iter().map(|&ip| CfstResult { ip }).collect())
}

fn parts(answer: Option<CfstAnswer>) -> Option<(Vec<IpAddr>, Duration, bool)> {
    answer.map(|a| (a.ips, a.ttl, a.stale))
}

#[test]
fn rules_are_matched_by_their_normal_form() {
    let manager = CfstManager::new(vec![rule("/Example.COM./", true, 60)]);
    assert!(!manager.is_empty());
    assert!(manager.matches("www.example.com."));
    assert!(manager.matches("EXAMPLE.com"));
    assert!(!manager.matches("badexample.com"));
    assert!(CfstManager::new(vec![]).is_empty());
    assert!(CfstManager::default().is_empty());
    assert!(!CfstManager::new(vec![]).matches("a"));
    assert_eq!(rule("/Example.COM./", true, 60).normalized_domain(), "example.com");
}

#[test]
fn fresh_results_are_answered() {
    let r = rule("/Example.COM./", false, 60);
    let mut manager = CfstManager::new(vec![r.clone()]);
    assert!(manager.lookup("example.com", QueryFamily::V4, secs(0)).is_none());
    let report = manager.refresh_rule(&r, done(&[v4(1), v6(2), v4(3)]), secs(10));
    assert_eq!(report, RefreshReport::Stored);
    let want = Some((vec![v4(1), v4(3)], secs(60), false));
    assert_eq!(parts(manager.lookup("Example.com.", QueryFamily::V4, secs(10))), want);
    assert_eq!(parts(manager.lookup("a.example.com", QueryFamily::V4, secs(110))), want);
    assert_eq!(
        parts(manager.lookup("example.com", QueryFamily::V6, secs(50))),
        Some((vec![v6(2)], secs(60), false))
    );
    assert!(manager.lookup("example.org", QueryFamily::V4, secs(50)).is_none());
}

#[test]
fn expired_results_need_consent() {
    for serve_stale in [false, true] {
        let r = rule("example.com", serve_stale, 60);
        let mut manager = CfstManager::new(vec![r.clone()]);
        manager.refresh_rule(&r, done(&[v4(1)]), secs(10));
        let late = parts(manager.lookup("example.com", QueryFamily::V4, secs(111)));
        if serve_stale {
            assert_eq!(late, Some((vec![v4(1)], secs(30), true)));
        } else {
            assert_eq!(late, None);
        }
    }
}

#[test]
fn the_most_specific_rule_answers() {
    let wide = rule("example.com", true, 1);
    let narrow = rule("cdn.example.com", false, 2);
    let mut manager = CfstManager::new(vec![wide.clone(), narrow.clone()]);
    manager.refresh_rule(&wide, done(&[v4(1)]), secs(0));
    let asked = "x.cdn.example.com";
    assert_eq!(
        parts(manager.lookup(asked, QueryFamily::V4, secs(0))),
        Some((vec![v4(1)], secs(1), false))
    );
    manager.refresh_rule(&narrow, done(&[v4(2)]), secs(0));
    assert_eq!(
        parts(manager.lookup(asked, QueryFamily::V4, secs(0))),
        Some((vec![v4(2)], secs(2), false))
    );
    assert_eq!(
        parts(manager.lookup(asked, QueryFamily::V4, secs(101))),
        Some((vec![v4(1)], secs(30), true))
    );
}

#[test]
fn a_rule_without_the_family_gives_no_answer() {
    let wide = rule("example.com", true, 1);
    let narrow = rule("cdn.example.com", true, 2);
    let mut manager = CfstManager::new(vec![wide.clone(), narrow.clone()]);
    manager.refresh_rule(&wide, done(&[v4(1)]), secs(0));
    manager.refresh_rule(&narrow, done(&[v6(2)]), secs(0));
    assert!(manager.lookup("cdn.example.com", QueryFamily::V4, secs(0)).is_none());
}

#[test]
fn of_rules_for_the_same_domain_the_first_answers() {
    let first = rule("Example.com", true, 1);
    let second = rule("/example.com/", true, 2);
    let mut manager = CfstManager::new(vec![first, second.clone()]);
    manager.refresh_rule(&second, done(&[v4(7)]), secs(0));
    assert_eq!(
        parts(manager.lookup("example.com", QueryFamily::V4, secs(0))),
        Some((vec![v4(7)], secs(1), false))
    );
}

#[test]
fn a_failed_refresh_keeps_the_results() {
    let r = rule("example.com", true, 60);
    let mut manager = CfstManager::new(vec![r.clone()]);
    manager.refresh_rule(&r, done(&[v4(1)]), secs(0));
    assert_eq!(manager.refresh_rule(&r, CfstRun::Failed, secs(5)), RefreshReport::Failed);
    assert_eq!(manager.refresh_rule(&r, done(&[]), secs(6)), RefreshReport::NoUsableIps);
    assert_eq!(
        parts(manager.lookup("example.com", QueryFamily::V4, secs(7))),
        Some((vec![v4(1)], secs(60), false))
    );
    assert_eq!(manager.refresh_rule(&r, done(&[v4(2)]), secs(8)), RefreshReport::Stored);
    assert_eq!(
        parts(manager.lookup("example.com", QueryFamily::V4, secs(108))),
        Some((vec![v4(2)], secs(60), false))
    );
}
