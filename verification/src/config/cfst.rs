//! The settings of the speed tests.

use vstd::prelude::*;

use crate::domain::Domain;
use crate::time::Duration;

verus! {

/// CFST test mode
#[derive(Clone, Copy, Debug, PartialEq, Eq, Structural)]
pub enum CfstMode {
    /// Connecting to a port.
    Tcp(u16),
    /// HTTP requests.
    Httping,
    /// Downloading.
    Download,
}

/// Global CFST configuration. What is not set has a default.
#[derive(Clone, Debug, PartialEq, Eq)]
pub struct CfstConfig {
    /// The file that lists the candidate addresses.
    pub ip_file: Option<String>,
    /// What the download test fetches.
    pub url: Option<String>,
    /// The stages of a test.
    pub mode: Option<Vec<CfstMode>>,
    /// How many candidates are tested at most.
    pub candidate_count: Option<usize>,
    /// How many candidates are tested at a time.
    pub concurrency: Option<usize>,
    /// How many connections are made to a candidate.
    pub ping_times: Option<usize>,
    /// How many candidates are tested for download speed.
    pub download_test_count: Option<usize>,
    /// How many of the best addresses are kept.
    pub result_count: Option<usize>,
    /// The time from one test to the next.
    pub refresh_interval: Option<Duration>,
    /// The time to live of an answer in seconds.
    pub ttl: Option<u32>,
    /// The speed below which an address is no result.
    pub min_speed: Option<u64>,
    /// Whether results stay in use once they are out of date.
    pub serve_stale: Option<bool>,
    /// Whether the first test runs at the start.
    pub preload: Option<bool>,
}

impl Default for CfstConfig {
    /// Nothing is set.
    fn default() -> (r: CfstConfig)
        ensures
            r == (CfstConfig {
                ip_file: None,
                url: None,
                mode: None,
                candidate_count: None,
                concurrency: None,
                ping_times: None,
                download_test_count: None,
                result_count: None,
                refresh_interval: None,
                ttl: None,
                min_speed: None,
                serve_stale: None,
                preload: None,
            }),
    {
        CfstConfig {
            ip_file: None,
            url: None,
            mode: None,
            candidate_count: None,
            concurrency: None,
            ping_times: None,
            download_test_count: None,
            result_count: None,
            refresh_interval: None,
            ttl: None,
            min_speed: None,
            serve_stale: None,
            preload: None,
        }
    }
}

/// What is set, or else the default.
pub open spec fn set_or<T>(setting: Option<T>, default_value: T) -> T {
    match setting {
        Some(value) => value,
        None => default_value,
    }
}

impl CfstConfig {
    /// How many candidates are tested at most; 1024 unless set.
    pub fn candidate_count(&self) -> (r: usize)
        ensures
            r == set_or(self.candidate_count, 1024),
    {
        self.candidate_count.unwrap_or(1024)
    }

    /// How many candidates are tested at a time; 128 unless set.
    pub fn concurrency(&self) -> (r: usize)
        ensures
            r == set_or(self.concurrency, 128),
    {
        self.concurrency.unwrap_or(128)
    }

    /// How many connections are made to a candidate; 4 unless set.
    pub fn ping_times(&self) -> (r: usize)
        ensures
            r == set_or(self.ping_times, 4),
    {
        self.ping_times.unwrap_or(4)
    }

    /// How many candidates are tested for download speed; 10 unless set.
    pub fn download_test_count(&self) -> (r: usize)
        ensures
            r == set_or(self.download_test_count, 10),
    {
        self.download_test_count.unwrap_or(10)
    }

    /// How many of the best addresses are kept; 4 unless set.
    pub fn result_count(&self) -> (r: usize)
        ensures
            r == set_or(self.result_count, 4),
    {
        self.result_count.unwrap_or(4)
    }

    /// The time from one test to the next; an hour unless set.
    pub fn refresh_interval(&self) -> (r: Duration)
        ensures
            r == set_or(self.refresh_interval, Duration { nanos: 3_600_000_000_000 }),
    {
        self.refresh_interval.unwrap_or(Duration::from_secs(3600))
    }

    /// The time to live of an answer in seconds; 300 unless set.
    pub fn ttl(&self) -> (r: u32)
        ensures
            r == set_or(self.ttl, 300),
    {
        self.ttl.unwrap_or(300)
    }

    /// The speed below which an address is no result; no bound unless set.
    pub fn min_speed(&self) -> (r: Option<u64>)
        ensures
            r == self.min_speed,
    {
        self.min_speed
    }

    /// Whether results stay in use once they are out of date; they do unless set.
    pub fn serve_stale(&self) -> (r: bool)
        ensures
            r == set_or(self.serve_stale, true),
    {
        self.serve_stale.unwrap_or(true)
    }

    /// Whether the first test runs at the start; it does not unless set.
    pub fn preload(&self) -> (r: bool)
        ensures
            r == set_or(self.preload, false),
    {
        self.preload.unwrap_or(false)
    }
}

/// Per-domain CFST entry. What is not set is taken from the global settings.
#[derive(Clone, Debug, PartialEq, Eq)]
pub struct CfstDomainEntry {
    /// What the entry is about.
    pub domain: Domain,
    /// What the download test fetches.
    pub url: Option<String>,
    /// The file that lists the candidate addresses.
    pub ip_file: Option<String>,
    /// How many of the best addresses are kept.
    pub result_count: Option<usize>,
}

/// What is set is used as it is, and the default only where nothing is set.
pub proof fn law_settings_come_before_defaults<T>(setting: Option<T>, default_value: T)
    ensures
        setting matches Some(value) ==> set_or(setting, default_value) == value,
        setting is None ==> set_or(setting, default_value) == default_value,
{
}

} // verus!
