use comet_delta::options::OptionsMap;
use comet_delta::scan::prefetch::{
    PrefetchConfig, COMET_PREFETCH_AHEAD_BUDGET, COMET_PREFETCH_ENABLED,
    COMET_PREFETCH_FILTER_AWARE, COMET_PREFETCH_MAX_CONCURRENT_REQUESTS, DEFAULT_AHEAD_BUDGET,
    DEFAULT_MAX_CONCURRENT_REQUESTS,
};

fn options(pairs: &[(&str, &str)]) -> OptionsMap {
    let mut m = OptionsMap::new();
    for (k, v) in pairs {
        m.insert(k.to_string(), v.to_string());
    }
    m
}

#[test]
fn config_defaults_when_absent() {
    let cfg = PrefetchConfig::from_spark(&OptionsMap::new());
    assert!(!cfg.enabled);
    assert_eq!(cfg.ahead_budget, DEFAULT_AHEAD_BUDGET);
    assert_eq!(cfg.max_concurrent_requests, DEFAULT_MAX_CONCURRENT_REQUESTS);
    assert!(cfg.filter_aware);
}

#[test]
fn config_parses_explicit_values() {
    let cfg = PrefetchConfig::from_spark(&options(&[
        (COMET_PREFETCH_ENABLED, "true"),
        (COMET_PREFETCH_AHEAD_BUDGET, &(64u64 << 20).to_string()),
        (COMET_PREFETCH_MAX_CONCURRENT_REQUESTS, "5"),
        (COMET_PREFETCH_FILTER_AWARE, "false"),
    ]));
    assert!(cfg.enabled);
    assert_eq!(cfg.ahead_budget, 64 << 20);
    assert_eq!(cfg.max_concurrent_requests, 5);
    assert!(!cfg.filter_aware);
}

#[test]
fn max_concurrent_never_zero() {
    let cfg = PrefetchConfig::from_spark(&options(&[(
        COMET_PREFETCH_MAX_CONCURRENT_REQUESTS,
        "0",
    )]));
    assert_eq!(cfg.max_concurrent_requests, 1);
}

#[test]
fn config_ignores_what_does_not_parse() {
    let cfg = PrefetchConfig::from_spark(&options(&[
        (COMET_PREFETCH_ENABLED, "TRUE"),
        (COMET_PREFETCH_AHEAD_BUDGET, "18446744073709551616"),
        (COMET_PREFETCH_MAX_CONCURRENT_REQUESTS, "-1"),
        (COMET_PREFETCH_FILTER_AWARE, "no"),
    ]));
    assert!(!cfg.enabled);
    assert_eq!(cfg.ahead_budget, DEFAULT_AHEAD_BUDGET);
    assert_eq!(cfg.max_concurrent_requests, DEFAULT_MAX_CONCURRENT_REQUESTS);
    assert!(cfg.filter_aware);
    let cfg = PrefetchConfig::from_spark(&options(&[
        (COMET_PREFETCH_AHEAD_BUDGET, "+18446744073709551615"),
    ]));
    assert_eq!(cfg.ahead_budget, u64::MAX);
}
