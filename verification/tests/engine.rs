//! Which store a location asks for, and which engines are shared.

use std::sync::Arc;

use comet_delta::delta::engine::{
    engine_key, EngineCacheState, EngineKey, MAX_CACHE_ENTRIES,
};
use comet_delta::delta::location::TableUrl;
use comet_delta::delta::storage::DeltaStorageConfig;
use comet_delta::delta::store::{
    plan_object_store, region_endpoint, region_from_reply, AzureTarget, DeltaError, RegionCache,
    RegionReply, S3ConfigKey, StorePlan,
};
use object_store::aws::{AmazonS3Builder, AmazonS3ConfigKey};
use object_store::azure::{AzureConfigKey, MicrosoftAzureBuilder};
use object_store::local::LocalFileSystem;
use object_store::ObjectStore;

fn url(s: &str) -> TableUrl {
    TableUrl::parse(s).unwrap()
}

fn empty_config() -> DeltaStorageConfig {
    DeltaStorageConfig::default()
}

/// Builds the store that a plan describes.
fn create_object_store(
    url: &TableUrl,
    config: &DeltaStorageConfig,
) -> Result<Arc<dyn ObjectStore>, DeltaError> {
    let plan = plan_object_store(url, config)?;
    Ok(match plan {
        StorePlan::Local => Arc::new(LocalFileSystem::new()),
        StorePlan::S3 { bucket, settings, probe_region } => {
            assert!(!probe_region, "the region has to be given here");
            let mut b = AmazonS3Builder::new().with_bucket_name(bucket);
            for (k, v) in settings {
                b = b.with_config(k.name().parse::<AmazonS3ConfigKey>().unwrap(), v);
            }
            Arc::new(b.build().unwrap())
        }
        StorePlan::Azure { target, settings } => {
            let mut b = MicrosoftAzureBuilder::from_env();
            match target {
                AzureTarget::Account { account, container } => {
                    b = b.with_account(account);
                    if let Some(c) = container {
                        b = b.with_container_name(c);
                    }
                }
                AzureTarget::Url(u) => b = b.with_url(u),
            }
            for (k, v) in settings {
                b = b.with_config(k.name().parse::<AzureConfigKey>().unwrap(), v);
            }
            Arc::new(b.build().unwrap())
        }
        StorePlan::Gcs { url, settings } => {
            let u = url::Url::parse(&url).unwrap();
            let (store, _) = if settings.is_empty() {
                object_store::parse_url(&u).unwrap()
            } else {
                object_store::parse_url_opts(&u, settings).unwrap()
            };
            Arc::from(store)
        }
    })
}

#[test]
fn create_object_store_local_file() {
    let store = create_object_store(&url("file:///tmp/x"), &empty_config()).unwrap();
    assert!(format!("{store:?}").contains("LocalFileSystem"));
}

#[test]
fn create_object_store_empty_scheme_is_local() {
    let mut u = url("file:///x");
    u.scheme = String::new();
    let store = create_object_store(&u, &empty_config()).unwrap();
    assert!(format!("{store:?}").contains("LocalFileSystem"));
}

#[test]
fn create_object_store_s3_requires_bucket() {
    let bad = url("s3:///just-a-path");
    let err = create_object_store(&bad, &empty_config()).unwrap_err();
    match err {
        DeltaError::MissingBucket { .. } => {}
        other => panic!("expected MissingBucket, got {other:?}"),
    }
}

#[test]
fn create_object_store_s3_builds_with_full_creds() {
    let cfg = DeltaStorageConfig {
        aws_access_key: Some("AKIA…".into()),
        aws_secret_key: Some("secret".into()),
        aws_session_token: Some("token".into()),
        aws_region: Some("us-west-2".into()),
        aws_endpoint: Some("https://s3.example.com".into()),
        aws_force_path_style: true,
        ..Default::default()
    };
    let store = create_object_store(&url("s3://my-bucket/path"), &cfg).unwrap();
    assert!(format!("{store:?}").contains("AmazonS3") || format!("{store:?}").contains("S3"));
}

#[test]
fn create_object_store_s3_http_endpoint_allows_http() {
    let cfg = DeltaStorageConfig {
        aws_access_key: Some("k".into()),
        aws_secret_key: Some("s".into()),
        aws_endpoint: Some("http://localhost:9000".into()),
        aws_force_path_style: true,
        ..Default::default()
    };
    create_object_store(&url("s3://minio-bucket"), &cfg).unwrap();
}

#[test]
fn create_object_store_azure_ambient_fallback() {
    let u = url("abfss://container@myacct.dfs.core.windows.net/path");
    create_object_store(&u, &empty_config()).expect("azure store builds from env + url");
}

#[test]
fn create_object_store_wasb_builds() {
    let u = url("wasbs://container@myacct.blob.core.windows.net/path");
    let store = create_object_store(&u, &empty_config()).expect("wasb store builds");
    let dbg = format!("{store:?}").to_lowercase();
    assert!(dbg.contains("azure") || dbg.contains("microsoft"), "got: {dbg}");
}

#[test]
fn create_object_store_gcs_alias_scheme_builds() {
    create_object_store(&url("gcs://my-bucket/path"), &empty_config())
        .expect("gcs:// alias builds via scheme rewrite");
}

#[test]
fn create_object_store_s3_requester_pays_builds() {
    let cfg = DeltaStorageConfig {
        aws_access_key: Some("k".into()),
        aws_secret_key: Some("s".into()),
        aws_region: Some("us-east-1".into()),
        aws_requester_pays: true,
        ..Default::default()
    };
    create_object_store(&url("s3://rp-bucket/p"), &cfg).expect("requester-pays store builds");
}

#[test]
fn create_object_store_gcs_via_parse_url() {
    create_object_store(&url("gs://my-bucket/path"), &empty_config())
        .expect("gcs store builds via parse_url");
}

#[test]
fn create_object_store_azure_with_explicit_key() {
    let cfg = DeltaStorageConfig {
        azure_account_name: Some("myacct".to_string()),
        azure_account_key: Some("dGVzdGtleQ==".to_string()),
        ..Default::default()
    };
    let u = url("abfss://container@myacct.dfs.core.windows.net/path");
    let store = create_object_store(&u, &cfg).expect("azure store builds with explicit key");
    let dbg = format!("{store:?}").to_lowercase();
    assert!(dbg.contains("azure") || dbg.contains("microsoft"), "got: {dbg}");
}

#[test]
fn create_object_store_azure_oauth_client_creds_builds() {
    let cfg = DeltaStorageConfig {
        azure_client_id: Some("client".to_string()),
        azure_client_secret: Some("secret".to_string()),
        azure_tenant_id: Some("tenant".to_string()),
        ..Default::default()
    };
    let u = url("abfss://container@myacct.dfs.core.windows.net/path");
    create_object_store(&u, &cfg).expect("azure store builds with oauth client creds");
}

#[test]
fn create_object_store_wasb_requires_authority() {
    let bad = url("wasbs:///just/a/path");
    let err = create_object_store(&bad, &empty_config()).unwrap_err();
    match err {
        DeltaError::MissingBucket { .. } => {}
        other => panic!("expected MissingBucket, got {other:?}"),
    }
}

#[test]
fn create_object_store_unsupported_scheme() {
    let err = create_object_store(&url("ftp://host/p"), &empty_config()).unwrap_err();
    match err {
        DeltaError::UnsupportedScheme { scheme, .. } => assert_eq!(scheme, "ftp"),
        other => panic!("expected UnsupportedScheme, got {other:?}"),
    }
}

#[test]
fn s3_plan_lists_its_settings() {
    let cfg = DeltaStorageConfig {
        aws_access_key: Some("k".into()),
        aws_region: Some("r".into()),
        aws_force_path_style: true,
        aws_requester_pays: true,
        ..Default::default()
    };
    match plan_object_store(&url("s3a://b/p"), &cfg).unwrap() {
        StorePlan::S3 { bucket, settings, probe_region } => {
            assert_eq!(bucket, "b");
            assert!(!probe_region);
            let want = vec![
                (S3ConfigKey::AllowHttp, "true".to_string()),
                (S3ConfigKey::AccessKeyId, "k".to_string()),
                (S3ConfigKey::Region, "r".to_string()),
                (S3ConfigKey::VirtualHostedStyleRequest, "false".to_string()),
                (S3ConfigKey::RequestPayer, "true".to_string()),
            ];
            assert_eq!(settings, want);
        }
        other => panic!("expected an S3 plan, got {other:?}"),
    }
}

#[test]
fn region_is_probed_only_without_endpoint_and_region() {
    let probes = |cfg: &DeltaStorageConfig| match plan_object_store(&url("s3://b/p"), cfg).unwrap() {
        StorePlan::S3 { probe_region, .. } => probe_region,
        other => panic!("expected an S3 plan, got {other:?}"),
    };
    assert!(probes(&empty_config()));
    assert!(!probes(&DeltaStorageConfig { aws_region: Some("r".into()), ..Default::default() }));
    assert!(!probes(&DeltaStorageConfig { aws_endpoint: Some("e".into()), ..Default::default() }));
}

#[test]
fn gcs_alias_is_rewritten() {
    match plan_object_store(&url("gcs://my-bucket/path"), &empty_config()).unwrap() {
        StorePlan::Gcs { url, settings } => {
            assert_eq!(url, "gs://my-bucket/path");
            assert!(settings.is_empty());
        }
        other => panic!("expected a Google Cloud plan, got {other:?}"),
    }
    let mut broken = url("gcs://my-bucket/path");
    broken.href = "no url".to_string();
    match plan_object_store(&broken, &empty_config()).unwrap_err() {
        DeltaError::Internal(m) => assert_eq!(m, "cannot rewrite gcs:// scheme for no url"),
        other => panic!("expected Internal, got {other:?}"),
    }
}

#[test]
fn wasb_names_account_and_container() {
    match plan_object_store(
        &url("wasb://data@acct.blob.core.windows.net/t"),
        &empty_config(),
    )
    .unwrap()
    {
        StorePlan::Azure { target: AzureTarget::Account { account, container }, settings } => {
            assert_eq!(account, "acct");
            assert_eq!(container.as_deref(), Some("data"));
            assert!(settings.is_empty());
        }
        other => panic!("expected an Azure plan, got {other:?}"),
    }
    match plan_object_store(&url("wasb://acct.blob.core.windows.net/t"), &empty_config()).unwrap() {
        StorePlan::Azure { target: AzureTarget::Account { container, .. }, .. } => {
            assert_eq!(container, None)
        }
        other => panic!("expected an Azure plan, got {other:?}"),
    }
}

#[test]
fn s3_setting_names_are_those_of_object_stores() {
    let pairs = [
        (S3ConfigKey::AccessKeyId, AmazonS3ConfigKey::AccessKeyId),
        (S3ConfigKey::SecretAccessKey, AmazonS3ConfigKey::SecretAccessKey),
        (S3ConfigKey::Token, AmazonS3ConfigKey::Token),
        (S3ConfigKey::Region, AmazonS3ConfigKey::Region),
        (S3ConfigKey::Endpoint, AmazonS3ConfigKey::Endpoint),
        (S3ConfigKey::VirtualHostedStyleRequest, AmazonS3ConfigKey::VirtualHostedStyleRequest),
        (S3ConfigKey::RequestPayer, AmazonS3ConfigKey::RequestPayer),
        (S3ConfigKey::AllowHttp, AmazonS3ConfigKey::Client(object_store::ClientConfigKey::AllowHttp)),
    ];
    for (ours, theirs) in pairs {
        assert_eq!(ours.name(), theirs.as_ref());
    }
}

#[test]
fn region_replies() {
    assert_eq!(region_endpoint("b"), "https://b.s3.amazonaws.com");
    let why = |r: RegionReply| match region_from_reply("b", r).unwrap_err() {
        DeltaError::Internal(m) => m,
        other => panic!("expected Internal, got {other:?}"),
    };
    assert_eq!(
        why(RegionReply::NotFound),
        "failed to resolve S3 bucket region: Bucket not found: b"
    );
    assert_eq!(
        why(RegionReply::NoRegion),
        "failed to resolve S3 bucket region: Missing region for bucket: b"
    );
    assert_eq!(
        why(RegionReply::Unreadable("bad".into())),
        "failed to resolve S3 bucket region: x-amz-bucket-region for b: bad"
    );
    assert_eq!(
        why(RegionReply::Failed("down".into())),
        "failed to resolve S3 bucket region: HeadBucket https://b.s3.amazonaws.com: down"
    );
    assert_eq!(
        why(RegionReply::NoRuntime("none".into())),
        "failed to resolve S3 bucket region: tokio runtime for region probe: none"
    );
    assert_eq!(region_from_reply("b", RegionReply::Region("eu-1".into())).unwrap(), "eu-1");
}

#[test]
fn resolved_regions_are_remembered() {
    let mut c = RegionCache::new();
    assert_eq!(c.lookup("b"), None);
    assert!(c.resolve("b", RegionReply::NotFound).is_err());
    assert_eq!(c.lookup("b"), None);
    assert_eq!(c.resolve("b", RegionReply::Region("r".into())).unwrap(), "r");
    assert_eq!(c.lookup("b"), Some("r".to_string()));
    assert_eq!(c.lookup("other"), None);
}

#[test]
fn engine_key_collapses_local_paths() {
    let cfg = empty_config();
    let a = engine_key(&url("file:///tmp/a"), &cfg);
    let b = engine_key(&url("file:///tmp/b/c/d"), &cfg);
    assert!(a == b, "all local file:// URLs share one engine entry");
    assert!(a.same_as(&b));
}

#[test]
fn engine_key_distinguishes_s3_buckets() {
    let cfg = empty_config();
    let a = engine_key(&url("s3://bucket-a/path"), &cfg);
    let b = engine_key(&url("s3://bucket-b/path"), &cfg);
    assert!(a != b);
    assert!(!a.same_as(&b));
}

#[test]
fn engine_key_distinguishes_azure_containers() {
    let cfg = empty_config();
    let a = engine_key(&url("abfss://data@acct.dfs.core.windows.net/t1"), &cfg);
    let b = engine_key(&url("abfss://logs@acct.dfs.core.windows.net/t2"), &cfg);
    assert!(a != b, "different containers must not share a cached engine");
    assert_eq!(a.authority, "data@acct.dfs.core.windows.net");
}

#[test]
fn engine_key_includes_port() {
    let cfg = empty_config();
    let a = engine_key(&url("s3://host:9000/p"), &cfg);
    let b = engine_key(&url("s3://host:9001/p"), &cfg);
    let c = engine_key(&url("s3://host/p"), &cfg);
    assert!(a != b);
    assert!(a != c);
    assert!(b != c);
    assert_eq!(a.authority, "host:9000");
}

#[test]
fn engine_key_distinguishes_credentials() {
    let cfg_a = DeltaStorageConfig { aws_access_key: Some("AKIA1".into()), ..Default::default() };
    let cfg_b = DeltaStorageConfig { aws_access_key: Some("AKIA2".into()), ..Default::default() };
    let a = engine_key(&url("s3://bucket/p"), &cfg_a);
    let b = engine_key(&url("s3://bucket/p"), &cfg_b);
    assert!(a != b, "different credentials must NOT share a cached engine");
}

#[test]
fn engine_key_path_does_not_affect_key() {
    let cfg = empty_config();
    let a = engine_key(&url("s3://bucket/path/a"), &cfg);
    let b = engine_key(&url("s3://bucket/path/b/c"), &cfg);
    assert!(a == b, "paths within the same bucket share one engine");
}

/// An engine for a location, built on first use.
fn get_or_create_engine(
    cache: &mut EngineCacheState<Arc<String>>,
    u: &TableUrl,
    cfg: &DeltaStorageConfig,
) -> Arc<String> {
    let key: EngineKey = engine_key(u, cfg);
    if !cache.request(&key) {
        let engine = Arc::new(format!("{:?}", plan_object_store(u, cfg).unwrap()));
        cache.insert(engine_key(u, cfg), Arc::clone(&engine));
    }
    Arc::clone(cache.get(&key).unwrap())
}

#[test]
fn get_or_create_engine_returns_same_arc_on_hit() {
    let mut cache = EngineCacheState::new();
    let cfg = empty_config();
    let u = url("file:///tmp/cache-test");
    let e1 = get_or_create_engine(&mut cache, &u, &cfg);
    let e2 = get_or_create_engine(&mut cache, &u, &cfg);
    assert!(Arc::ptr_eq(&e1, &e2), "second call must return the cached Arc, not a fresh engine");
    assert_eq!(cache.len(), 1);
}

#[test]
fn get_or_create_engine_distinct_keys_yield_distinct_engines() {
    let mut cache = EngineCacheState::new();
    let cfg = empty_config();
    let e_file = get_or_create_engine(&mut cache, &url("file:///tmp/distinct-a"), &cfg);
    let cfg_b = DeltaStorageConfig { aws_access_key: Some("dummy".into()), ..Default::default() };
    let e_creds = get_or_create_engine(&mut cache, &url("file:///tmp/distinct-a"), &cfg_b);
    assert!(!Arc::ptr_eq(&e_file, &e_creds), "differing config keys must yield distinct engines");
}

#[test]
fn get_or_create_engine_evicts_lru_when_full() {
    let mut cache = EngineCacheState::new();
    let with_key = |k: &str| DeltaStorageConfig {
        aws_access_key: Some(k.to_string()),
        ..Default::default()
    };
    let urls_and_engines: Vec<(String, Arc<String>)> = (0..MAX_CACHE_ENTRIES)
        .map(|i| {
            let cfg = with_key(&format!("key-{i}"));
            let eng = get_or_create_engine(&mut cache, &url(&format!("file:///tmp/lru-{i}")), &cfg);
            (format!("key-{i}"), eng)
        })
        .collect();
    assert_eq!(cache.len(), MAX_CACHE_ENTRIES, "cache should be at capacity after filling it");

    let cfg_1 = with_key(&urls_and_engines[1].0);
    let hit_1 = get_or_create_engine(&mut cache, &url("file:///tmp/lru-1"), &cfg_1);
    assert!(Arc::ptr_eq(&hit_1, &urls_and_engines[1].1));

    let cfg_new = with_key("key-new");
    let _new = get_or_create_engine(&mut cache, &url("file:///tmp/lru-new"), &cfg_new);
    assert_eq!(cache.len(), MAX_CACHE_ENTRIES, "cache size should stay at capacity after eviction");

    let cfg_0 = with_key(&urls_and_engines[0].0);
    let fresh_0 = get_or_create_engine(&mut cache, &url("file:///tmp/lru-0"), &cfg_0);
    assert!(
        !Arc::ptr_eq(&urls_and_engines[0].1, &fresh_0),
        "key-0 was LRU and should have been evicted -> fresh engine on re-insert"
    );
    // What was used since stays.
    let again_1 = get_or_create_engine(&mut cache, &url("file:///tmp/lru-1"), &cfg_1);
    assert!(Arc::ptr_eq(&again_1, &urls_and_engines[1].1));
}

#[test]
fn room_is_made_before_an_engine_is_built() {
    let mut cache: EngineCacheState<u32> = EngineCacheState::new();
    let key = |i: usize| {
        let cfg = DeltaStorageConfig {
            aws_access_key: Some(format!("{i}")),
            ..Default::default()
        };
        engine_key(&url("file:///t"), &cfg)
    };
    for i in 0..MAX_CACHE_ENTRIES {
        assert!(!cache.request(&key(i)));
        cache.insert(key(i), i as u32);
    }
    // The request alone drops the least recently used one, whether or not an engine follows.
    assert!(!cache.request(&key(99)));
    assert_eq!(cache.len(), MAX_CACHE_ENTRIES - 1);
    assert!(cache.get(&key(0)).is_none());
    assert_eq!(cache.get(&key(1)), Some(&1));
    cache.clear();
    assert_eq!(cache.len(), 0);
}

#[test]
fn an_engine_in_use_stays() {
    let with_key = |i: usize| DeltaStorageConfig {
        aws_access_key: Some(format!("{i}")),
        ..Default::default()
    };
    let u = url("file:///tmp/run");
    for (others, stays) in [(MAX_CACHE_ENTRIES - 1, true), (MAX_CACHE_ENTRIES, false)] {
        let mut cache = EngineCacheState::new();
        let mine = get_or_create_engine(&mut cache, &u, &with_key(0));
        // Each of the others is called for more than once.
        for _ in 0..2 {
            for i in 1..=others {
                get_or_create_engine(&mut cache, &u, &with_key(i));
            }
        }
        let again = get_or_create_engine(&mut cache, &u, &with_key(0));
        assert_eq!(Arc::ptr_eq(&mine, &again), stays);
    }
}

#[test]
fn engines_are_told_apart_by_place_and_credentials() {
    let c = empty_config();
    let places = [
        "s3://b/x",
        "s3a://b/x",
        "s3://b:80/x",
        "s3://u@b/x",
        "s3://u@b:80/x",
        "s3://[::1]/x",
        "s3://[::1]:80/x",
        "s3:///x",
    ];
    for (i, a) in places.iter().enumerate() {
        for (j, b) in places.iter().enumerate() {
            let same = engine_key(&url(a), &c) == engine_key(&url(b), &c);
            assert_eq!(same, i == j, "{a} and {b}");
        }
        let elsewhere = format!("{}/y?q=1", a);
        assert!(engine_key(&url(a), &c) == engine_key(&url(&elsewhere), &c));
    }
    // What a user name holds is escaped, so that it is never taken for a host.
    let u = url("s3://u@v@b/x");
    assert_eq!((u.username.as_str(), u.host.as_deref()), ("u%40v", Some("b")));
}
