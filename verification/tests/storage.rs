//! Which credentials the options of a session give for a table's location.

use comet_delta::delta::location::TableUrl;
use comet_delta::delta::request::{given_text, request_config};
use comet_delta::delta::storage::{
    azure_tenant_from_oauth_endpoint, delta_storage_config_from_map, single_azure_account_in_map,
    tenant_from_path, AzureConfigKey, DeltaStorageConfig,
};
use comet_delta::options::OptionsMap;
use object_store::azure::AzureConfigKey as StoreKey;

fn turl(s: &str) -> TableUrl {
    TableUrl::parse(s).unwrap()
}

fn opts(pairs: &[(&str, &str)]) -> OptionsMap {
    let mut m = OptionsMap::new();
    for (k, v) in pairs {
        m.insert(k.to_string(), v.to_string());
    }
    m
}

#[test]
fn extract_storage_config_matrix() {
    // Hadoop-style S3A keys.
    let hadoop_s3 = opts(&[
        ("fs.s3a.access.key", "AK"),
        ("fs.s3a.secret.key", "SK"),
        ("fs.s3a.session.token", "TOK"),
        ("fs.s3a.endpoint.region", "us-west-2"),
        ("fs.s3a.endpoint", "https://s3.example"),
        ("fs.s3a.path.style.access", "true"),
    ]);
    let cfg = delta_storage_config_from_map(&hadoop_s3, None);
    assert_eq!(cfg.aws_access_key.as_deref(), Some("AK"));
    // With a location whose bucket has no options of its own, the general ones apply.
    let cfg = delta_storage_config_from_map(&hadoop_s3, Some(&turl("s3://any-bucket/t")));
    assert_eq!(cfg.aws_access_key.as_deref(), Some("AK"));
    assert_eq!(cfg.aws_secret_key.as_deref(), Some("SK"));
    assert_eq!(cfg.aws_session_token.as_deref(), Some("TOK"));
    assert_eq!(cfg.aws_region.as_deref(), Some("us-west-2"));
    assert_eq!(cfg.aws_endpoint.as_deref(), Some("https://s3.example"));
    assert!(cfg.aws_force_path_style);

    // An option under its own name wins where both forms are there.
    let both = opts(&[
        ("aws_access_key_id", "KERNEL_AK"),
        ("fs.s3a.access.key", "HADOOP_AK"),
        ("aws_secret_access_key", "KERNEL_SK"),
        ("fs.s3a.secret.key", "HADOOP_SK"),
    ]);
    let cfg = delta_storage_config_from_map(&both, Some(&turl("s3://b/t")));
    assert_eq!(cfg.aws_access_key.as_deref(), Some("KERNEL_AK"));
    assert_eq!(cfg.aws_secret_key.as_deref(), Some("KERNEL_SK"));

    // `fs.s3a.region` is the last resort for the region.
    let region_fallback = opts(&[("fs.s3a.region", "eu-central-1")]);
    let cfg = delta_storage_config_from_map(&region_fallback, None);
    assert_eq!(cfg.aws_region.as_deref(), Some("eu-central-1"));

    // A bucket's own option wins over the general one, for that bucket alone.
    let per_bucket = opts(&[
        ("fs.s3a.access.key", "GLOBAL"),
        ("fs.s3a.bucket.my-bucket.access.key", "PERBKT"),
    ]);
    assert_eq!(
        delta_storage_config_from_map(&per_bucket, Some(&turl("s3://my-bucket/t")))
            .aws_access_key
            .as_deref(),
        Some("PERBKT")
    );
    assert_eq!(
        delta_storage_config_from_map(&per_bucket, Some(&turl("s3a://other/t")))
            .aws_access_key
            .as_deref(),
        Some("GLOBAL")
    );
    assert_eq!(
        delta_storage_config_from_map(&per_bucket, None)
            .aws_access_key
            .as_deref(),
        Some("GLOBAL")
    );

    // That holds of every S3 option.
    let per_bucket_all = opts(&[
        ("fs.s3a.secret.key", "SK_GLOBAL"),
        ("fs.s3a.bucket.my-bucket.secret.key", "SK_BKT"),
        ("fs.s3a.session.token", "TOK_GLOBAL"),
        ("fs.s3a.bucket.my-bucket.session.token", "TOK_BKT"),
        ("fs.s3a.endpoint", "https://global.example"),
        ("fs.s3a.bucket.my-bucket.endpoint", "https://bkt.example"),
        ("fs.s3a.endpoint.region", "eu-west-1"),
        ("fs.s3a.bucket.my-bucket.endpoint.region", "us-east-2"),
    ]);
    let cfg = delta_storage_config_from_map(&per_bucket_all, Some(&turl("s3://my-bucket/t")));
    assert_eq!(cfg.aws_secret_key.as_deref(), Some("SK_BKT"));
    assert_eq!(cfg.aws_session_token.as_deref(), Some("TOK_BKT"));
    assert_eq!(cfg.aws_endpoint.as_deref(), Some("https://bkt.example"));
    assert_eq!(cfg.aws_region.as_deref(), Some("us-east-2"));
    let cfg = delta_storage_config_from_map(&per_bucket_all, Some(&turl("s3://other/t")));
    assert_eq!(cfg.aws_secret_key.as_deref(), Some("SK_GLOBAL"));
    assert_eq!(cfg.aws_session_token.as_deref(), Some("TOK_GLOBAL"));
    assert_eq!(cfg.aws_endpoint.as_deref(), Some("https://global.example"));
    assert_eq!(cfg.aws_region.as_deref(), Some("eu-west-1"));

    let kernel_style = opts(&[("aws_force_path_style", "true")]);
    assert!(delta_storage_config_from_map(&kernel_style, None).aws_force_path_style);

    // Without options there is nothing.
    let cfg = delta_storage_config_from_map(&OptionsMap::new(), None);
    assert!(cfg.aws_access_key.is_none());
    assert!(cfg.aws_secret_key.is_none());
    assert!(cfg.aws_session_token.is_none());
    assert!(cfg.aws_region.is_none());
    assert!(cfg.aws_endpoint.is_none());
    assert!(!cfg.aws_force_path_style);
}

#[test]
fn azure_and_gcs_keys_do_not_leak_into_s3_config() {
    let m = opts(&[
        ("fs.azure.account.key.myacct.dfs.core.windows.net", "HADOOP_AZKEY"),
        ("fs.azure.account.oauth2.client.id", "CLIENT"),
        ("fs.gs.auth.service.account.json.keyfile", "/tmp/key.json"),
    ]);
    let cfg = delta_storage_config_from_map(&m, None);
    assert!(cfg.aws_access_key.is_none());
    assert!(cfg.aws_secret_key.is_none());
    assert!(cfg.aws_endpoint.is_none());
}

#[test]
fn azure_creds_bridged_from_hadoop() {
    let m = opts(&[("fs.azure.account.key.myacct.dfs.core.windows.net", "HADOOP_AZKEY")]);
    let cfg = delta_storage_config_from_map(&m, None);
    assert_eq!(cfg.azure_account_key.as_deref(), Some("HADOOP_AZKEY"));
    assert_eq!(cfg.azure_account_name.as_deref(), Some("myacct"));
    let opts = cfg.azure_object_store_options();
    assert!(
        opts.iter()
            .any(|(k, v)| k.name() == "azure_storage_account_key" && v == "HADOOP_AZKEY"),
        "azure account key must reach the store: {opts:?}"
    );
    assert!(
        opts.iter().any(|(k, _)| k.name() == "azure_storage_account_name"),
        "azure account name must reach the store: {opts:?}"
    );
    assert!(cfg.aws_access_key.is_none());
    assert!(cfg.gcs_service_account_path.is_none());
}

#[test]
fn azure_sas_bridged_from_hadoop() {
    let m = opts(&[("fs.azure.sas.fixed.token", "SAS_TOKEN_VALUE")]);
    let cfg = delta_storage_config_from_map(&m, None);
    assert_eq!(cfg.azure_sas_token.as_deref(), Some("SAS_TOKEN_VALUE"));
    assert!(cfg
        .azure_object_store_options()
        .iter()
        .any(|(k, v)| k.name() == "azure_storage_sas_key" && v == "SAS_TOKEN_VALUE"));
}

#[test]
fn gcs_creds_bridged_from_hadoop() {
    let m = opts(&[("fs.gs.auth.service.account.json.keyfile", "/etc/gcs/key.json")]);
    let cfg = delta_storage_config_from_map(&m, None);
    assert_eq!(cfg.gcs_service_account_path.as_deref(), Some("/etc/gcs/key.json"));
    assert!(cfg
        .gcs_object_store_options()
        .iter()
        .any(|(k, v)| *k == "google_service_account" && v == "/etc/gcs/key.json"));
    assert!(cfg.aws_access_key.is_none());
    assert!(cfg.azure_account_key.is_none());
}

#[test]
fn s3_keys_do_not_leak_into_azure_or_gcs() {
    let m = opts(&[
        ("fs.s3a.access.key", "AK"),
        ("fs.s3a.secret.key", "SK"),
        ("fs.s3a.session.token", "TOK"),
    ]);
    let cfg = delta_storage_config_from_map(&m, Some(&turl("s3://my-bucket/t")));
    assert_eq!(cfg.aws_access_key.as_deref(), Some("AK"));
    assert!(cfg.azure_account_key.is_none());
    assert!(cfg.azure_account_name.is_none());
    assert!(cfg.azure_sas_token.is_none());
    assert!(cfg.gcs_service_account_path.is_none());
    assert!(cfg.gcs_service_account_key.is_none());
    assert!(cfg.azure_object_store_options().is_empty());
    assert!(cfg.gcs_object_store_options().is_empty());
}

#[test]
fn azure_scoped_key_resolves_by_url_account() {
    let m = opts(&[
        ("fs.azure.account.key.acct1.dfs.core.windows.net", "KEY_ONE"),
        ("fs.azure.account.key.acct2.dfs.core.windows.net", "KEY_TWO"),
    ]);
    let u2 = turl("abfss://data@acct2.dfs.core.windows.net/t");
    let cfg = delta_storage_config_from_map(&m, Some(&u2));
    assert_eq!(cfg.azure_account_key.as_deref(), Some("KEY_TWO"));
    assert_eq!(cfg.azure_account_name.as_deref(), Some("acct2"));
    let u1 = turl("abfss://data@acct1.dfs.core.windows.net/t");
    let cfg = delta_storage_config_from_map(&m, Some(&u1));
    assert_eq!(cfg.azure_account_key.as_deref(), Some("KEY_ONE"));
    // Without a location, two accounts are ambiguous.
    let cfg = delta_storage_config_from_map(&m, None);
    assert!(cfg.azure_account_key.is_none());
    assert!(cfg.azure_account_name.is_none());
}

#[test]
fn azure_account_scoped_key_wins_over_global() {
    let m = opts(&[
        ("fs.azure.account.key", "GLOBAL"),
        ("fs.azure.account.key.myacct.dfs.core.windows.net", "SCOPED"),
    ]);
    let u = turl("abfss://data@myacct.dfs.core.windows.net/t");
    assert_eq!(
        delta_storage_config_from_map(&m, Some(&u))
            .azure_account_key
            .as_deref(),
        Some("SCOPED")
    );
    let other = turl("abfss://data@otheracct.dfs.core.windows.net/t");
    assert_eq!(
        delta_storage_config_from_map(&m, Some(&other))
            .azure_account_key
            .as_deref(),
        Some("GLOBAL")
    );
}

#[test]
fn azure_scoped_key_suffix_variants() {
    let u = turl("wasbs://data@myacct.blob.core.windows.net/t");
    let blob = opts(&[("fs.azure.account.key.myacct.blob.core.windows.net", "BLOB_KEY")]);
    assert_eq!(
        delta_storage_config_from_map(&blob, Some(&u))
            .azure_account_key
            .as_deref(),
        Some("BLOB_KEY")
    );
    let bare = opts(&[("fs.azure.account.key.myacct", "BARE_KEY")]);
    assert_eq!(
        delta_storage_config_from_map(&bare, Some(&u))
            .azure_account_key
            .as_deref(),
        Some("BARE_KEY")
    );
}

#[test]
fn azure_single_account_under_two_suffixes_resolves_without_url() {
    let m = opts(&[
        ("fs.azure.account.key.myacct.dfs.core.windows.net", "DFS_KEY"),
        ("fs.azure.account.key.myacct.blob.core.windows.net", "BLOB_KEY"),
    ]);
    let cfg = delta_storage_config_from_map(&m, None);
    assert_eq!(cfg.azure_account_name.as_deref(), Some("myacct"));
    assert_eq!(cfg.azure_account_key.as_deref(), Some("DFS_KEY"));
}

#[test]
fn azure_sas_scoped_by_container_and_account() {
    let m = opts(&[
        ("fs.azure.sas.data.myacct.dfs.core.windows.net", "SCOPED_SAS"),
        ("fs.azure.sas.fixed.token", "FIXED_SAS"),
    ]);
    let u = turl("abfss://data@myacct.dfs.core.windows.net/t");
    assert_eq!(
        delta_storage_config_from_map(&m, Some(&u))
            .azure_sas_token
            .as_deref(),
        Some("SCOPED_SAS")
    );
    let other = turl("abfss://logs@myacct.dfs.core.windows.net/t");
    assert_eq!(
        delta_storage_config_from_map(&m, Some(&other))
            .azure_sas_token
            .as_deref(),
        Some("FIXED_SAS")
    );
}

#[test]
fn azure_oauth_msi_workload_identity_bridged() {
    let mut m = opts(&[
        ("fs.azure.account.oauth2.client.id.myacct.dfs.core.windows.net", "CLIENT_ID"),
        ("fs.azure.account.oauth2.client.secret", "CLIENT_SECRET"),
        (
            "fs.azure.account.oauth2.client.endpoint",
            "https://login.microsoftonline.com/tenant-123/oauth2/token",
        ),
        (
            "fs.azure.account.oauth2.token.file",
            "/var/run/secrets/azure/tokens/azure-identity-token",
        ),
    ]);
    let u = turl("abfss://data@myacct.dfs.core.windows.net/t");
    let cfg = delta_storage_config_from_map(&m, Some(&u));
    assert_eq!(cfg.azure_client_id.as_deref(), Some("CLIENT_ID"));
    assert_eq!(cfg.azure_client_secret.as_deref(), Some("CLIENT_SECRET"));
    assert_eq!(cfg.azure_tenant_id.as_deref(), Some("tenant-123"));
    assert_eq!(
        cfg.azure_federated_token_file.as_deref(),
        Some("/var/run/secrets/azure/tokens/azure-identity-token")
    );
    m.insert(
        "fs.azure.account.oauth2.msi.tenant".to_string(),
        "msi-tenant".to_string(),
    );
    let cfg = delta_storage_config_from_map(&m, Some(&u));
    assert_eq!(cfg.azure_tenant_id.as_deref(), Some("msi-tenant"));
    let opts = cfg.azure_object_store_options();
    assert!(opts
        .iter()
        .any(|(k, v)| k.name() == "azure_storage_client_id" && v == "CLIENT_ID"));
    assert!(opts
        .iter()
        .any(|(k, v)| k.name() == "azure_storage_tenant_id" && v == "msi-tenant"));
}

#[test]
fn debug_redacts_credential_material() {
    let c = DeltaStorageConfig {
        aws_access_key: Some("AKIDEXAMPLE".to_string()),
        aws_secret_key: Some("SUPERSECRETKEYVALUE".to_string()),
        aws_session_token: Some("SESSIONTOKENVALUE".to_string()),
        aws_region: Some("us-west-2".to_string()),
        aws_endpoint: Some("https://s3.example".to_string()),
        aws_force_path_style: true,
        ..Default::default()
    };
    let s = c.debug_string();
    assert!(!s.contains("SUPERSECRETKEYVALUE"), "secret key leaked: {s}");
    assert!(!s.contains("SESSIONTOKENVALUE"), "session token leaked: {s}");
    assert!(!s.contains("AKIDEXAMPLE"), "access key leaked: {s}");
    assert!(s.contains("us-west-2"), "region should be visible: {s}");
    assert!(s.contains("s3.example"), "endpoint should be visible: {s}");
}

#[test]
fn debug_redacts_azure_and_gcs_credential_material() {
    let c = DeltaStorageConfig {
        azure_account_name: Some("myacct".to_string()),
        azure_account_key: Some("AZKEYSECRETVALUE".to_string()),
        azure_sas_token: Some("SASSECRETVALUE".to_string()),
        azure_client_id: Some("client-id-visible".to_string()),
        azure_client_secret: Some("CLIENTSECRETVALUE".to_string()),
        azure_tenant_id: Some("tenant-visible".to_string()),
        azure_msi_endpoint: Some("http://169.254.169.254/msi".to_string()),
        azure_authority_host: Some("https://login.example".to_string()),
        azure_federated_token_file: Some("/var/run/secrets/token".to_string()),
        gcs_service_account_path: Some("/etc/gcs/key.json".to_string()),
        gcs_service_account_key: Some("GCSKEYSECRETVALUE".to_string()),
        ..Default::default()
    };
    let s = c.debug_string();
    assert!(!s.contains("AZKEYSECRETVALUE"), "azure key leaked: {s}");
    assert!(!s.contains("SASSECRETVALUE"), "azure SAS leaked: {s}");
    assert!(!s.contains("CLIENTSECRETVALUE"), "azure client secret leaked: {s}");
    assert!(!s.contains("GCSKEYSECRETVALUE"), "gcs key leaked: {s}");
    for visible in [
        "myacct",
        "client-id-visible",
        "tenant-visible",
        "169.254.169.254",
        "login.example",
        "/var/run/secrets/token",
        "/etc/gcs/key.json",
    ] {
        assert!(s.contains(visible), "{visible} should be visible: {s}");
    }
}

#[test]
fn debug_text_reads_as_a_struct() {
    let c = DeltaStorageConfig {
        aws_secret_key: Some("s".to_string()),
        aws_region: Some("a \"b\"\n".to_string()),
        aws_requester_pays: true,
        ..Default::default()
    };
    assert_eq!(
        c.debug_string(),
        "DeltaStorageConfig { aws_access_key: \"None\", aws_secret_key: \"<set>\", \
         aws_session_token: \"None\", aws_region: Some(\"a \\\"b\\\"\\n\"), aws_endpoint: None, \
         aws_force_path_style: false, aws_requester_pays: true, azure_account_name: None, \
         azure_account_key: \"None\", azure_sas_token: \"None\", azure_client_id: None, \
         azure_client_secret: \"None\", azure_tenant_id: None, azure_msi_endpoint: None, \
         azure_authority_host: None, azure_federated_token_file: None, \
         gcs_service_account_path: None, gcs_service_account_key: \"None\" }"
    );
}

#[test]
fn debug_text_is_the_same_for_other_secrets() {
    let with = |secret: &str| DeltaStorageConfig {
        aws_access_key: Some(secret.to_string()),
        azure_sas_token: Some(secret.to_string()),
        gcs_service_account_key: Some(secret.to_string()),
        aws_region: Some("eu-west-1".to_string()),
        ..Default::default()
    };
    assert_eq!(with("one").debug_string(), with("two").debug_string());
}

#[test]
fn requester_pays_is_read_per_bucket() {
    let m = opts(&[
        ("fs.s3a.requester.pays.enabled", "false"),
        ("fs.s3a.bucket.rp.requester.pays.enabled", "true"),
    ]);
    assert!(delta_storage_config_from_map(&m, Some(&turl("s3://rp/t"))).aws_requester_pays);
    assert!(!delta_storage_config_from_map(&m, Some(&turl("s3://other/t"))).aws_requester_pays);
    // Only `true` is true.
    let m = opts(&[("fs.s3a.requester.pays.enabled", "TRUE")]);
    assert!(!delta_storage_config_from_map(&m, None).aws_requester_pays);
}

#[test]
fn container_without_account_uses_the_single_account() {
    let m = opts(&[
        ("fs.azure.account.key.only.dfs.core.windows.net", "K"),
        ("fs.azure.sas.data.only", "SAS"),
    ]);
    let cfg = delta_storage_config_from_map(&m, Some(&turl("az://data/t")));
    assert_eq!(cfg.azure_account_name.as_deref(), Some("only"));
    assert_eq!(cfg.azure_account_key.as_deref(), Some("K"));
    assert_eq!(cfg.azure_sas_token.as_deref(), Some("SAS"));
}

#[test]
fn single_account_skips_empty_names() {
    assert_eq!(single_azure_account_in_map(&OptionsMap::new()), None);
    let m = opts(&[("fs.azure.account.key.", "x"), ("fs.azure.account.key..dfs", "y")]);
    assert_eq!(single_azure_account_in_map(&m), None);
    let m = opts(&[("fs.azure.account.key.", "x"), ("fs.azure.account.key.a", "y")]);
    assert_eq!(single_azure_account_in_map(&m), Some("a".to_string()));
    let m = opts(&[("fs.azure.account.key.b", "x"), ("fs.azure.account.key.a", "y")]);
    assert_eq!(single_azure_account_in_map(&m), None);
}

#[test]
fn tenant_is_the_first_part_of_the_path() {
    assert_eq!(
        azure_tenant_from_oauth_endpoint("https://login.microsoftonline.com/tenant-123/oauth2/token"),
        Some("tenant-123".to_string())
    );
    assert_eq!(azure_tenant_from_oauth_endpoint("https://login.example/"), None);
    assert_eq!(azure_tenant_from_oauth_endpoint("https://login.example//x"), None);
    assert_eq!(azure_tenant_from_oauth_endpoint("not a url"), None);
    assert_eq!(azure_tenant_from_oauth_endpoint("mailto:someone"), None);
    assert_eq!(tenant_from_path("/t"), Some("t".to_string()));
    assert_eq!(tenant_from_path("t"), None);
    assert_eq!(tenant_from_path(""), None);
}

#[test]
fn setting_names_are_those_of_object_stores() {
    let pairs = [
        (AzureConfigKey::AccountName, StoreKey::AccountName),
        (AzureConfigKey::AccessKey, StoreKey::AccessKey),
        (AzureConfigKey::SasKey, StoreKey::SasKey),
        (AzureConfigKey::ClientId, StoreKey::ClientId),
        (AzureConfigKey::ClientSecret, StoreKey::ClientSecret),
        (AzureConfigKey::AuthorityId, StoreKey::AuthorityId),
        (AzureConfigKey::MsiEndpoint, StoreKey::MsiEndpoint),
        (AzureConfigKey::AuthorityHost, StoreKey::AuthorityHost),
        (AzureConfigKey::FederatedTokenFile, StoreKey::FederatedTokenFile),
    ];
    for (ours, theirs) in pairs {
        assert_eq!(ours.name(), theirs.as_ref());
    }
}

#[test]
fn azure_settings_are_in_order() {
    let c = DeltaStorageConfig {
        azure_account_name: Some("n".into()),
        azure_account_key: Some("k".into()),
        azure_sas_token: Some("s".into()),
        azure_client_id: Some("i".into()),
        azure_client_secret: Some("c".into()),
        azure_tenant_id: Some("t".into()),
        azure_msi_endpoint: Some("m".into()),
        azure_authority_host: Some("h".into()),
        azure_federated_token_file: Some("f".into()),
        ..Default::default()
    };
    let got: Vec<(&str, String)> = c
        .azure_object_store_options()
        .into_iter()
        .map(|(k, v)| (k.name(), v))
        .collect();
    let want: Vec<(&str, String)> = vec![
        ("azure_storage_account_name", "n".into()),
        ("azure_storage_account_key", "k".into()),
        ("azure_storage_sas_key", "s".into()),
        ("azure_storage_client_id", "i".into()),
        ("azure_storage_client_secret", "c".into()),
        ("azure_storage_tenant_id", "t".into()),
        ("azure_msi_endpoint", "m".into()),
        ("azure_storage_authority_host", "h".into()),
        ("azure_federated_token_file", "f".into()),
    ];
    assert_eq!(got, want);
}

#[test]
fn requests_without_options_have_no_credentials() {
    assert!(request_config("s3://b/t", None) == DeltaStorageConfig::default());
    let m = opts(&[("fs.s3a.bucket.b.access.key", "AK")]);
    assert_eq!(
        request_config("s3://b/t", Some(&m)).aws_access_key.as_deref(),
        Some("AK")
    );
    assert!(request_config("/local/table", Some(&m)).aws_access_key.is_none());
    assert_eq!(given_text(Some(String::new())), None);
    assert_eq!(given_text(None), None);
    assert_eq!(given_text(Some("x".to_string())), Some("x".to_string()));
}

#[test]
fn copies_of_credentials_are_the_same() {
    let m = opts(&[("aws_access_key_id", "a"), ("google_service_account_key", "g")]);
    let c = delta_storage_config_from_map(&m, None);
    assert!(c.same_as(&c.duplicate()));
    assert!(!c.same_as(&DeltaStorageConfig::default()));
}
