//! Which object store a table's location asks for, and with which settings.

use vstd::prelude::*;

use crate::delta::location::{parse_with_scheme, text, url_set_scheme, TableUrl, UrlParts};
use crate::delta::storage::{
    first_label, gcs_settings, is_label_of, label_of, names_account_endpoint, names_container,
    push_setting, setting, setting_views, the_first_label_ends_at_the_first_dot, AzureConfigKey,
    DeltaStorageConfig, StorageState,
};
use crate::options::OptionsMap;
use crate::text::{concat2, concat3, str_eq};

verus! {

/// Why a table cannot be opened.
#[derive(Debug)]
pub enum DeltaError {
    /// The location names no bucket or account.
    MissingBucket { url: String },
    /// No store serves the location's scheme.
    UnsupportedScheme { scheme: String, url: String },
    /// Anything else.
    Internal(String),
}

/// A setting of an S3 store.
#[derive(Clone, Copy, Debug, PartialEq, Eq, Structural)]
pub enum S3ConfigKey {
    AllowHttp,
    AccessKeyId,
    SecretAccessKey,
    Token,
    Region,
    Endpoint,
    VirtualHostedStyleRequest,
    RequestPayer,
}

/// What object stores call a setting of an S3 store.
pub open spec fn s3_key_name(key: S3ConfigKey) -> Seq<char> {
    match key {
        S3ConfigKey::AllowHttp => "allow_http"@,
        S3ConfigKey::AccessKeyId => "aws_access_key_id"@,
        S3ConfigKey::SecretAccessKey => "aws_secret_access_key"@,
        S3ConfigKey::Token => "aws_session_token"@,
        S3ConfigKey::Region => "aws_region"@,
        S3ConfigKey::Endpoint => "aws_endpoint"@,
        S3ConfigKey::VirtualHostedStyleRequest => "aws_virtual_hosted_style_request"@,
        S3ConfigKey::RequestPayer => "aws_request_payer"@,
    }
}

impl S3ConfigKey {
    /// What object stores call the setting.
    pub fn name(&self) -> (s: &'static str)
        ensures
            s@ == s3_key_name(*self),
    {
        match self {
            S3ConfigKey::AllowHttp => "allow_http",
            S3ConfigKey::AccessKeyId => "aws_access_key_id",
            S3ConfigKey::SecretAccessKey => "aws_secret_access_key",
            S3ConfigKey::Token => "aws_session_token",
            S3ConfigKey::Region => "aws_region",
            S3ConfigKey::Endpoint => "aws_endpoint",
            S3ConfigKey::VirtualHostedStyleRequest => "aws_virtual_hosted_style_request",
            S3ConfigKey::RequestPayer => "aws_request_payer",
        }
    }
}

/// What names an Azure store.
#[derive(Debug)]
pub enum AzureTarget {
    /// An account, and a container where one is named.
    Account { account: String, container: Option<String> },
    /// A URL that the store reads both from.
    Url(String),
}

/// The store that a location asks for.
#[derive(Debug)]
pub enum StorePlan {
    /// An S3 store. Where `probe_region` is set, the bucket's region has to be
    /// asked for first, and becomes a setting.
    S3 { bucket: String, settings: Vec<(S3ConfigKey, String)>, probe_region: bool },
    /// An Azure store. The settings come on top of the environment's.
    Azure { target: AzureTarget, settings: Vec<(AzureConfigKey, String)> },
    /// A Google Cloud store.
    Gcs { url: String, settings: Vec<(&'static str, String)> },
    /// The local file system.
    Local,
}

/// What names an Azure store, as mathematical values.
pub enum AzureTargetState {
    Account { account: Seq<char>, container: Option<Seq<char>> },
    Url(Seq<char>),
}

/// The store that a location asks for, as mathematical values.
pub enum StorePlanState {
    S3 { bucket: Seq<char>, settings: Seq<(S3ConfigKey, Seq<char>)>, probe_region: bool },
    Azure { target: AzureTargetState, settings: Seq<(AzureConfigKey, Seq<char>)> },
    Gcs { url: Seq<char>, settings: Seq<(Seq<char>, Seq<char>)> },
    Local,
}

/// Why a table cannot be opened, as mathematical values.
pub enum DeltaErrorState {
    MissingBucket { url: Seq<char> },
    UnsupportedScheme { scheme: Seq<char>, url: Seq<char> },
    Internal(Seq<char>),
}

impl View for AzureTarget {
    type V = AzureTargetState;

    open spec fn view(&self) -> AzureTargetState {
        match *self {
            AzureTarget::Account { account, container } => AzureTargetState::Account {
                account: account@,
                container: text(container),
            },
            AzureTarget::Url(u) => AzureTargetState::Url(u@),
        }
    }
}

/// Named settings as mathematical values.
pub open spec fn named_views(v: Seq<(&'static str, String)>) -> Seq<(Seq<char>, Seq<char>)> {
    Seq::new(v.len(), |i: int| (v[i].0@, v[i].1@))
}

impl View for StorePlan {
    type V = StorePlanState;

    open spec fn view(&self) -> StorePlanState {
        match *self {
            StorePlan::S3 { bucket, settings, probe_region } => StorePlanState::S3 {
                bucket: bucket@,
                settings: setting_views(settings@),
                probe_region,
            },
            StorePlan::Azure { target, settings } => StorePlanState::Azure {
                target: target@,
                settings: setting_views(settings@),
            },
            StorePlan::Gcs { url, settings } => StorePlanState::Gcs {
                url: url@,
                settings: named_views(settings@),
            },
            StorePlan::Local => StorePlanState::Local,
        }
    }
}

impl View for DeltaError {
    type V = DeltaErrorState;

    open spec fn view(&self) -> DeltaErrorState {
        match *self {
            DeltaError::MissingBucket { url } => DeltaErrorState::MissingBucket { url: url@ },
            DeltaError::UnsupportedScheme { scheme, url } => DeltaErrorState::UnsupportedScheme {
                scheme: scheme@,
                url: url@,
            },
            DeltaError::Internal(m) => DeltaErrorState::Internal(m@),
        }
    }
}

/// The outcome of a plan as mathematical values.
pub open spec fn plan_view(r: Result<StorePlan, DeltaError>) -> Result<
    StorePlanState,
    DeltaErrorState,
> {
    match r {
        Ok(p) => Ok(p@),
        Err(e) => Err(e@),
    }
}

/// The settings of an S3 store, in order.
pub open spec fn s3_settings(c: StorageState) -> Seq<(S3ConfigKey, Seq<char>)> {
    seq![(S3ConfigKey::AllowHttp, "true"@)] + setting(S3ConfigKey::AccessKeyId, c.aws_access_key)
        + setting(S3ConfigKey::SecretAccessKey, c.aws_secret_key) + setting(
        S3ConfigKey::Token,
        c.aws_session_token,
    ) + setting(S3ConfigKey::Region, c.aws_region) + setting(S3ConfigKey::Endpoint, c.aws_endpoint)
        + setting(
        S3ConfigKey::VirtualHostedStyleRequest,
        if c.aws_force_path_style {
            Some("false"@)
        } else {
            None
        },
    ) + setting(
        S3ConfigKey::RequestPayer,
        if c.aws_requester_pays {
            Some("true"@)
        } else {
            None
        },
    )
}

/// The scheme of an S3 location.
pub open spec fn names_s3(scheme: Seq<char>) -> bool {
    scheme == "s3"@ || scheme == "s3a"@
}

/// The scheme of a location whose account and container are taken from the
/// authority by hand.
pub open spec fn names_wasb(scheme: Seq<char>) -> bool {
    scheme == "wasb"@ || scheme == "wasbs"@
}

/// The store that a location asks for.
pub open spec fn store_plan(u: UrlParts, c: StorageState) -> Result<
    StorePlanState,
    DeltaErrorState,
> {
    let (href, scheme, username, host, port, path) = u;
    if names_s3(scheme) {
        match host {
            None => Err(DeltaErrorState::MissingBucket { url: href }),
            Some(bucket) => Ok(
                StorePlanState::S3 {
                    bucket,
                    settings: s3_settings(c),
                    probe_region: c.aws_endpoint is None && c.aws_region is None,
                },
            ),
        }
    } else if names_wasb(scheme) {
        match host {
            None => Err(DeltaErrorState::MissingBucket { url: href }),
            Some(h) => Ok(
                StorePlanState::Azure {
                    target: AzureTargetState::Account {
                        account: first_label(h),
                        container: if username.len() > 0 {
                            Some(username)
                        } else {
                            None
                        },
                    },
                    settings: c.azure_settings(),
                },
            ),
        }
    } else if names_account_endpoint(scheme) || names_container(scheme) {
        Ok(
            StorePlanState::Azure {
                target: AzureTargetState::Url(href),
                settings: c.azure_settings(),
            },
        )
    } else if scheme == "gs"@ {
        Ok(StorePlanState::Gcs { url: href, settings: gcs_settings(c) })
    } else if scheme == "gcs"@ {
        match url_set_scheme(href, "gs"@) {
            Some(url) => Ok(StorePlanState::Gcs { url, settings: gcs_settings(c) }),
            None => Err(
                DeltaErrorState::Internal("cannot rewrite gcs:// scheme for "@ + href),
            ),
        }
    } else if scheme == "file"@ || scheme.len() == 0 {
        Ok(StorePlanState::Local)
    } else {
        Err(DeltaErrorState::UnsupportedScheme { scheme, url: href })
    }
}

fn s3_options(config: &DeltaStorageConfig) -> (o: Vec<(S3ConfigKey, String)>)
    ensures
        setting_views(o@) == s3_settings(config@),
{
    let mut o: Vec<(S3ConfigKey, String)> = Vec::new();
    // Endpoints of local S3 servers are plain HTTP.
    o.push((S3ConfigKey::AllowHttp, "true".to_owned()));
    assert(setting_views(o@) =~= seq![(S3ConfigKey::AllowHttp, "true"@)]);
    push_setting(&mut o, S3ConfigKey::AccessKeyId, &config.aws_access_key);
    push_setting(&mut o, S3ConfigKey::SecretAccessKey, &config.aws_secret_key);
    push_setting(&mut o, S3ConfigKey::Token, &config.aws_session_token);
    push_setting(&mut o, S3ConfigKey::Region, &config.aws_region);
    push_setting(&mut o, S3ConfigKey::Endpoint, &config.aws_endpoint);
    let style: Option<String> = if config.aws_force_path_style {
        Some("false".to_owned())
    } else {
        None
    };
    push_setting(&mut o, S3ConfigKey::VirtualHostedStyleRequest, &style);
    let payer: Option<String> = if config.aws_requester_pays {
        Some("true".to_owned())
    } else {
        None
    };
    push_setting(&mut o, S3ConfigKey::RequestPayer, &payer);
    o
}

fn gcs_plan(url: String, config: &DeltaStorageConfig) -> (p: StorePlan)
    ensures
        p@ == (StorePlanState::Gcs { url: url@, settings: gcs_settings(config@) }),
{
    let settings: Vec<(&'static str, String)> = config.gcs_object_store_options();
    assert(named_views(settings@) =~= gcs_settings(config@));
    StorePlan::Gcs { url, settings }
}

/// The store that a table's location asks for, with its settings, or why there
/// is none.
///
/// An S3 store is built from the credentials alone. Where they give neither an
/// endpoint nor a region, the bucket's region has to be asked for: a store with
/// the wrong one is redirected on every request. An Azure store starts from the
/// environment. A Google Cloud store is addressed as `gs`.
pub fn plan_object_store(url: &TableUrl, config: &DeltaStorageConfig) -> (r: Result<
    StorePlan,
    DeltaError,
>)
    ensures
        plan_view(r) == store_plan(url.parts(), config@),
{
    let scheme: &str = url.scheme.as_str();
    if str_eq(scheme, "s3") || str_eq(scheme, "s3a") {
        match &url.host {
            None => Err(DeltaError::MissingBucket { url: url.href.clone() }),
            Some(bucket) => Ok(
                StorePlan::S3 {
                    bucket: bucket.clone(),
                    settings: s3_options(config),
                    probe_region: config.aws_endpoint.is_none() && config.aws_region.is_none(),
                },
            ),
        }
    } else if str_eq(scheme, "wasb") || str_eq(scheme, "wasbs") {
        match &url.host {
            None => Err(DeltaError::MissingBucket { url: url.href.clone() }),
            Some(h) => {
                let container: Option<String> = if url.username.as_str().is_empty() {
                    None
                } else {
                    Some(url.username.clone())
                };
                Ok(
                    StorePlan::Azure {
                        target: AzureTarget::Account { account: label_of(h.as_str()), container },
                        settings: config.azure_object_store_options(),
                    },
                )
            },
        }
    } else if str_eq(scheme, "abfs") || str_eq(scheme, "abfss") || str_eq(scheme, "az") || str_eq(
        scheme,
        "azure",
    ) {
        Ok(
            StorePlan::Azure {
                target: AzureTarget::Url(url.href.clone()),
                settings: config.azure_object_store_options(),
            },
        )
    } else if str_eq(scheme, "gs") {
        Ok(gcs_plan(url.href.clone(), config))
    } else if str_eq(scheme, "gcs") {
        match parse_with_scheme(url.href.as_str(), "gs") {
            Some(gs) => Ok(gcs_plan(gs, config)),
            None => Err(
                DeltaError::Internal(
                    concat2("cannot rewrite gcs:// scheme for ", url.href.as_str()),
                ),
            ),
        }
    } else if str_eq(scheme, "file") || scheme.is_empty() {
        Ok(StorePlan::Local)
    } else {
        Err(
            DeltaError::UnsupportedScheme {
                scheme: url.scheme.clone(),
                url: url.href.clone(),
            },
        )
    }
}

/// What asking for a bucket's region brought.
#[derive(Debug)]
pub enum RegionReply {
    /// There was nothing to run the request on.
    NoRuntime(String),
    /// The request failed.
    Failed(String),
    /// There is no such bucket.
    NotFound,
    /// The response names no region.
    NoRegion,
    /// The region in the response is no text.
    Unreadable(String),
    /// The region.
    Region(String),
}

/// The address that a bucket's region is asked at.
pub open spec fn probe_endpoint(bucket: Seq<char>) -> Seq<char> {
    "https://"@ + bucket + ".s3.amazonaws.com"@
}

/// The address that a bucket's region is asked at.
pub fn region_endpoint(bucket: &str) -> (s: String)
    ensures
        s@ == probe_endpoint(bucket@),
{
    concat3("https://", bucket, ".s3.amazonaws.com")
}

/// What a reply says of a bucket's region.
pub open spec fn region_outcome(bucket: Seq<char>, reply: RegionReply) -> Result<
    Seq<char>,
    Seq<char>,
> {
    match reply {
        RegionReply::Region(r) => Ok(r@),
        RegionReply::NoRuntime(e) => Err("tokio runtime for region probe: "@ + e@),
        RegionReply::Failed(e) => Err("HeadBucket "@ + probe_endpoint(bucket) + ": "@ + e@),
        RegionReply::NotFound => Err("Bucket not found: "@ + bucket),
        RegionReply::NoRegion => Err("Missing region for bucket: "@ + bucket),
        RegionReply::Unreadable(e) => Err("x-amz-bucket-region for "@ + bucket + ": "@ + e@),
    }
}

/// The region that a reply names.
pub fn region_from_reply(bucket: &str, reply: RegionReply) -> (r: Result<String, DeltaError>)
    ensures
        match r {
            Ok(region) => region_outcome(bucket@, reply) == Ok::<Seq<char>, Seq<char>>(region@),
            Err(e) => region_outcome(bucket@, reply) matches Err(why) && e@
                == DeltaErrorState::Internal("failed to resolve S3 bucket region: "@ + why),
        },
{
    let why: String = match reply {
        RegionReply::Region(region) => {
            return Ok(region);
        },
        RegionReply::NoRuntime(e) => concat2("tokio runtime for region probe: ", e.as_str()),
        RegionReply::Failed(e) => {
            let endpoint: String = region_endpoint(bucket);
            concat3("HeadBucket ", endpoint.as_str(), ": ").concat(e.as_str())
        },
        RegionReply::NotFound => concat2("Bucket not found: ", bucket),
        RegionReply::NoRegion => concat2("Missing region for bucket: ", bucket),
        RegionReply::Unreadable(e) => concat3("x-amz-bucket-region for ", bucket, ": ").concat(
            e.as_str(),
        ),
    };
    Err(DeltaError::Internal(concat2("failed to resolve S3 bucket region: ", why.as_str())))
}

/// The regions of buckets that are known. A bucket's region never changes, so
/// nothing is ever dropped.
pub struct RegionCache {
    pub regions: OptionsMap,
}

impl RegionCache {
    /// No region is known.
    pub fn new() -> (c: RegionCache)
        ensures
            c.regions@ == Map::<Seq<char>, Seq<char>>::empty(),
    {
        RegionCache { regions: OptionsMap::new() }
    }

    /// The region of a bucket, where it is known.
    pub fn lookup(&self, bucket: &str) -> (r: Option<String>)
        ensures
            text(r) == (if self.regions@.contains_key(bucket@) {
                Some(self.regions@[bucket@])
            } else {
                None
            }),
    {
        match self.regions.get(bucket) {
            Some(v) => Some(v.clone()),
            None => None,
        }
    }

    /// Takes in a reply: a region is remembered, a failure is not.
    pub fn resolve(&mut self, bucket: &str, reply: RegionReply) -> (r: Result<String, DeltaError>)
        ensures
            match r {
                Ok(region) => region_outcome(bucket@, reply) == Ok::<Seq<char>, Seq<char>>(region@)
                    && final(self).regions@ == old(self).regions@.insert(bucket@, region@),
                Err(e) => region_outcome(bucket@, reply) matches Err(why) && e@
                    == DeltaErrorState::Internal("failed to resolve S3 bucket region: "@ + why)
                    && final(self).regions@ == old(self).regions@,
            },
    {
        match region_from_reply(bucket, reply) {
            Ok(region) => {
                self.regions.insert(bucket.to_owned(), region.clone());
                Ok(region)
            },
            Err(e) => Err(e),
        }
    }
}

/// The settings give a key a value.
pub open spec fn gives<K>(settings: Seq<(K, String)>, key: K, value: Seq<char>) -> bool {
    exists|i: int|
        0 <= i < settings.len() && (#[trigger] settings[i]).0 == key && settings[i].1@ == value
}

/// The settings give a key the value that there is, and no other; none where there is none.
pub open spec fn gives_exactly<K>(settings: Seq<(K, String)>, key: K, value: Option<String>) -> bool {
    forall|x: Seq<char>| #[trigger]
        gives(settings, key, x) <==> (value matches Some(v) && v@ == x)
}

proof fn lemma_gives<K>(settings: Seq<(K, String)>, key: K, x: Seq<char>)
    ensures
        gives(settings, key, x) <==> setting_views(settings).contains((key, x)),
{
    let views = setting_views(settings);
    if gives(settings, key, x) {
        let i = choose|i: int|
            0 <= i < settings.len() && (#[trigger] settings[i]).0 == key && settings[i].1@ == x;
        assert(views[i] == (key, x));
    }
    if views.contains((key, x)) {
        let i = choose|i: int| 0 <= i < views.len() && views[i] == (key, x);
        assert(settings[i].0 == key && settings[i].1@ == x);
    }
}

proof fn lemma_setting_contains<K>(key: K, value: Option<Seq<char>>, k: K, x: Seq<char>)
    ensures
        setting(key, value).contains((k, x)) <==> key == k && value == Some(x),
{
    let s = setting(key, value);
    if value is Some {
        assert(s[0] == (key, value->0));
    }
}

proof fn lemma_concat_contains<T>(a: Seq<T>, b: Seq<T>, x: T)
    ensures
        (a + b).contains(x) <==> a.contains(x) || b.contains(x),
{
    let s = a + b;
    if a.contains(x) {
        let i = choose|i: int| 0 <= i < a.len() && a[i] == x;
        assert(s[i] == x);
    }
    if b.contains(x) {
        let i = choose|i: int| 0 <= i < b.len() && b[i] == x;
        assert(s[a.len() + i] == x);
    }
    if s.contains(x) {
        let i = choose|i: int| 0 <= i < s.len() && s[i] == x;
        if i < a.len() {
            assert(a[i] == x);
        } else {
            assert(b[i - a.len()] == x);
        }
    }
}

/// A setting behind others.
proof fn lemma_setting_behind<K>(
    s: Seq<(K, Seq<char>)>,
    key: K,
    value: Option<Seq<char>>,
    k: K,
    x: Seq<char>,
)
    ensures
        (s + setting(key, value)).contains((k, x)) <==> s.contains((k, x)) || (key == k && value
            == Some(x)),
{
    lemma_concat_contains(s, setting(key, value), (k, x));
    lemma_setting_contains(key, value, k, x);
}

proof fn lemma_s3_setting(c: StorageState, k: S3ConfigKey, x: Seq<char>)
    ensures
        s3_settings(c).contains((k, x)) <==> match k {
            S3ConfigKey::AllowHttp => x == "true"@,
            S3ConfigKey::AccessKeyId => c.aws_access_key == Some(x),
            S3ConfigKey::SecretAccessKey => c.aws_secret_key == Some(x),
            S3ConfigKey::Token => c.aws_session_token == Some(x),
            S3ConfigKey::Region => c.aws_region == Some(x),
            S3ConfigKey::Endpoint => c.aws_endpoint == Some(x),
            S3ConfigKey::VirtualHostedStyleRequest => c.aws_force_path_style && x == "false"@,
            S3ConfigKey::RequestPayer => c.aws_requester_pays && x == "true"@,
        },
{
    let s0 = seq![(S3ConfigKey::AllowHttp, "true"@)];
    assert(s0.contains((k, x)) <==> k == S3ConfigKey::AllowHttp && x == "true"@) by {
        assert(s0[0] == (S3ConfigKey::AllowHttp, "true"@));
    }
    let s1 = s0 + setting(S3ConfigKey::AccessKeyId, c.aws_access_key);
    let s2 = s1 + setting(S3ConfigKey::SecretAccessKey, c.aws_secret_key);
    let s3 = s2 + setting(S3ConfigKey::Token, c.aws_session_token);
    let s4 = s3 + setting(S3ConfigKey::Region, c.aws_region);
    let s5 = s4 + setting(S3ConfigKey::Endpoint, c.aws_endpoint);
    let style = if c.aws_force_path_style {
        Some("false"@)
    } else {
        None
    };
    let s6 = s5 + setting(S3ConfigKey::VirtualHostedStyleRequest, style);
    let payer = if c.aws_requester_pays {
        Some("true"@)
    } else {
        None
    };
    lemma_setting_behind(s0, S3ConfigKey::AccessKeyId, c.aws_access_key, k, x);
    lemma_setting_behind(s1, S3ConfigKey::SecretAccessKey, c.aws_secret_key, k, x);
    lemma_setting_behind(s2, S3ConfigKey::Token, c.aws_session_token, k, x);
    lemma_setting_behind(s3, S3ConfigKey::Region, c.aws_region, k, x);
    lemma_setting_behind(s4, S3ConfigKey::Endpoint, c.aws_endpoint, k, x);
    lemma_setting_behind(s5, S3ConfigKey::VirtualHostedStyleRequest, style, k, x);
    lemma_setting_behind(s6, S3ConfigKey::RequestPayer, payer, k, x);
}

/// An S3 location is served from its bucket, with every credential that is set under the
/// key of that credential and with none that is not. Its region is asked for exactly where
/// neither an endpoint nor a region is set.
pub proof fn s3_credentials_reach_the_store(
    url: TableUrl,
    config: DeltaStorageConfig,
    r: Result<StorePlan, DeltaError>,
)
    requires
        plan_view(r) == store_plan(url.parts(), config@),
        url.scheme@ == "s3"@ || url.scheme@ == "s3a"@,
    ensures
        url.host is None ==> (r matches Err(DeltaError::MissingBucket { url: u }) && u@
            == url.href@),
        url.host matches Some(host) ==> (r matches Ok(
            StorePlan::S3 { bucket, settings, probe_region },
        ) && {
            &&& bucket@ == host@
            &&& gives_exactly(settings@, S3ConfigKey::AccessKeyId, config.aws_access_key)
            &&& gives_exactly(settings@, S3ConfigKey::SecretAccessKey, config.aws_secret_key)
            &&& gives_exactly(settings@, S3ConfigKey::Token, config.aws_session_token)
            &&& gives_exactly(settings@, S3ConfigKey::Region, config.aws_region)
            &&& gives_exactly(settings@, S3ConfigKey::Endpoint, config.aws_endpoint)
            &&& forall|x: Seq<char>| #[trigger]
                gives(settings@, S3ConfigKey::AllowHttp, x) <==> x == "true"@
            &&& forall|x: Seq<char>| #[trigger]
                gives(settings@, S3ConfigKey::VirtualHostedStyleRequest, x) <==> (
                config.aws_force_path_style && x == "false"@)
            &&& forall|x: Seq<char>| #[trigger]
                gives(settings@, S3ConfigKey::RequestPayer, x) <==> (config.aws_requester_pays && x
                    == "true"@)
            &&& probe_region <==> config.aws_endpoint is None && config.aws_region is None
        }),
{
    if let Ok(StorePlan::S3 { bucket, settings, probe_region }) = r {
        assert(setting_views(settings@) == s3_settings(config@));
        assert forall|k: S3ConfigKey, x: Seq<char>| #[trigger]
            gives(settings@, k, x) <==> s3_settings(config@).contains((k, x)) by {
            lemma_gives(settings@, k, x);
        }
        assert forall|k: S3ConfigKey, x: Seq<char>| #[trigger] gives(settings@, k, x) <==> match k {
            S3ConfigKey::AllowHttp => x == "true"@,
            S3ConfigKey::AccessKeyId => text(config.aws_access_key) == Some(x),
            S3ConfigKey::SecretAccessKey => text(config.aws_secret_key) == Some(x),
            S3ConfigKey::Token => text(config.aws_session_token) == Some(x),
            S3ConfigKey::Region => text(config.aws_region) == Some(x),
            S3ConfigKey::Endpoint => text(config.aws_endpoint) == Some(x),
            S3ConfigKey::VirtualHostedStyleRequest => config.aws_force_path_style && x
                == "false"@,
            S3ConfigKey::RequestPayer => config.aws_requester_pays && x == "true"@,
        } by {
            lemma_s3_setting(config@, k, x);
        }
    }
}

proof fn lemma_azure_setting(c: StorageState, k: AzureConfigKey, x: Seq<char>)
    ensures
        c.azure_settings().contains((k, x)) <==> match k {
            AzureConfigKey::AccountName => c.azure_account_name == Some(x),
            AzureConfigKey::AccessKey => c.azure_account_key == Some(x),
            AzureConfigKey::SasKey => c.azure_sas_token == Some(x),
            AzureConfigKey::ClientId => c.azure_client_id == Some(x),
            AzureConfigKey::ClientSecret => c.azure_client_secret == Some(x),
            AzureConfigKey::AuthorityId => c.azure_tenant_id == Some(x),
            AzureConfigKey::MsiEndpoint => c.azure_msi_endpoint == Some(x),
            AzureConfigKey::AuthorityHost => c.azure_authority_host == Some(x),
            AzureConfigKey::FederatedTokenFile => c.azure_federated_token_file == Some(x),
        },
{
    let s1 = setting(AzureConfigKey::AccountName, c.azure_account_name);
    let s2 = s1 + setting(AzureConfigKey::AccessKey, c.azure_account_key);
    let s3 = s2 + setting(AzureConfigKey::SasKey, c.azure_sas_token);
    let s4 = s3 + setting(AzureConfigKey::ClientId, c.azure_client_id);
    let s5 = s4 + setting(AzureConfigKey::ClientSecret, c.azure_client_secret);
    let s6 = s5 + setting(AzureConfigKey::AuthorityId, c.azure_tenant_id);
    let s7 = s6 + setting(AzureConfigKey::MsiEndpoint, c.azure_msi_endpoint);
    let s8 = s7 + setting(AzureConfigKey::AuthorityHost, c.azure_authority_host);
    lemma_setting_contains(AzureConfigKey::AccountName, c.azure_account_name, k, x);
    lemma_setting_behind(s1, AzureConfigKey::AccessKey, c.azure_account_key, k, x);
    lemma_setting_behind(s2, AzureConfigKey::SasKey, c.azure_sas_token, k, x);
    lemma_setting_behind(s3, AzureConfigKey::ClientId, c.azure_client_id, k, x);
    lemma_setting_behind(s4, AzureConfigKey::ClientSecret, c.azure_client_secret, k, x);
    lemma_setting_behind(s5, AzureConfigKey::AuthorityId, c.azure_tenant_id, k, x);
    lemma_setting_behind(s6, AzureConfigKey::MsiEndpoint, c.azure_msi_endpoint, k, x);
    lemma_setting_behind(s7, AzureConfigKey::AuthorityHost, c.azure_authority_host, k, x);
    lemma_setting_behind(
        s8,
        AzureConfigKey::FederatedTokenFile,
        c.azure_federated_token_file,
        k,
        x,
    );
}

/// Every Azure credential that is set is handed on under the key of that credential, and
/// none that is not.
pub proof fn azure_credentials_are_handed_on(
    config: DeltaStorageConfig,
    settings: Seq<(AzureConfigKey, String)>,
)
    requires
        setting_views(settings) == config@.azure_settings(),
    ensures
        gives_exactly(settings, AzureConfigKey::AccountName, config.azure_account_name),
        gives_exactly(settings, AzureConfigKey::AccessKey, config.azure_account_key),
        gives_exactly(settings, AzureConfigKey::SasKey, config.azure_sas_token),
        gives_exactly(settings, AzureConfigKey::ClientId, config.azure_client_id),
        gives_exactly(settings, AzureConfigKey::ClientSecret, config.azure_client_secret),
        gives_exactly(settings, AzureConfigKey::AuthorityId, config.azure_tenant_id),
        gives_exactly(settings, AzureConfigKey::MsiEndpoint, config.azure_msi_endpoint),
        gives_exactly(settings, AzureConfigKey::AuthorityHost, config.azure_authority_host),
        gives_exactly(
            settings,
            AzureConfigKey::FederatedTokenFile,
            config.azure_federated_token_file,
        ),
{
    assert forall|k: AzureConfigKey, x: Seq<char>| #[trigger] gives(settings, k, x) <==> match k {
        AzureConfigKey::AccountName => text(config.azure_account_name) == Some(x),
        AzureConfigKey::AccessKey => text(config.azure_account_key) == Some(x),
        AzureConfigKey::SasKey => text(config.azure_sas_token) == Some(x),
        AzureConfigKey::ClientId => text(config.azure_client_id) == Some(x),
        AzureConfigKey::ClientSecret => text(config.azure_client_secret) == Some(x),
        AzureConfigKey::AuthorityId => text(config.azure_tenant_id) == Some(x),
        AzureConfigKey::MsiEndpoint => text(config.azure_msi_endpoint) == Some(x),
        AzureConfigKey::AuthorityHost => text(config.azure_authority_host) == Some(x),
        AzureConfigKey::FederatedTokenFile => text(config.azure_federated_token_file) == Some(x),
    } by {
        lemma_gives(settings, k, x);
        lemma_azure_setting(config@, k, x);
    }
}

/// An Azure location is served by an Azure store with every credential that is set. Where
/// its scheme is one of the old ones, the store is that of the account that the host starts
/// with, and its container is the user name, where there is one; otherwise the store reads
/// both from the location.
pub proof fn azure_locations_are_served_by_azure(
    url: TableUrl,
    config: DeltaStorageConfig,
    r: Result<StorePlan, DeltaError>,
)
    requires
        plan_view(r) == store_plan(url.parts(), config@),
    ensures
        url.scheme@ == "wasb"@ || url.scheme@ == "wasbs"@ ==> match url.host {
            None => r matches Err(DeltaError::MissingBucket { url: u }) && u@ == url.href@,
            Some(host) => r matches Ok(
                StorePlan::Azure { target: AzureTarget::Account { account, container }, settings },
            ) && is_label_of(account@, host@) && setting_views(settings@)
                == config@.azure_settings() && (url.username@.len() == 0 ==> container is None) && (
            url.username@.len() > 0 ==> (container matches Some(c) && c@ == url.username@)),
        },
        url.scheme@ == "abfs"@ || url.scheme@ == "abfss"@ || url.scheme@ == "az"@ || url.scheme@
            == "azure"@ ==> (r matches Ok(
            StorePlan::Azure { target: AzureTarget::Url(u), settings },
        ) && u@ == url.href@ && setting_views(settings@) == config@.azure_settings()),
{
    lemma_schemes_differ();
    if let Some(host) = url.host {
        the_first_label_ends_at_the_first_dot(host@, host@);
    }
}

/// The schemes that name a store are all different.
proof fn lemma_schemes_differ()
    ensures
        !names_s3("wasb"@) && !names_s3("wasbs"@) && !names_s3("abfs"@) && !names_s3("abfss"@)
            && !names_s3("az"@) && !names_s3("azure"@) && !names_s3("gs"@) && !names_s3("gcs"@)
            && !names_s3("file"@) && !names_s3(Seq::<char>::empty()),
        !names_wasb("abfs"@) && !names_wasb("abfss"@) && !names_wasb("az"@) && !names_wasb(
            "azure"@,
        ) && !names_wasb("gs"@) && !names_wasb("gcs"@) && !names_wasb("file"@) && !names_wasb(
            Seq::<char>::empty(),
        ),
        !names_account_endpoint("gs"@) && !names_account_endpoint("gcs"@)
            && !names_account_endpoint("file"@) && !names_account_endpoint(Seq::<char>::empty()),
        !names_container("gs"@) && !names_container("gcs"@) && !names_container("file"@)
            && !names_container(Seq::<char>::empty()),
        "gs"@ != "gcs"@ && "gs"@ != "file"@ && "gcs"@ != "file"@ && "gs"@.len() > 0
            && "gcs"@.len() > 0,
{
    reveal_strlit("s3");
    reveal_strlit("s3a");
    reveal_strlit("wasb");
    reveal_strlit("wasbs");
    reveal_strlit("abfs");
    reveal_strlit("abfss");
    reveal_strlit("az");
    reveal_strlit("azure");
    reveal_strlit("gs");
    reveal_strlit("gcs");
    reveal_strlit("file");
    assert("s3"@[0] == 's' && "s3a"@[0] == 's' && "wasb"@[0] == 'w' && "wasbs"@[0] == 'w'
        && "abfs"@[0] == 'a' && "abfss"@[0] == 'a' && "az"@[0] == 'a' && "azure"@[0] == 'a'
        && "gs"@[0] == 'g' && "gcs"@[0] == 'g' && "file"@[0] == 'f');
    assert("s3"@.len() > 0 && "s3a"@.len() > 0 && "wasb"@.len() > 0 && "wasbs"@.len() > 0
        && "abfs"@.len() > 0 && "abfss"@.len() > 0 && "az"@.len() > 0 && "azure"@.len() > 0);
}

/// The settings hold every Google Cloud credential that is set under its name, and nothing
/// else.
pub open spec fn gives_gcs(settings: Seq<(&'static str, String)>, c: DeltaStorageConfig) -> bool {
    &&& forall|i: int|
        0 <= i < settings.len() ==> ({
            ||| (#[trigger] settings[i]).0@ == "google_service_account"@ && (
            c.gcs_service_account_path matches Some(v) && v@ == settings[i].1@)
            ||| settings[i].0@ == "google_service_account_key"@ && (
            c.gcs_service_account_key matches Some(v) && v@ == settings[i].1@)
        })
    &&& c.gcs_service_account_path matches Some(v) ==> exists|i: int|
        0 <= i < settings.len() && (#[trigger] settings[i]).0@ == "google_service_account"@
            && settings[i].1@ == v@
    &&& c.gcs_service_account_key matches Some(v) ==> exists|i: int|
        0 <= i < settings.len() && (#[trigger] settings[i]).0@ == "google_service_account_key"@
            && settings[i].1@ == v@
}

/// A Google Cloud location is served by a Google Cloud store under the scheme `gs`, with
/// every credential that is set.
pub proof fn google_locations_are_served_by_google(
    url: TableUrl,
    config: DeltaStorageConfig,
    r: Result<StorePlan, DeltaError>,
)
    requires
        plan_view(r) == store_plan(url.parts(), config@),
    ensures
        url.scheme@ == "gs"@ ==> (r matches Ok(StorePlan::Gcs { url: u, settings }) && u@
            == url.href@ && gives_gcs(settings@, config)),
        url.scheme@ == "gcs"@ ==> match url_set_scheme(url.href@, "gs"@) {
            Some(gs) => r matches Ok(StorePlan::Gcs { url: u, settings }) && u@ == gs && gives_gcs(
                settings@,
                config,
            ),
            None => r is Err,
        },
{
    lemma_schemes_differ();
    if let Ok(StorePlan::Gcs { url: u, settings }) = r {
        let views = named_views(settings@);
        assert(views == gcs_settings(config@));
        assert forall|i: int| 0 <= i < settings@.len() implies (#[trigger] settings@[i]).0@
            == views[i].0 && settings@[i].1@ == views[i].1 by {}
        if config.gcs_service_account_path is Some {
            assert(settings@[0].0@ == "google_service_account"@);
        }
        if config.gcs_service_account_key is Some {
            let n = settings@.len() - 1;
            assert(settings@[n].0@ == "google_service_account_key"@);
        }
    }
}

/// A local location is served by the local file system, and a location of any other scheme
/// by nothing.
pub proof fn other_locations_are_local_or_refused(
    url: TableUrl,
    config: DeltaStorageConfig,
    r: Result<StorePlan, DeltaError>,
)
    requires
        plan_view(r) == store_plan(url.parts(), config@),
    ensures
        url.scheme@ == "file"@ || url.scheme@.len() == 0 ==> r matches Ok(StorePlan::Local),
        r matches Ok(StorePlan::Local) ==> url.scheme@ == "file"@ || url.scheme@.len() == 0,
        r matches Ok(StorePlan::S3 { .. }) ==> url.scheme@ == "s3"@ || url.scheme@ == "s3a"@,
        r matches Ok(StorePlan::Gcs { .. }) ==> url.scheme@ == "gs"@ || url.scheme@ == "gcs"@,
        r matches Ok(StorePlan::Azure { .. }) ==> url.scheme@ == "wasb"@ || url.scheme@ == "wasbs"@
            || url.scheme@ == "abfs"@ || url.scheme@ == "abfss"@ || url.scheme@ == "az"@
            || url.scheme@ == "azure"@,
        r matches Err(DeltaError::UnsupportedScheme { scheme, url: u }) ==> scheme@ == url.scheme@
            && u@ == url.href@,
        r matches Err(DeltaError::MissingBucket { url: u }) ==> u@ == url.href@ && url.host is None,
{
    lemma_schemes_differ();
    if url.scheme@.len() == 0 {
        assert(url.scheme@ =~= Seq::<char>::empty());
    }
}

/// A bucket's region is the one that the reply names; every other reply is an error.
pub proof fn only_a_named_region_is_taken(bucket: Seq<char>, reply: RegionReply)
    ensures
        reply matches RegionReply::Region(region) ==> region_outcome(bucket, reply) == Ok::<
            Seq<char>,
            Seq<char>,
        >(region@),
        !(reply is Region) ==> region_outcome(bucket, reply) is Err,
{
}

/// A bucket's region is asked for over TLS, at the host of Amazon's that has the bucket's name.
pub proof fn a_region_is_asked_at_the_buckets_host(bucket: Seq<char>)
    ensures
        ({
            let s = probe_endpoint(bucket);
            &&& "https://"@.is_prefix_of(s)
            &&& ".s3.amazonaws.com"@.is_suffix_of(s)
            &&& s.len() == bucket.len() + 8 + 17
            &&& s.subrange(8, 8int + bucket.len()) == bucket
        }),
{
    reveal_strlit("https://");
    reveal_strlit(".s3.amazonaws.com");
    let s = probe_endpoint(bucket);
    assert(s.subrange(0, 8) =~= "https://"@);
    assert(s.subrange(s.len() - 17, s.len() as int) =~= ".s3.amazonaws.com"@);
    assert(s.subrange(8, 8int + bucket.len()) =~= bucket);
}

/// The name is that of the setting.
pub open spec fn names_s3_key(name: Seq<char>, key: S3ConfigKey) -> bool {
    ||| name == "allow_http"@ && key == S3ConfigKey::AllowHttp
    ||| name == "aws_access_key_id"@ && key == S3ConfigKey::AccessKeyId
    ||| name == "aws_secret_access_key"@ && key == S3ConfigKey::SecretAccessKey
    ||| name == "aws_session_token"@ && key == S3ConfigKey::Token
    ||| name == "aws_region"@ && key == S3ConfigKey::Region
    ||| name == "aws_endpoint"@ && key == S3ConfigKey::Endpoint
    ||| name == "aws_virtual_hosted_style_request"@ && key
        == S3ConfigKey::VirtualHostedStyleRequest
    ||| name == "aws_request_payer"@ && key == S3ConfigKey::RequestPayer
}

/// Every setting of an S3 store is found by its name again, and by no other's.
pub proof fn s3_settings_have_names_of_their_own(key: S3ConfigKey, other: S3ConfigKey)
    ensures
        names_s3_key(s3_key_name(key), key),
        names_s3_key(s3_key_name(key), other) ==> key == other,
        s3_key_name(key) == s3_key_name(other) ==> key == other,
{
    reveal_strlit("allow_http");
    reveal_strlit("aws_access_key_id");
    reveal_strlit("aws_secret_access_key");
    reveal_strlit("aws_session_token");
    reveal_strlit("aws_region");
    reveal_strlit("aws_endpoint");
    reveal_strlit("aws_virtual_hosted_style_request");
    reveal_strlit("aws_request_payer");
    assert("allow_http"@.len() == 10);
    assert("aws_access_key_id"@.len() == 17);
    assert("aws_secret_access_key"@.len() == 21);
    assert("aws_session_token"@.len() == 17);
    assert("aws_region"@.len() == 10);
    assert("aws_endpoint"@.len() == 12);
    assert("aws_virtual_hosted_style_request"@.len() == 32);
    assert("aws_request_payer"@.len() == 17);
    assert("allow_http"@[1] == 'l' && "aws_region"@[1] == 'w');
    assert("aws_access_key_id"@[4] == 'a' && "aws_session_token"@[4] == 's'
        && "aws_request_payer"@[4] == 'r');
}

} // verus!
