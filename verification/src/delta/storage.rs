//! Storage credentials of a table: which options of a session apply to the
//! table's location, and how they are handed to an object store.

use vstd::prelude::*;

use crate::delta::location::{text, url_parse, TableUrl, UrlParts};
use crate::options::OptionsMap;
use crate::text::{
    chars_of, concat2, concat3, find_char, index_from, lemma_index_from, str_eq, strip_prefix,
};

verus! {

/// Storage credentials of a table.
#[derive(Clone, PartialEq, Eq, Hash)]
pub struct DeltaStorageConfig {
    pub aws_access_key: Option<String>,
    pub aws_secret_key: Option<String>,
    pub aws_session_token: Option<String>,
    pub aws_region: Option<String>,
    pub aws_endpoint: Option<String>,
    pub aws_force_path_style: bool,
    /// Buckets whose requester pays refuse requests without it.
    pub aws_requester_pays: bool,
    pub azure_account_name: Option<String>,
    pub azure_account_key: Option<String>,
    pub azure_sas_token: Option<String>,
    pub azure_client_id: Option<String>,
    pub azure_client_secret: Option<String>,
    pub azure_tenant_id: Option<String>,
    pub azure_msi_endpoint: Option<String>,
    pub azure_authority_host: Option<String>,
    pub azure_federated_token_file: Option<String>,
    pub gcs_service_account_path: Option<String>,
    pub gcs_service_account_key: Option<String>,
}

/// Storage credentials as mathematical values.
pub struct StorageState {
    pub aws_access_key: Option<Seq<char>>,
    pub aws_secret_key: Option<Seq<char>>,
    pub aws_session_token: Option<Seq<char>>,
    pub aws_region: Option<Seq<char>>,
    pub aws_endpoint: Option<Seq<char>>,
    pub aws_force_path_style: bool,
    pub aws_requester_pays: bool,
    pub azure_account_name: Option<Seq<char>>,
    pub azure_account_key: Option<Seq<char>>,
    pub azure_sas_token: Option<Seq<char>>,
    pub azure_client_id: Option<Seq<char>>,
    pub azure_client_secret: Option<Seq<char>>,
    pub azure_tenant_id: Option<Seq<char>>,
    pub azure_msi_endpoint: Option<Seq<char>>,
    pub azure_authority_host: Option<Seq<char>>,
    pub azure_federated_token_file: Option<Seq<char>>,
    pub gcs_service_account_path: Option<Seq<char>>,
    pub gcs_service_account_key: Option<Seq<char>>,
}

impl View for DeltaStorageConfig {
    type V = StorageState;

    open spec fn view(&self) -> StorageState {
        StorageState {
            aws_access_key: text(self.aws_access_key),
            aws_secret_key: text(self.aws_secret_key),
            aws_session_token: text(self.aws_session_token),
            aws_region: text(self.aws_region),
            aws_endpoint: text(self.aws_endpoint),
            aws_force_path_style: self.aws_force_path_style,
            aws_requester_pays: self.aws_requester_pays,
            azure_account_name: text(self.azure_account_name),
            azure_account_key: text(self.azure_account_key),
            azure_sas_token: text(self.azure_sas_token),
            azure_client_id: text(self.azure_client_id),
            azure_client_secret: text(self.azure_client_secret),
            azure_tenant_id: text(self.azure_tenant_id),
            azure_msi_endpoint: text(self.azure_msi_endpoint),
            azure_authority_host: text(self.azure_authority_host),
            azure_federated_token_file: text(self.azure_federated_token_file),
            gcs_service_account_path: text(self.gcs_service_account_path),
            gcs_service_account_key: text(self.gcs_service_account_key),
        }
    }
}

impl StorageState {
    /// No credentials.
    pub open spec fn empty() -> StorageState {
        StorageState {
            aws_access_key: None,
            aws_secret_key: None,
            aws_session_token: None,
            aws_region: None,
            aws_endpoint: None,
            aws_force_path_style: false,
            aws_requester_pays: false,
            azure_account_name: None,
            azure_account_key: None,
            azure_sas_token: None,
            azure_client_id: None,
            azure_client_secret: None,
            azure_tenant_id: None,
            azure_msi_endpoint: None,
            azure_authority_host: None,
            azure_federated_token_file: None,
            gcs_service_account_path: None,
            gcs_service_account_key: None,
        }
    }
}

impl Default for DeltaStorageConfig {
    fn default() -> (c: DeltaStorageConfig)
        ensures
            c@ == StorageState::empty(),
    {
        DeltaStorageConfig {
            aws_access_key: None,
            aws_secret_key: None,
            aws_session_token: None,
            aws_region: None,
            aws_endpoint: None,
            aws_force_path_style: false,
            aws_requester_pays: false,
            azure_account_name: None,
            azure_account_key: None,
            azure_sas_token: None,
            azure_client_id: None,
            azure_client_secret: None,
            azure_tenant_id: None,
            azure_msi_endpoint: None,
            azure_authority_host: None,
            azure_federated_token_file: None,
            gcs_service_account_path: None,
            gcs_service_account_key: None,
        }
    }
}

/// An independent copy of an optional text.
pub(crate) fn copy_text(o: &Option<String>) -> (r: Option<String>)
    ensures
        r == *o,
{
    match o {
        Some(s) => Some(s.clone()),
        None => None,
    }
}

fn same_opt(a: &Option<String>, b: &Option<String>) -> (r: bool)
    ensures
        r == (text(*a) == text(*b)),
{
    match (a, b) {
        (Some(x), Some(y)) => *x == *y,
        (None, None) => true,
        _ => false,
    }
}

impl DeltaStorageConfig {
    /// An independent copy of the credentials.
    pub fn duplicate(&self) -> (c: DeltaStorageConfig)
        ensures
            c == *self,
    {
        DeltaStorageConfig {
            aws_access_key: copy_text(&self.aws_access_key),
            aws_secret_key: copy_text(&self.aws_secret_key),
            aws_session_token: copy_text(&self.aws_session_token),
            aws_region: copy_text(&self.aws_region),
            aws_endpoint: copy_text(&self.aws_endpoint),
            aws_force_path_style: self.aws_force_path_style,
            aws_requester_pays: self.aws_requester_pays,
            azure_account_name: copy_text(&self.azure_account_name),
            azure_account_key: copy_text(&self.azure_account_key),
            azure_sas_token: copy_text(&self.azure_sas_token),
            azure_client_id: copy_text(&self.azure_client_id),
            azure_client_secret: copy_text(&self.azure_client_secret),
            azure_tenant_id: copy_text(&self.azure_tenant_id),
            azure_msi_endpoint: copy_text(&self.azure_msi_endpoint),
            azure_authority_host: copy_text(&self.azure_authority_host),
            azure_federated_token_file: copy_text(&self.azure_federated_token_file),
            gcs_service_account_path: copy_text(&self.gcs_service_account_path),
            gcs_service_account_key: copy_text(&self.gcs_service_account_key),
        }
    }

    /// Whether the two hold the same credentials.
    pub fn same_as(&self, other: &DeltaStorageConfig) -> (r: bool)
        ensures
            r == (self@ == other@),
    {
        same_opt(&self.aws_access_key, &other.aws_access_key) && same_opt(
            &self.aws_secret_key,
            &other.aws_secret_key,
        ) && same_opt(&self.aws_session_token, &other.aws_session_token) && same_opt(
            &self.aws_region,
            &other.aws_region,
        ) && same_opt(&self.aws_endpoint, &other.aws_endpoint) && self.aws_force_path_style
            == other.aws_force_path_style && self.aws_requester_pays == other.aws_requester_pays
            && same_opt(&self.azure_account_name, &other.azure_account_name) && same_opt(
            &self.azure_account_key,
            &other.azure_account_key,
        ) && same_opt(&self.azure_sas_token, &other.azure_sas_token) && same_opt(
            &self.azure_client_id,
            &other.azure_client_id,
        ) && same_opt(&self.azure_client_secret, &other.azure_client_secret) && same_opt(
            &self.azure_tenant_id,
            &other.azure_tenant_id,
        ) && same_opt(&self.azure_msi_endpoint, &other.azure_msi_endpoint) && same_opt(
            &self.azure_authority_host,
            &other.azure_authority_host,
        ) && same_opt(&self.azure_federated_token_file, &other.azure_federated_token_file)
            && same_opt(&self.gcs_service_account_path, &other.gcs_service_account_path)
            && same_opt(&self.gcs_service_account_key, &other.gcs_service_account_key)
    }
}

/// A setting of an Azure store.
#[derive(Clone, Copy, Debug, PartialEq, Eq, Structural)]
pub enum AzureConfigKey {
    AccountName,
    AccessKey,
    SasKey,
    ClientId,
    ClientSecret,
    AuthorityId,
    MsiEndpoint,
    AuthorityHost,
    FederatedTokenFile,
}

/// What object stores call a setting of an Azure store.
pub open spec fn azure_key_name(key: AzureConfigKey) -> Seq<char> {
    match key {
        AzureConfigKey::AccountName => "azure_storage_account_name"@,
        AzureConfigKey::AccessKey => "azure_storage_account_key"@,
        AzureConfigKey::SasKey => "azure_storage_sas_key"@,
        AzureConfigKey::ClientId => "azure_storage_client_id"@,
        AzureConfigKey::ClientSecret => "azure_storage_client_secret"@,
        AzureConfigKey::AuthorityId => "azure_storage_tenant_id"@,
        AzureConfigKey::MsiEndpoint => "azure_msi_endpoint"@,
        AzureConfigKey::AuthorityHost => "azure_storage_authority_host"@,
        AzureConfigKey::FederatedTokenFile => "azure_federated_token_file"@,
    }
}

impl AzureConfigKey {
    /// What object stores call the setting.
    pub fn name(&self) -> (s: &'static str)
        ensures
            s@ == azure_key_name(*self),
    {
        match self {
            AzureConfigKey::AccountName => "azure_storage_account_name",
            AzureConfigKey::AccessKey => "azure_storage_account_key",
            AzureConfigKey::SasKey => "azure_storage_sas_key",
            AzureConfigKey::ClientId => "azure_storage_client_id",
            AzureConfigKey::ClientSecret => "azure_storage_client_secret",
            AzureConfigKey::AuthorityId => "azure_storage_tenant_id",
            AzureConfigKey::MsiEndpoint => "azure_msi_endpoint",
            AzureConfigKey::AuthorityHost => "azure_storage_authority_host",
            AzureConfigKey::FederatedTokenFile => "azure_federated_token_file",
        }
    }
}

/// Settings with their values, as mathematical values.
pub open spec fn setting_views<K>(v: Seq<(K, String)>) -> Seq<(K, Seq<char>)> {
    Seq::new(v.len(), |i: int| (v[i].0, v[i].1@))
}

/// The setting, where it has a value.
pub open spec fn setting<K>(key: K, value: Option<Seq<char>>) -> Seq<(K, Seq<char>)> {
    match value {
        Some(v) => seq![(key, v)],
        None => Seq::empty(),
    }
}

pub(crate) fn push_setting<K>(o: &mut Vec<(K, String)>, key: K, value: &Option<String>)
    ensures
        setting_views(final(o)@) == setting_views(old(o)@) + setting(key, text(*value)),
{
    let ghost before = o@;
    match value {
        Some(v) => {
            o.push((key, v.clone()));
        },
        None => {},
    }
    assert(setting_views(o@) =~= setting_views(before) + setting(key, text(*value)));
}

impl StorageState {
    /// The settings of an Azure store, in order.
    pub open spec fn azure_settings(self) -> Seq<(AzureConfigKey, Seq<char>)> {
        setting(AzureConfigKey::AccountName, self.azure_account_name) + setting(
            AzureConfigKey::AccessKey,
            self.azure_account_key,
        ) + setting(AzureConfigKey::SasKey, self.azure_sas_token) + setting(
            AzureConfigKey::ClientId,
            self.azure_client_id,
        ) + setting(AzureConfigKey::ClientSecret, self.azure_client_secret) + setting(
            AzureConfigKey::AuthorityId,
            self.azure_tenant_id,
        ) + setting(AzureConfigKey::MsiEndpoint, self.azure_msi_endpoint) + setting(
            AzureConfigKey::AuthorityHost,
            self.azure_authority_host,
        ) + setting(AzureConfigKey::FederatedTokenFile, self.azure_federated_token_file)
    }
}

impl DeltaStorageConfig {
    /// The settings of an Azure store. Empty where nothing is known: the store
    /// then goes by its environment alone.
    pub fn azure_object_store_options(&self) -> (o: Vec<(AzureConfigKey, String)>)
        ensures
            setting_views(o@) == self@.azure_settings(),
    {
        let mut o: Vec<(AzureConfigKey, String)> = Vec::new();
        push_setting(&mut o, AzureConfigKey::AccountName, &self.azure_account_name);
        push_setting(&mut o, AzureConfigKey::AccessKey, &self.azure_account_key);
        push_setting(&mut o, AzureConfigKey::SasKey, &self.azure_sas_token);
        push_setting(&mut o, AzureConfigKey::ClientId, &self.azure_client_id);
        push_setting(&mut o, AzureConfigKey::ClientSecret, &self.azure_client_secret);
        push_setting(&mut o, AzureConfigKey::AuthorityId, &self.azure_tenant_id);
        push_setting(&mut o, AzureConfigKey::MsiEndpoint, &self.azure_msi_endpoint);
        push_setting(&mut o, AzureConfigKey::AuthorityHost, &self.azure_authority_host);
        push_setting(
            &mut o,
            AzureConfigKey::FederatedTokenFile,
            &self.azure_federated_token_file,
        );
        assert(setting_views(o@) =~= self@.azure_settings());
        o
    }

    /// The settings of a Google Cloud store. Empty where nothing is known: the
    /// store then goes by its environment alone.
    pub fn gcs_object_store_options(&self) -> (o: Vec<(&'static str, String)>)
        ensures
            o@.len() == gcs_settings(self@).len(),
            forall|i: int|
                0 <= i < o@.len() ==> (#[trigger] o@[i]).0@ == gcs_settings(self@)[i].0 && o@[i].1@
                    == gcs_settings(self@)[i].1,
    {
        let mut o: Vec<(&'static str, String)> = Vec::new();
        match &self.gcs_service_account_path {
            Some(v) => {
                o.push(("google_service_account", v.clone()));
            },
            None => {},
        }
        match &self.gcs_service_account_key {
            Some(v) => {
                o.push(("google_service_account_key", v.clone()));
            },
            None => {},
        }
        o
    }
}

/// The settings of a Google Cloud store, in order.
pub open spec fn gcs_settings(c: StorageState) -> Seq<(Seq<char>, Seq<char>)> {
    setting("google_service_account"@, c.gcs_service_account_path) + setting(
        "google_service_account_key"@,
        c.gcs_service_account_key,
    )
}

/// The value of an option.
pub open spec fn option_of(m: Map<Seq<char>, Seq<char>>, name: Seq<char>) -> Option<Seq<char>> {
    if m.contains_key(name) {
        Some(m[name])
    } else {
        None
    }
}

/// The first, or else the second.
pub open spec fn or_else(a: Option<Seq<char>>, b: Option<Seq<char>>) -> Option<Seq<char>> {
    match a {
        Some(v) => Some(v),
        None => b,
    }
}

/// The Hadoop S3 option of a bucket: its own, or else the one for all buckets.
pub open spec fn s3_option(
    m: Map<Seq<char>, Seq<char>>,
    bucket: Option<Seq<char>>,
    suffix: Seq<char>,
) -> Option<Seq<char>> {
    or_else(
        match bucket {
            Some(b) => option_of(m, "fs.s3a.bucket."@ + b + "."@ + suffix),
            None => None,
        },
        option_of(m, "fs.s3a."@ + suffix),
    )
}

/// The part of a text before its first dot.
pub open spec fn first_label(s: Seq<char>) -> Seq<char> {
    s.take(index_from(s, '.', 0))
}

/// The option of a storage account: the one scoped to the account and an
/// endpoint, or else to the account, or else the one for all accounts.
pub open spec fn account_option(
    m: Map<Seq<char>, Seq<char>>,
    base: Seq<char>,
    account: Option<Seq<char>>,
) -> Option<Seq<char>> {
    or_else(
        match account {
            Some(a) => or_else(
                option_of(m, base + "."@ + a + ".dfs.core.windows.net"@),
                or_else(
                    option_of(m, base + "."@ + a + ".blob.core.windows.net"@),
                    option_of(m, base + "."@ + a),
                ),
            ),
            None => None,
        },
        option_of(m, base),
    )
}

/// The shared access signature of a container of an account.
pub open spec fn sas_option(
    m: Map<Seq<char>, Seq<char>>,
    container: Option<Seq<char>>,
    account: Option<Seq<char>>,
) -> Option<Seq<char>> {
    match (container, account) {
        (Some(c), Some(a)) => {
            let base = "fs.azure.sas."@ + c + "."@ + a;
            or_else(
                option_of(m, base + ".dfs.core.windows.net"@),
                or_else(option_of(m, base + ".blob.core.windows.net"@), option_of(m, base)),
            )
        },
        _ => None,
    }
}

/// The prefix of options that hold an account's key.
pub open spec fn account_key_prefix() -> Seq<char> {
    "fs.azure.account.key."@
}

/// An option's name holds the key of the account.
pub open spec fn names_account(name: Seq<char>, account: Seq<char>) -> bool {
    &&& account_key_prefix().is_prefix_of(name)
    &&& first_label(name.skip(account_key_prefix().len() as int)) == account
    &&& account.len() > 0
}

/// Some option holds the key of the account.
pub open spec fn has_account(m: Map<Seq<char>, Seq<char>>, account: Seq<char>) -> bool {
    exists|k: Seq<char>| #[trigger] m.contains_key(k) && names_account(k, account)
}

/// The options hold the key of one account and no other.
pub open spec fn only_account(m: Map<Seq<char>, Seq<char>>, account: Seq<char>) -> bool {
    has_account(m, account) && forall|a: Seq<char>| #[trigger]
        has_account(m, a) ==> a == account
}

/// The one account whose key the options hold, where there is exactly one.
pub open spec fn single_account(m: Map<Seq<char>, Seq<char>>) -> Option<Seq<char>> {
    if exists|a: Seq<char>| only_account(m, a) {
        Some(choose|a: Seq<char>| only_account(m, a))
    } else {
        None
    }
}

/// The tenant in the path of a token endpoint: its first part.
pub open spec fn first_segment(path: Seq<char>) -> Option<Seq<char>> {
    if path.len() > 0 && path[0] == '/' {
        let seg = path.subrange(1, index_from(path, '/', 1));
        if seg.len() > 0 {
            Some(seg)
        } else {
            None
        }
    } else {
        None
    }
}

/// The tenant that a token endpoint names.
pub open spec fn endpoint_tenant(endpoint: Seq<char>) -> Option<Seq<char>> {
    match url_parse(endpoint) {
        Ok(p) => first_segment(p.5),
        Err(_) => None,
    }
}

/// The value of an optional text.
pub open spec fn opt_view(o: Option<&str>) -> Option<Seq<char>> {
    match o {
        Some(s) => Some(s@),
        None => None,
    }
}

/// The value of an option, copied.
fn get_option(m: &OptionsMap, name: &str) -> (r: Option<String>)
    ensures
        text(r) == option_of(m@, name@),
{
    match m.get(name) {
        Some(v) => Some(v.clone()),
        None => None,
    }
}

/// The Hadoop S3 option of a bucket.
fn s3_hadoop(m: &OptionsMap, bucket: Option<&str>, suffix: &str) -> (r: Option<String>)
    ensures
        text(r) == s3_option(
            m@,
            opt_view(bucket),
            suffix@,
        ),
{
    match bucket {
        Some(b) => {
            let name: String = concat3("fs.s3a.bucket.", b, ".").concat(suffix);
            match get_option(m, name.as_str()) {
                Some(v) => {
                    return Some(v);
                },
                None => {},
            }
        },
        None => {},
    }
    let name: String = concat2("fs.s3a.", suffix);
    get_option(m, name.as_str())
}

/// The part of a text before its first dot, copied.
pub(crate) fn label_of(s: &str) -> (r: String)
    ensures
        r@ == first_label(s@),
{
    let v: Vec<char> = chars_of(s);
    let i: usize = find_char(&v, '.', 0);
    let r: String = s.substring_char(0, i).to_owned();
    assert(r@ =~= first_label(s@));
    r
}

/// The option of a storage account.
pub fn azure_account_scoped_value(
    m: &OptionsMap,
    base_key: &str,
    account: Option<&str>,
) -> (r: Option<String>)
    ensures
        text(r) == account_option(
            m@,
            base_key@,
            opt_view(account),
        ),
{
    match account {
        Some(a) => {
            let scoped: String = concat3(base_key, ".", a);
            let dfs: String = concat2(scoped.as_str(), ".dfs.core.windows.net");
            match get_option(m, dfs.as_str()) {
                Some(v) => {
                    return Some(v);
                },
                None => {},
            }
            let blob: String = concat2(scoped.as_str(), ".blob.core.windows.net");
            match get_option(m, blob.as_str()) {
                Some(v) => {
                    return Some(v);
                },
                None => {},
            }
            match get_option(m, scoped.as_str()) {
                Some(v) => {
                    return Some(v);
                },
                None => {},
            }
        },
        None => {},
    }
    get_option(m, base_key)
}

/// The shared access signature of a container of an account.
pub fn azure_sas_scoped_value(
    m: &OptionsMap,
    container: Option<&str>,
    account: Option<&str>,
) -> (r: Option<String>)
    ensures
        text(r) == sas_option(
            m@,
            opt_view(container),
            opt_view(account),
        ),
{
    match (container, account) {
        (Some(c), Some(a)) => {
            let base: String = concat3("fs.azure.sas.", c, ".").concat(a);
            let dfs: String = concat2(base.as_str(), ".dfs.core.windows.net");
            match get_option(m, dfs.as_str()) {
                Some(v) => {
                    return Some(v);
                },
                None => {},
            }
            let blob: String = concat2(base.as_str(), ".blob.core.windows.net");
            match get_option(m, blob.as_str()) {
                Some(v) => {
                    return Some(v);
                },
                None => {},
            }
            get_option(m, base.as_str())
        },
        _ => None,
    }
}

/// The account that an option's name holds the key of, if any.
fn account_in_name(name: &str) -> (r: Option<String>)
    ensures
        match r {
            Some(a) => names_account(name@, a@),
            None => forall|a: Seq<char>| !names_account(name@, a),
        },
{
    match strip_prefix(name, "fs.azure.account.key.") {
        Some(rest) => {
            let a: String = label_of(rest);
            if a.as_str().is_empty() {
                None
            } else {
                Some(a)
            }
        },
        None => None,
    }
}

/// The one account whose key the options hold. With none or several there is no
/// answer, so that it does not depend on the order of the options.
pub fn single_azure_account_in_map(m: &OptionsMap) -> (r: Option<String>)
    ensures
        text(r) == single_account(m@),
{
    let n: usize = m.len();
    let ghost names = m.names();
    let mut found: Option<String> = None;
    let mut i: usize = 0;
    while i < n
        invariant
            i <= n == names.len(),
            names == m.names(),
            forall|k: Seq<char>| #[trigger] m@.contains_key(k) <==> names.contains(k),
            match found {
                Some(f) => has_account(m@, f@) && forall|j: int, a: Seq<char>|
                    0 <= j < i && #[trigger] names_account(#[trigger] names[j], a) ==> a == f@,
                None => forall|j: int, a: Seq<char>|
                    0 <= j < i ==> !#[trigger] names_account(#[trigger] names[j], a),
            },
        decreases n - i,
    {
        let name: &str = m.name_at(i);
        match account_in_name(name) {
            None => {},
            Some(a) => {
                proof {
                    assert(names.contains(names[i as int]));
                    assert(m@.contains_key(name@));
                    assert(has_account(m@, a@));
                }
                let clash: bool = match &found {
                    Some(f) => !str_eq(f.as_str(), a.as_str()),
                    None => false,
                };
                if clash {
                    proof {
                        let f = found->0@;
                        assert(has_account(m@, f) && has_account(m@, a@) && f != a@);
                        assert forall|x: Seq<char>| !only_account(m@, x) by {
                            if only_account(m@, x) {
                                assert(f == x);
                                assert(a@ == x);
                            }
                        }
                    }
                    return None;
                }
                found = Some(a);
            },
        }
        i = i + 1;
    }
    proof {
        match &found {
            Some(f) => {
                assert forall|a: Seq<char>| #[trigger] has_account(m@, a) implies a == f@ by {
                    let k = choose|k: Seq<char>| #[trigger]
                        m@.contains_key(k) && names_account(k, a);
                    assert(names.contains(k));
                    let j = choose|j: int| 0 <= j < names.len() && names[j] == k;
                    assert(names_account(names[j], a));
                }
                assert(only_account(m@, f@));
                let c = choose|a: Seq<char>| only_account(m@, a);
                assert(only_account(m@, c));
                assert(has_account(m@, f@));
            },
            None => {
                assert forall|a: Seq<char>| !only_account(m@, a) by {
                    if has_account(m@, a) {
                        let k = choose|k: Seq<char>| #[trigger]
                            m@.contains_key(k) && names_account(k, a);
                        assert(names.contains(k));
                        let j = choose|j: int| 0 <= j < names.len() && names[j] == k;
                        assert(!names_account(names[j], a));
                    }
                }
            },
        }
    }
    found
}

/// The first part of a path that starts with a slash, if it is not empty.
pub fn tenant_from_path(path: &str) -> (r: Option<String>)
    ensures
        text(r) == first_segment(path@),
{
    let v: Vec<char> = chars_of(path);
    if v.len() == 0 || v[0] != '/' {
        return None;
    }
    let end: usize = find_char(&v, '/', 1);
    if end == 1 {
        assert(path@.subrange(1, 1).len() == 0);
        return None;
    }
    Some(path.substring_char(1, end).to_owned())
}

/// The tenant that a token endpoint names.
pub fn azure_tenant_from_oauth_endpoint(endpoint: &str) -> (r: Option<String>)
    ensures
        text(r) == endpoint_tenant(endpoint@),
{
    match TableUrl::parse(endpoint) {
        Ok(u) => tenant_from_path(u.path.as_str()),
        Err(_) => None,
    }
}

/// The bucket of an S3 location.
pub open spec fn s3_bucket(u: Option<UrlParts>) -> Option<Seq<char>> {
    match u {
        Some(p) => if p.1 == "s3"@ || p.1 == "s3a"@ {
            p.3
        } else {
            None
        },
        None => None,
    }
}

/// The scheme is one whose authority is a container and an account's endpoint.
pub open spec fn names_account_endpoint(scheme: Seq<char>) -> bool {
    scheme == "abfs"@ || scheme == "abfss"@ || scheme == "wasb"@ || scheme == "wasbs"@
}

/// The scheme is one whose authority is a container alone.
pub open spec fn names_container(scheme: Seq<char>) -> bool {
    scheme == "az"@ || scheme == "azure"@
}

/// The account that an Azure location names.
pub open spec fn url_account(u: Option<UrlParts>) -> Option<Seq<char>> {
    match u {
        Some(p) => if names_account_endpoint(p.1) {
            match p.3 {
                Some(h) => Some(first_label(h)),
                None => None,
            }
        } else {
            None
        },
        None => None,
    }
}

/// The container that an Azure location names.
pub open spec fn url_container(u: Option<UrlParts>) -> Option<Seq<char>> {
    match u {
        Some(p) => if names_account_endpoint(p.1) {
            if p.2.len() > 0 {
                Some(p.2)
            } else {
                None
            }
        } else if names_container(p.1) {
            p.3
        } else {
            None
        },
        None => None,
    }
}

/// The parts of an optional URL.
pub open spec fn parts_of(u: Option<&TableUrl>) -> Option<UrlParts> {
    match u {
        Some(t) => Some(t.parts()),
        None => None,
    }
}

/// Whether a value is there and reads `true`.
pub open spec fn is_true(o: Option<Seq<char>>) -> bool {
    o == Some("true"@)
}

/// The credentials that the options of a session give for a location.
pub open spec fn config_from_options(
    m: Map<Seq<char>, Seq<char>>,
    u: Option<UrlParts>,
) -> StorageState {
    let bucket = s3_bucket(u);
    let account = or_else(url_account(u), single_account(m));
    let container = url_container(u);
    StorageState {
        aws_access_key: or_else(
            option_of(m, "aws_access_key_id"@),
            s3_option(m, bucket, "access.key"@),
        ),
        aws_secret_key: or_else(
            option_of(m, "aws_secret_access_key"@),
            s3_option(m, bucket, "secret.key"@),
        ),
        aws_session_token: or_else(
            option_of(m, "aws_session_token"@),
            s3_option(m, bucket, "session.token"@),
        ),
        aws_region: or_else(
            option_of(m, "aws_region"@),
            or_else(
                s3_option(m, bucket, "endpoint.region"@),
                s3_option(m, bucket, "region"@),
            ),
        ),
        aws_endpoint: or_else(
            option_of(m, "aws_endpoint"@),
            s3_option(m, bucket, "endpoint"@),
        ),
        aws_force_path_style: is_true(
            or_else(
                option_of(m, "aws_force_path_style"@),
                s3_option(m, bucket, "path.style.access"@),
            ),
        ),
        aws_requester_pays: is_true(s3_option(m, bucket, "requester.pays.enabled"@)),
        azure_account_name: or_else(option_of(m, "azure_storage_account_name"@), account),
        azure_account_key: or_else(
            option_of(m, "azure_storage_account_key"@),
            account_option(m, "fs.azure.account.key"@, account),
        ),
        azure_sas_token: or_else(
            option_of(m, "azure_storage_sas_key"@),
            or_else(
                sas_option(m, container, account),
                option_of(m, "fs.azure.sas.fixed.token"@),
            ),
        ),
        azure_client_id: account_option(m, "fs.azure.account.oauth2.client.id"@, account),
        azure_client_secret: account_option(m, "fs.azure.account.oauth2.client.secret"@, account),
        azure_tenant_id: or_else(
            account_option(m, "fs.azure.account.oauth2.msi.tenant"@, account),
            match account_option(m, "fs.azure.account.oauth2.client.endpoint"@, account) {
                Some(e) => endpoint_tenant(e),
                None => None,
            },
        ),
        azure_msi_endpoint: account_option(m, "fs.azure.account.oauth2.msi.endpoint"@, account),
        azure_authority_host: account_option(m, "fs.azure.account.oauth2.msi.authority"@, account),
        azure_federated_token_file: account_option(
            m,
            "fs.azure.account.oauth2.token.file"@,
            account,
        ),
        gcs_service_account_path: or_else(
            option_of(m, "google_service_account"@),
            option_of(m, "fs.gs.auth.service.account.json.keyfile"@),
        ),
        gcs_service_account_key: option_of(m, "google_service_account_key"@),
    }
}

/// The option under its own name, or else the Hadoop S3 option.
fn kernel_or_s3(m: &OptionsMap, bucket: Option<&str>, kernel: &str, suffix: &str) -> (r: Option<
    String,
>)
    ensures
        text(r) == or_else(option_of(m@, kernel@), s3_option(m@, opt_view(bucket), suffix@)),
{
    match get_option(m, kernel) {
        Some(v) => Some(v),
        None => s3_hadoop(m, bucket, suffix),
    }
}

fn reads_true(o: Option<String>) -> (r: bool)
    ensures
        r == is_true(text(o)),
{
    match o {
        Some(s) => str_eq(s.as_str(), "true"),
        None => false,
    }
}

/// What a location says of its store: the bucket, the account, the container.
fn location_scope<'a>(u: Option<&'a TableUrl>) -> (r: (
    Option<&'a str>,
    Option<String>,
    Option<&'a str>,
))
    ensures
        opt_view(r.0) == s3_bucket(parts_of(u)),
        text(r.1) == url_account(parts_of(u)),
        opt_view(r.2) == url_container(parts_of(u)),
{
    match u {
        None => (None, None, None),
        Some(t) => {
            let scheme: &str = t.scheme.as_str();
            let host: Option<&'a str> = match &t.host {
                Some(h) => Some(h.as_str()),
                None => None,
            };
            proof {
                reveal_strlit("s3");
                reveal_strlit("s3a");
                reveal_strlit("az");
                reveal_strlit("azure");
                reveal_strlit("abfs");
                reveal_strlit("abfss");
                reveal_strlit("wasb");
                reveal_strlit("wasbs");
                assert("s3"@[0] == 's' && "s3a"@[0] == 's');
                assert("abfs"@[0] == 'a' && "abfss"@[0] == 'a');
                assert("wasb"@[0] == 'w' && "wasbs"@[0] == 'w');
                assert("az"@[0] == 'a' && "azure"@[0] == 'a');
                assert("abfs"@[1] == 'b' && "abfss"@[1] == 'b');
                assert("az"@[1] == 'z' && "azure"@[1] == 'z');
            }
            if str_eq(scheme, "s3") || str_eq(scheme, "s3a") {
                (host, None, None)
            } else if str_eq(scheme, "abfs") || str_eq(scheme, "abfss") || str_eq(scheme, "wasb")
                || str_eq(scheme, "wasbs") {
                let account: Option<String> = match host {
                    Some(h) => Some(label_of(h)),
                    None => None,
                };
                let container: Option<&'a str> = if t.username.as_str().is_empty() {
                    None
                } else {
                    Some(t.username.as_str())
                };
                (None, account, container)
            } else if str_eq(scheme, "az") || str_eq(scheme, "azure") {
                (None, None, host)
            } else {
                (None, None, None)
            }
        },
    }
}

/// The credentials that the options of a session give for a table's location.
///
/// An option under its own name wins over the Hadoop form of it. The Hadoop form
/// for the location's bucket, account or container wins over the one for all. A
/// location that names no account has the one account whose key the options
/// hold.
pub fn delta_storage_config_from_map(m: &OptionsMap, table_url: Option<&TableUrl>) -> (c:
    DeltaStorageConfig)
    ensures
        c@ == config_from_options(m@, parts_of(table_url)),
{
    let (bucket, url_acc, container) = location_scope(table_url);
    let effective: Option<String> = match url_acc {
        Some(a) => Some(a),
        None => single_azure_account_in_map(m),
    };
    let account: Option<&str> = match &effective {
        Some(a) => Some(a.as_str()),
        None => None,
    };
    assert(opt_view(account) == or_else(
        url_account(parts_of(table_url)),
        single_account(m@),
    ));
    let azure_account_name: Option<String> = match get_option(m, "azure_storage_account_name") {
        Some(v) => Some(v),
        None => copy_text(&effective),
    };
    let azure_account_key: Option<String> = match get_option(m, "azure_storage_account_key") {
        Some(v) => Some(v),
        None => azure_account_scoped_value(m, "fs.azure.account.key", account),
    };
    let azure_sas_token: Option<String> = match get_option(m, "azure_storage_sas_key") {
        Some(v) => Some(v),
        None => match azure_sas_scoped_value(m, container, account) {
            Some(v) => Some(v),
            None => get_option(m, "fs.azure.sas.fixed.token"),
        },
    };
    let azure_tenant_id: Option<String> = match azure_account_scoped_value(
        m,
        "fs.azure.account.oauth2.msi.tenant",
        account,
    ) {
        Some(v) => Some(v),
        None => match azure_account_scoped_value(
            m,
            "fs.azure.account.oauth2.client.endpoint",
            account,
        ) {
            Some(e) => azure_tenant_from_oauth_endpoint(e.as_str()),
            None => None,
        },
    };
    let aws_region: Option<String> = match get_option(m, "aws_region") {
        Some(v) => Some(v),
        None => match s3_hadoop(m, bucket, "endpoint.region") {
            Some(v) => Some(v),
            None => s3_hadoop(m, bucket, "region"),
        },
    };
    DeltaStorageConfig {
        aws_access_key: kernel_or_s3(m, bucket, "aws_access_key_id", "access.key"),
        aws_secret_key: kernel_or_s3(m, bucket, "aws_secret_access_key", "secret.key"),
        aws_session_token: kernel_or_s3(m, bucket, "aws_session_token", "session.token"),
        aws_region,
        aws_endpoint: kernel_or_s3(m, bucket, "aws_endpoint", "endpoint"),
        aws_force_path_style: reads_true(
            kernel_or_s3(m, bucket, "aws_force_path_style", "path.style.access"),
        ),
        aws_requester_pays: reads_true(s3_hadoop(m, bucket, "requester.pays.enabled")),
        azure_account_name,
        azure_account_key,
        azure_sas_token,
        azure_client_id: azure_account_scoped_value(
            m,
            "fs.azure.account.oauth2.client.id",
            account,
        ),
        azure_client_secret: azure_account_scoped_value(
            m,
            "fs.azure.account.oauth2.client.secret",
            account,
        ),
        azure_tenant_id,
        azure_msi_endpoint: azure_account_scoped_value(
            m,
            "fs.azure.account.oauth2.msi.endpoint",
            account,
        ),
        azure_authority_host: azure_account_scoped_value(
            m,
            "fs.azure.account.oauth2.msi.authority",
            account,
        ),
        azure_federated_token_file: azure_account_scoped_value(
            m,
            "fs.azure.account.oauth2.token.file",
            account,
        ),
        gcs_service_account_path: match get_option(m, "google_service_account") {
            Some(v) => Some(v),
            None => get_option(m, "fs.gs.auth.service.account.json.keyfile"),
        },
        gcs_service_account_key: get_option(m, "google_service_account_key"),
    }
}

/// The two sets of options agree on every name with one of two prefixes.
pub open spec fn agree_on(
    a: Map<Seq<char>, Seq<char>>,
    b: Map<Seq<char>, Seq<char>>,
    p: Seq<char>,
    q: Seq<char>,
) -> bool {
    forall|k: Seq<char>| #[trigger]
        option_of(a, k) == option_of(b, k) || !(p.is_prefix_of(k) || q.is_prefix_of(k))
}

proof fn lemma_agree(
    a: Map<Seq<char>, Seq<char>>,
    b: Map<Seq<char>, Seq<char>>,
    p: Seq<char>,
    q: Seq<char>,
    base: Seq<char>,
    k: Seq<char>,
)
    requires
        agree_on(a, b, p, q),
        p.is_prefix_of(base) || q.is_prefix_of(base),
        base.is_prefix_of(k),
    ensures
        option_of(a, k) == option_of(b, k),
{
    if p.is_prefix_of(base) {
        assert(k.take(p.len() as int) =~= base.take(p.len() as int));
    } else {
        assert(k.take(q.len() as int) =~= base.take(q.len() as int));
    }
    assert(option_of(a, k) == option_of(b, k) || !(p.is_prefix_of(k) || q.is_prefix_of(k)));
}

proof fn lemma_s3_option_agrees(
    a: Map<Seq<char>, Seq<char>>,
    b: Map<Seq<char>, Seq<char>>,
    bucket: Option<Seq<char>>,
    suffix: Seq<char>,
)
    requires
        agree_on(a, b, "aws_"@, "fs.s3a."@),
    ensures
        s3_option(a, bucket, suffix) == s3_option(b, bucket, suffix),
{
    reveal_strlit("fs.s3a.");
    reveal_strlit("fs.s3a.bucket.");
    let base = "fs.s3a."@;
    assert("fs.s3a.bucket."@.take(7) =~= base);
    assert(base.take(7) =~= base);
    lemma_agree(a, b, "aws_"@, base, base, base + suffix);
    match bucket {
        Some(n) => {
            let k = "fs.s3a.bucket."@ + n + "."@ + suffix;
            assert(base.is_prefix_of(k)) by {
                assert(k.take(7) =~= base);
            }
            lemma_agree(a, b, "aws_"@, base, base, k);
        },
        None => {},
    }
}

/// The S3 credentials depend on the options named `aws_` or `fs.s3a.` alone: no
/// Azure or Google Cloud option finds its way into them.
pub proof fn s3_settings_depend_on_s3_options(
    a: Map<Seq<char>, Seq<char>>,
    b: Map<Seq<char>, Seq<char>>,
    u: Option<UrlParts>,
)
    requires
        agree_on(a, b, "aws_"@, "fs.s3a."@),
    ensures
        ({
            let x = config_from_options(a, u);
            let y = config_from_options(b, u);
            &&& x.aws_access_key == y.aws_access_key
            &&& x.aws_secret_key == y.aws_secret_key
            &&& x.aws_session_token == y.aws_session_token
            &&& x.aws_region == y.aws_region
            &&& x.aws_endpoint == y.aws_endpoint
            &&& x.aws_force_path_style == y.aws_force_path_style
            &&& x.aws_requester_pays == y.aws_requester_pays
        }),
{
    let bucket = s3_bucket(u);
    reveal_strlit("aws_");
    reveal_strlit("aws_access_key_id");
    reveal_strlit("aws_secret_access_key");
    reveal_strlit("aws_session_token");
    reveal_strlit("aws_region");
    reveal_strlit("aws_endpoint");
    reveal_strlit("aws_force_path_style");
    let p = "aws_"@;
    assert(p.is_prefix_of("aws_access_key_id"@));
    assert(p.is_prefix_of("aws_secret_access_key"@));
    assert(p.is_prefix_of("aws_session_token"@));
    assert(p.is_prefix_of("aws_region"@));
    assert(p.is_prefix_of("aws_endpoint"@));
    assert(p.is_prefix_of("aws_force_path_style"@));
    lemma_s3_option_agrees(a, b, bucket, "access.key"@);
    lemma_s3_option_agrees(a, b, bucket, "secret.key"@);
    lemma_s3_option_agrees(a, b, bucket, "session.token"@);
    lemma_s3_option_agrees(a, b, bucket, "endpoint.region"@);
    lemma_s3_option_agrees(a, b, bucket, "region"@);
    lemma_s3_option_agrees(a, b, bucket, "endpoint"@);
    lemma_s3_option_agrees(a, b, bucket, "path.style.access"@);
    lemma_s3_option_agrees(a, b, bucket, "requester.pays.enabled"@);
}

proof fn lemma_account_option_agrees(
    a: Map<Seq<char>, Seq<char>>,
    b: Map<Seq<char>, Seq<char>>,
    base: Seq<char>,
    account: Option<Seq<char>>,
)
    requires
        agree_on(a, b, "azure_"@, "fs.azure."@),
        "fs.azure."@.is_prefix_of(base),
    ensures
        account_option(a, base, account) == account_option(b, base, account),
{
    let p = "azure_"@;
    let q = "fs.azure."@;
    assert(base.is_prefix_of(base));
    lemma_agree(a, b, p, q, base, base);
    match account {
        Some(n) => {
            let scoped = base + "."@ + n;
            let dfs = scoped + ".dfs.core.windows.net"@;
            let blob = scoped + ".blob.core.windows.net"@;
            assert(scoped.take(base.len() as int) =~= base);
            assert(dfs.take(base.len() as int) =~= base);
            assert(blob.take(base.len() as int) =~= base);
            lemma_agree(a, b, p, q, base, scoped);
            lemma_agree(a, b, p, q, base, dfs);
            lemma_agree(a, b, p, q, base, blob);
        },
        None => {},
    }
}

proof fn lemma_has_account_agrees(
    a: Map<Seq<char>, Seq<char>>,
    b: Map<Seq<char>, Seq<char>>,
    account: Seq<char>,
)
    requires
        agree_on(a, b, "azure_"@, "fs.azure."@),
        has_account(a, account),
    ensures
        has_account(b, account),
{
    reveal_strlit("fs.azure.");
    reveal_strlit("fs.azure.account.key.");
    assert("fs.azure."@.is_prefix_of(account_key_prefix()));
    let k = choose|k: Seq<char>| #[trigger] a.contains_key(k) && names_account(k, account);
    lemma_agree(a, b, "azure_"@, "fs.azure."@, account_key_prefix(), k);
    assert(option_of(a, k) is Some);
    assert(b.contains_key(k));
}

proof fn lemma_only_account_agrees(
    a: Map<Seq<char>, Seq<char>>,
    b: Map<Seq<char>, Seq<char>>,
    account: Seq<char>,
)
    requires
        agree_on(a, b, "azure_"@, "fs.azure."@),
        only_account(a, account),
    ensures
        single_account(b) == Some(account),
{
    lemma_has_account_agrees(a, b, account);
    assert forall|x: Seq<char>| #[trigger] has_account(b, x) implies x == account by {
        lemma_agree_flips(a, b);
        lemma_has_account_agrees(b, a, x);
    }
    assert(only_account(b, account));
    let c = choose|x: Seq<char>| only_account(b, x);
    assert(only_account(b, c));
    assert(has_account(b, c));
}

proof fn lemma_agree_flips(a: Map<Seq<char>, Seq<char>>, b: Map<Seq<char>, Seq<char>>)
    requires
        agree_on(a, b, "azure_"@, "fs.azure."@),
    ensures
        agree_on(b, a, "azure_"@, "fs.azure."@),
{
    let p = "azure_"@;
    let q = "fs.azure."@;
    assert forall|k: Seq<char>| #[trigger] option_of(b, k) == option_of(a, k) || !(
    p.is_prefix_of(k) || q.is_prefix_of(k)) by {
        assert(option_of(a, k) == option_of(b, k) || !(p.is_prefix_of(k) || q.is_prefix_of(k)));
    }
}

/// The Azure credentials depend on the options named `azure_` or `fs.azure.`
/// alone: no S3 or Google Cloud option finds its way into them.
#[verifier::rlimit(30)]
pub proof fn azure_settings_depend_on_azure_options(
    a: Map<Seq<char>, Seq<char>>,
    b: Map<Seq<char>, Seq<char>>,
    u: Option<UrlParts>,
)
    requires
        agree_on(a, b, "azure_"@, "fs.azure."@),
    ensures
        config_from_options(a, u).azure_settings() == config_from_options(b, u).azure_settings(),
{
    let p = "azure_"@;
    let q = "fs.azure."@;
    assert(single_account(a) == single_account(b)) by {
        lemma_agree_flips(a, b);
        if exists|x: Seq<char>| only_account(a, x) {
            lemma_only_account_agrees(a, b, choose|x: Seq<char>| only_account(a, x));
        }
        if exists|x: Seq<char>| only_account(b, x) {
            lemma_only_account_agrees(b, a, choose|x: Seq<char>| only_account(b, x));
        }
    }
    let account = or_else(url_account(u), single_account(a));
    let container = url_container(u);
    assert(q.is_prefix_of("fs.azure.account.key"@) && q.is_prefix_of("fs.azure.sas."@)
        && q.is_prefix_of("fs.azure.sas.fixed.token"@)) by {
        reveal_strlit("fs.azure.");
        reveal_strlit("fs.azure.account.key");
        reveal_strlit("fs.azure.sas.");
        reveal_strlit("fs.azure.sas.fixed.token");
    }
    assert(q.is_prefix_of("fs.azure.account.oauth2.client.id"@) && q.is_prefix_of(
        "fs.azure.account.oauth2.client.secret"@,
    ) && q.is_prefix_of("fs.azure.account.oauth2.msi.tenant"@) && q.is_prefix_of(
        "fs.azure.account.oauth2.client.endpoint"@,
    )) by {
        reveal_strlit("fs.azure.");
        reveal_strlit("fs.azure.account.oauth2.client.id");
        reveal_strlit("fs.azure.account.oauth2.client.secret");
        reveal_strlit("fs.azure.account.oauth2.msi.tenant");
        reveal_strlit("fs.azure.account.oauth2.client.endpoint");
    }
    assert(q.is_prefix_of("fs.azure.account.oauth2.msi.endpoint"@) && q.is_prefix_of(
        "fs.azure.account.oauth2.msi.authority"@,
    ) && q.is_prefix_of("fs.azure.account.oauth2.token.file"@)) by {
        reveal_strlit("fs.azure.");
        reveal_strlit("fs.azure.account.oauth2.msi.endpoint");
        reveal_strlit("fs.azure.account.oauth2.msi.authority");
        reveal_strlit("fs.azure.account.oauth2.token.file");
    }
    assert(p.is_prefix_of("azure_storage_account_name"@) && p.is_prefix_of(
        "azure_storage_account_key"@,
    ) && p.is_prefix_of("azure_storage_sas_key"@)) by {
        reveal_strlit("azure_");
        reveal_strlit("azure_storage_account_name");
        reveal_strlit("azure_storage_account_key");
        reveal_strlit("azure_storage_sas_key");
    }
    lemma_account_option_agrees(a, b, "fs.azure.account.key"@, account);
    lemma_account_option_agrees(a, b, "fs.azure.account.oauth2.client.id"@, account);
    lemma_account_option_agrees(a, b, "fs.azure.account.oauth2.client.secret"@, account);
    lemma_account_option_agrees(a, b, "fs.azure.account.oauth2.msi.tenant"@, account);
    lemma_account_option_agrees(a, b, "fs.azure.account.oauth2.client.endpoint"@, account);
    lemma_account_option_agrees(a, b, "fs.azure.account.oauth2.msi.endpoint"@, account);
    lemma_account_option_agrees(a, b, "fs.azure.account.oauth2.msi.authority"@, account);
    lemma_account_option_agrees(a, b, "fs.azure.account.oauth2.token.file"@, account);
    assert(option_of(a, "azure_storage_account_name"@) == option_of(
        b,
        "azure_storage_account_name"@,
    ));
    assert(option_of(a, "azure_storage_account_key"@) == option_of(
        b,
        "azure_storage_account_key"@,
    ));
    assert(option_of(a, "azure_storage_sas_key"@) == option_of(b, "azure_storage_sas_key"@));
    assert(option_of(a, "fs.azure.sas.fixed.token"@) == option_of(
        b,
        "fs.azure.sas.fixed.token"@,
    ));
    assert(sas_option(a, container, account) == sas_option(b, container, account)) by {
        match (container, account) {
            (Some(c), Some(n)) => {
                let s = "fs.azure.sas."@;
                let base = s + c + "."@ + n;
                let dfs = base + ".dfs.core.windows.net"@;
                let blob = base + ".blob.core.windows.net"@;
                assert(base.take(s.len() as int) =~= s);
                assert(dfs.take(s.len() as int) =~= s);
                assert(blob.take(s.len() as int) =~= s);
                lemma_agree(a, b, p, q, s, base);
                lemma_agree(a, b, p, q, s, dfs);
                lemma_agree(a, b, p, q, s, blob);
            },
            _ => {},
        }
    }
}

/// The Google Cloud credentials depend on the options named `google_` or `fs.gs.`
/// alone: no S3 or Azure option finds its way into them.
pub proof fn gcs_settings_depend_on_gcs_options(
    a: Map<Seq<char>, Seq<char>>,
    b: Map<Seq<char>, Seq<char>>,
    u: Option<UrlParts>,
)
    requires
        agree_on(a, b, "google_"@, "fs.gs."@),
    ensures
        gcs_settings(config_from_options(a, u)) == gcs_settings(config_from_options(b, u)),
{
    let p = "google_"@;
    let q = "fs.gs."@;
    reveal_strlit("google_");
    reveal_strlit("google_service_account");
    reveal_strlit("google_service_account_key");
    reveal_strlit("fs.gs.");
    reveal_strlit("fs.gs.auth.service.account.json.keyfile");
    assert(p.is_prefix_of("google_service_account"@));
    assert(p.is_prefix_of("google_service_account_key"@));
    assert(q.is_prefix_of("fs.gs.auth.service.account.json.keyfile"@));
    assert(option_of(a, "google_service_account"@) == option_of(b, "google_service_account"@));
    assert(option_of(a, "google_service_account_key"@) == option_of(
        b,
        "google_service_account_key"@,
    ));
    assert(option_of(a, "fs.gs.auth.service.account.json.keyfile"@) == option_of(
        b,
        "fs.gs.auth.service.account.json.keyfile"@,
    ));
}

/// An option under its own name wins over the Hadoop form of it.
pub proof fn own_name_wins(m: Map<Seq<char>, Seq<char>>, u: Option<UrlParts>)
    ensures
        ({
            let c = config_from_options(m, u);
            &&& m.contains_key("aws_access_key_id"@) ==> c.aws_access_key == Some(
                m["aws_access_key_id"@],
            )
            &&& m.contains_key("aws_secret_access_key"@) ==> c.aws_secret_key == Some(
                m["aws_secret_access_key"@],
            )
            &&& m.contains_key("aws_session_token"@) ==> c.aws_session_token == Some(
                m["aws_session_token"@],
            )
            &&& m.contains_key("aws_region"@) ==> c.aws_region == Some(m["aws_region"@])
            &&& m.contains_key("aws_endpoint"@) ==> c.aws_endpoint == Some(m["aws_endpoint"@])
            &&& m.contains_key("aws_force_path_style"@) ==> c.aws_force_path_style == (
            m["aws_force_path_style"@] == "true"@)
            &&& m.contains_key("azure_storage_account_name"@) ==> c.azure_account_name == Some(
                m["azure_storage_account_name"@],
            )
            &&& m.contains_key("azure_storage_account_key"@) ==> c.azure_account_key == Some(
                m["azure_storage_account_key"@],
            )
            &&& m.contains_key("azure_storage_sas_key"@) ==> c.azure_sas_token == Some(
                m["azure_storage_sas_key"@],
            )
            &&& m.contains_key("google_service_account"@) ==> c.gcs_service_account_path == Some(
                m["google_service_account"@],
            )
        }),
{
}

/// An S3 option for the location's bucket wins over the one for all buckets, and
/// one for another bucket has no say.
pub proof fn bucket_option_wins(
    m: Map<Seq<char>, Seq<char>>,
    bucket: Seq<char>,
    suffix: Seq<char>,
    other: Seq<char>,
    v: Seq<char>,
)
    requires
        other != "fs.s3a.bucket."@ + bucket + "."@ + suffix,
        other != "fs.s3a."@ + suffix,
    ensures
        m.contains_key("fs.s3a.bucket."@ + bucket + "."@ + suffix) ==> s3_option(
            m,
            Some(bucket),
            suffix,
        ) == Some(m["fs.s3a.bucket."@ + bucket + "."@ + suffix]),
        s3_option(m.insert(other, v), Some(bucket), suffix) == s3_option(m, Some(bucket), suffix),
{
}

/// An Azure option for the account wins over the one for all accounts.
pub proof fn account_option_wins(
    m: Map<Seq<char>, Seq<char>>,
    base: Seq<char>,
    account: Seq<char>,
)
    ensures
        m.contains_key(base + "."@ + account) ==> account_option(m, base, Some(account)) is Some && (
        m.contains_key(base) ==> account_option(m, base, Some(account)) == account_option(
            m.remove(base),
            base,
            Some(account),
        )),
{
    reveal_strlit(".");
    let scoped = base + "."@ + account;
    let dfs = scoped + ".dfs.core.windows.net"@;
    let blob = scoped + ".blob.core.windows.net"@;
    assert(scoped.len() > base.len());
    assert(dfs.len() > base.len());
    assert(blob.len() > base.len());
}

/// A location that names no account has none where the options hold the keys of
/// two: none is picked by chance.
pub proof fn two_accounts_are_ambiguous(
    m: Map<Seq<char>, Seq<char>>,
    a: Seq<char>,
    b: Seq<char>,
)
    requires
        has_account(m, a),
        has_account(m, b),
        a != b,
    ensures
        single_account(m) is None,
        or_else(url_account(None), single_account(m)) is None,
{
    assert forall|x: Seq<char>| !only_account(m, x) by {
        if only_account(m, x) {
            assert(a == x && b == x);
        }
    }
}

/// The text is the part of another before its first dot.
pub open spec fn is_label_of(label: Seq<char>, s: Seq<char>) -> bool {
    &&& label.is_prefix_of(s)
    &&& !label.contains('.')
    &&& label.len() < s.len() ==> s[label.len() as int] == '.'
}

/// The part before the first dot has no dot, and a dot or nothing behind it; no other part
/// is like that.
pub proof fn the_first_label_ends_at_the_first_dot(s: Seq<char>, label: Seq<char>)
    ensures
        is_label_of(first_label(s), s),
        is_label_of(label, s) ==> label == first_label(s),
{
    lemma_index_from(s, '.', 0);
    let n = index_from(s, '.', 0);
    let f = first_label(s);
    assert(f =~= s.subrange(0, n));
    assert(!f.contains('.')) by {
        if f.contains('.') {
            let i = choose|i: int| 0 <= i < n && f[i] == '.';
            assert(s[i] != '.');
        }
    }
    if is_label_of(label, s) {
        let k = label.len() as int;
        if k < n {
            assert(s[k] == '.');
            assert(false);
        }
        if n < k {
            assert(label[n] == s[n]);
            assert(label.contains(label[n]));
            assert(false);
        }
        assert(label =~= f);
    }
}

/// The options hold a key of the account: under `fs.azure.account.key.`, the account, and
/// nothing or a dot and more behind it.
pub open spec fn keyed(m: Map<Seq<char>, Seq<char>>, account: Seq<char>) -> bool {
    account.len() > 0 && exists|k: Seq<char>| #[trigger]
        m.contains_key(k) && "fs.azure.account.key."@.is_prefix_of(k) && is_label_of(
            account,
            k.skip("fs.azure.account.key."@.len() as int),
        )
}

/// The single account of options is the one whose key they hold, where they hold that of
/// one account and no other.
pub proof fn the_single_account_is_the_only_one_with_a_key(
    m: Map<Seq<char>, Seq<char>>,
    a: Seq<char>,
)
    ensures
        single_account(m) == Some(a) <==> keyed(m, a) && forall|b: Seq<char>| #[trigger]
            keyed(m, b) ==> b == a,
{
    assert forall|x: Seq<char>| #[trigger] keyed(m, x) <==> has_account(m, x) by {
        lemma_keyed(m, x);
    }
    assert forall|x: Seq<char>| #[trigger] has_account(m, x) <==> keyed(m, x) by {
        lemma_keyed(m, x);
    }
    if single_account(m) == Some(a) {
        assert(exists|x: Seq<char>| only_account(m, x));
        assert(only_account(m, a));
    }
    if keyed(m, a) && forall|b: Seq<char>| #[trigger] keyed(m, b) ==> b == a {
        assert(only_account(m, a));
        let c = choose|x: Seq<char>| only_account(m, x);
        assert(only_account(m, c));
        assert(has_account(m, c));
        assert(keyed(m, c));
    }
}

proof fn lemma_keyed(m: Map<Seq<char>, Seq<char>>, account: Seq<char>)
    ensures
        keyed(m, account) <==> has_account(m, account),
{
    let p = "fs.azure.account.key."@;
    if keyed(m, account) {
        let k = choose|k: Seq<char>| #[trigger]
            m.contains_key(k) && p.is_prefix_of(k) && is_label_of(account, k.skip(p.len() as int));
        the_first_label_ends_at_the_first_dot(k.skip(p.len() as int), account);
        assert(names_account(k, account));
    }
    if has_account(m, account) {
        let k = choose|k: Seq<char>| #[trigger] m.contains_key(k) && names_account(k, account);
        the_first_label_ends_at_the_first_dot(k.skip(p.len() as int), account);
    }
}

/// The scheme is one whose host is that of an account.
pub open spec fn host_is_of_account(scheme: Seq<char>) -> bool {
    ||| scheme == "abfs"@
    ||| scheme == "abfss"@
    ||| scheme == "wasb"@
    ||| scheme == "wasbs"@
}

/// A location names its bucket, its account and its container, each by its scheme: the host
/// of an S3 location is its bucket; that of an Azure one starts with the account, and its
/// user name is the container; in the short Azure schemes the host is the container. Other
/// locations name none of them.
pub proof fn a_location_names_what_its_scheme_says(p: UrlParts)
    ensures
        p.1 == "s3"@ || p.1 == "s3a"@ ==> s3_bucket(Some(p)) == p.3,
        p.1 != "s3"@ && p.1 != "s3a"@ ==> s3_bucket(Some(p)) is None,
        host_is_of_account(p.1) && p.3 is Some ==> (url_account(Some(p)) matches Some(a)
            && is_label_of(a, p.3->0)),
        host_is_of_account(p.1) && p.3 is None ==> url_account(Some(p)) is None,
        !host_is_of_account(p.1) ==> url_account(Some(p)) is None,
        host_is_of_account(p.1) && p.2.len() > 0 ==> url_container(Some(p)) == Some(p.2),
        host_is_of_account(p.1) && p.2.len() == 0 ==> url_container(Some(p)) is None,
        p.1 == "az"@ || p.1 == "azure"@ ==> url_container(Some(p)) == p.3,
        !host_is_of_account(p.1) && p.1 != "az"@ && p.1 != "azure"@ ==> url_container(Some(p))
            is None,
        s3_bucket(None) is None && url_account(None) is None && url_container(None) is None,
{
    reveal_strlit("az");
    reveal_strlit("azure");
    reveal_strlit("abfs");
    reveal_strlit("abfss");
    reveal_strlit("wasb");
    reveal_strlit("wasbs");
    assert("wasb"@[0] == 'w' && "wasbs"@[0] == 'w' && "az"@[0] == 'a' && "azure"@[0] == 'a');
    assert("abfs"@[1] == 'b' && "abfss"@[1] == 'b' && "az"@[1] == 'z' && "azure"@[1] == 'z');
    if let Some(h) = p.3 {
        the_first_label_ends_at_the_first_dot(h, h);
    }
}

/// The value is that of the first of the names that is set; there is none where none is.
pub open spec fn is_first_set(
    m: Map<Seq<char>, Seq<char>>,
    names: Seq<Seq<char>>,
    value: Option<Seq<char>>,
) -> bool {
    match value {
        Some(v) => exists|i: int|
            0 <= i < names.len() && #[trigger] m.contains_key(names[i]) && m[names[i]] == v
                && forall|j: int| 0 <= j < i ==> !#[trigger] m.contains_key(names[j]),
        None => forall|i: int| 0 <= i < names.len() ==> !#[trigger] m.contains_key(names[i]),
    }
}

proof fn lemma_first_of_one(m: Map<Seq<char>, Seq<char>>, a: Seq<char>)
    ensures
        is_first_set(m, seq![a], option_of(m, a)),
{
    let names = seq![a];
    assert(names[0] == a);
    if m.contains_key(a) {
        assert(m.contains_key(names[0]));
    }
}

proof fn lemma_first_of_more(
    m: Map<Seq<char>, Seq<char>>,
    a: Seq<char>,
    rest: Seq<Seq<char>>,
    value: Option<Seq<char>>,
)
    requires
        is_first_set(m, rest, value),
    ensures
        is_first_set(m, seq![a] + rest, or_else(option_of(m, a), value)),
{
    let names = seq![a] + rest;
    assert(names[0] == a);
    assert forall|i: int| 0 <= i < rest.len() implies #[trigger] names[i + 1] == rest[i] by {}
    if m.contains_key(a) {
        assert(m.contains_key(names[0]));
    } else {
        match value {
            Some(v) => {
                let i = choose|i: int|
                    0 <= i < rest.len() && #[trigger] m.contains_key(rest[i]) && m[rest[i]] == v
                        && forall|j: int| 0 <= j < i ==> !#[trigger] m.contains_key(rest[j]);
                assert(m.contains_key(names[i + 1]));
                assert forall|j: int| 0 <= j < i + 1 implies !#[trigger] m.contains_key(
                    names[j],
                ) by {
                    if j > 0 {
                        assert(names[j] == rest[j - 1]);
                        assert(!m.contains_key(rest[j - 1]));
                    }
                }
            },
            None => {
                assert forall|i: int| 0 <= i < names.len() implies !#[trigger] m.contains_key(
                    names[i],
                ) by {
                    if i > 0 {
                        assert(names[i] == rest[i - 1]);
                        assert(!m.contains_key(rest[i - 1]));
                    }
                }
            },
        }
    }
}

/// The names of a Hadoop S3 option, in the order in which they are looked up.
pub open spec fn s3_names(bucket: Option<Seq<char>>, suffix: Seq<char>) -> Seq<Seq<char>> {
    match bucket {
        Some(b) => seq!["fs.s3a.bucket."@ + b + "."@ + suffix, "fs.s3a."@ + suffix],
        None => seq!["fs.s3a."@ + suffix],
    }
}

proof fn lemma_s3_names(m: Map<Seq<char>, Seq<char>>, bucket: Option<Seq<char>>, suffix: Seq<char>)
    ensures
        is_first_set(m, s3_names(bucket, suffix), s3_option(m, bucket, suffix)),
{
    lemma_first_of_one(m, "fs.s3a."@ + suffix);
    if let Some(b) = bucket {
        let own = "fs.s3a.bucket."@ + b + "."@ + suffix;
        lemma_first_of_more(
            m,
            own,
            seq!["fs.s3a."@ + suffix],
            option_of(m, "fs.s3a."@ + suffix),
        );
        assert(seq![own] + seq!["fs.s3a."@ + suffix] =~= s3_names(bucket, suffix));
    }
}

proof fn lemma_own_and_s3(
    m: Map<Seq<char>, Seq<char>>,
    own: Seq<char>,
    bucket: Option<Seq<char>>,
    suffix: Seq<char>,
)
    ensures
        is_first_set(
            m,
            seq![own] + s3_names(bucket, suffix),
            or_else(option_of(m, own), s3_option(m, bucket, suffix)),
        ),
{
    lemma_s3_names(m, bucket, suffix);
    lemma_first_of_more(m, own, s3_names(bucket, suffix), s3_option(m, bucket, suffix));
}

/// Every S3 credential is the option that its names list first: under its own name, then
/// the Hadoop one of the location's bucket, then the Hadoop one for all buckets. A region
/// has two Hadoop names. A flag is set where that option reads `true`.
pub proof fn s3_credentials_are_looked_up_in_order(
    m: Map<Seq<char>, Seq<char>>,
    u: Option<UrlParts>,
    c: DeltaStorageConfig,
)
    requires
        c@ == config_from_options(m, u),
    ensures
        ({
            let b = s3_bucket(u);
            &&& is_first_set(
                m,
                seq!["aws_access_key_id"@] + s3_names(b, "access.key"@),
                text(c.aws_access_key),
            )
            &&& is_first_set(
                m,
                seq!["aws_secret_access_key"@] + s3_names(b, "secret.key"@),
                text(c.aws_secret_key),
            )
            &&& is_first_set(
                m,
                seq!["aws_session_token"@] + s3_names(b, "session.token"@),
                text(c.aws_session_token),
            )
            &&& is_first_set(
                m,
                seq!["aws_region"@] + s3_names(b, "endpoint.region"@) + s3_names(b, "region"@),
                text(c.aws_region),
            )
            &&& is_first_set(
                m,
                seq!["aws_endpoint"@] + s3_names(b, "endpoint"@),
                text(c.aws_endpoint),
            )
            &&& c.aws_force_path_style <==> is_first_set(
                m,
                seq!["aws_force_path_style"@] + s3_names(b, "path.style.access"@),
                Some("true"@),
            )
            &&& c.aws_requester_pays <==> is_first_set(
                m,
                s3_names(b, "requester.pays.enabled"@),
                Some("true"@),
            )
        }),
{
    let b = s3_bucket(u);
    lemma_own_and_s3(m, "aws_access_key_id"@, b, "access.key"@);
    lemma_own_and_s3(m, "aws_secret_access_key"@, b, "secret.key"@);
    lemma_own_and_s3(m, "aws_session_token"@, b, "session.token"@);
    lemma_own_and_s3(m, "aws_endpoint"@, b, "endpoint"@);
    lemma_own_and_s3(m, "aws_force_path_style"@, b, "path.style.access"@);
    lemma_s3_names(m, b, "requester.pays.enabled"@);
    lemma_s3_names(m, b, "endpoint.region"@);
    lemma_s3_names(m, b, "region"@);
    let regions = s3_names(b, "endpoint.region"@) + s3_names(b, "region"@);
    lemma_first_of_two_lists(
        m,
        s3_names(b, "endpoint.region"@),
        s3_option(m, b, "endpoint.region"@),
        s3_names(b, "region"@),
        s3_option(m, b, "region"@),
    );
    lemma_first_of_more(
        m,
        "aws_region"@,
        regions,
        or_else(s3_option(m, b, "endpoint.region"@), s3_option(m, b, "region"@)),
    );
    assert(seq!["aws_region"@] + regions =~= seq!["aws_region"@] + s3_names(b, "endpoint.region"@)
        + s3_names(b, "region"@));
    lemma_first_set_is_unique(
        m,
        seq!["aws_force_path_style"@] + s3_names(b, "path.style.access"@),
        or_else(option_of(m, "aws_force_path_style"@), s3_option(m, b, "path.style.access"@)),
        Some("true"@),
    );
    lemma_first_set_is_unique(
        m,
        s3_names(b, "requester.pays.enabled"@),
        s3_option(m, b, "requester.pays.enabled"@),
        Some("true"@),
    );
}

proof fn lemma_first_set_is_unique(
    m: Map<Seq<char>, Seq<char>>,
    names: Seq<Seq<char>>,
    a: Option<Seq<char>>,
    b: Option<Seq<char>>,
)
    requires
        is_first_set(m, names, a),
    ensures
        is_first_set(m, names, b) <==> a == b,
{
    if is_first_set(m, names, b) {
        if a is Some {
            let i = choose|i: int|
                0 <= i < names.len() && #[trigger] m.contains_key(names[i]) && m[names[i]] == a->0
                    && forall|j: int| 0 <= j < i ==> !#[trigger] m.contains_key(names[j]);
            assert(m.contains_key(names[i]));
            if b is Some {
                let k = choose|k: int|
                    0 <= k < names.len() && #[trigger] m.contains_key(names[k]) && m[names[k]]
                        == b->0 && forall|j: int|
                        0 <= j < k ==> !#[trigger] m.contains_key(names[j]);
                assert(m.contains_key(names[k]));
                assert(i == k);
            }
        } else if b is Some {
            let k = choose|k: int|
                0 <= k < names.len() && #[trigger] m.contains_key(names[k]) && m[names[k]] == b->0
                    && forall|j: int| 0 <= j < k ==> !#[trigger] m.contains_key(names[j]);
            assert(m.contains_key(names[k]));
        }
    }
}

proof fn lemma_first_of_two_lists(
    m: Map<Seq<char>, Seq<char>>,
    a: Seq<Seq<char>>,
    x: Option<Seq<char>>,
    b: Seq<Seq<char>>,
    y: Option<Seq<char>>,
)
    requires
        is_first_set(m, a, x),
        is_first_set(m, b, y),
    ensures
        is_first_set(m, a + b, or_else(x, y)),
    decreases a.len(),
{
    if a.len() == 0 {
        assert(a + b =~= b);
        if x is Some {
            let i = choose|i: int|
                0 <= i < a.len() && #[trigger] m.contains_key(a[i]) && m[a[i]] == x->0
                    && forall|j: int| 0 <= j < i ==> !#[trigger] m.contains_key(a[j]);
        }
    } else {
        let rest = a.drop_first();
        if m.contains_key(a[0]) {
            lemma_first_set_is_unique(m, a, x, Some(m[a[0]]));
            assert(is_first_set(m, a, Some(m[a[0]])));
            assert((a + b)[0] == a[0]);
            assert(m.contains_key((a + b)[0]));
        } else {
            assert(is_first_set(m, rest, x)) by {
                assert forall|i: int| 0 <= i < rest.len() implies #[trigger] rest[i] == a[i + 1] by {}
                if x is Some {
                    let i = choose|i: int|
                        0 <= i < a.len() && #[trigger] m.contains_key(a[i]) && m[a[i]] == x->0
                            && forall|j: int| 0 <= j < i ==> !#[trigger] m.contains_key(a[j]);
                    assert(m.contains_key(rest[i - 1]));
                    assert forall|j: int| 0 <= j < i - 1 implies !#[trigger] m.contains_key(
                        rest[j],
                    ) by {
                        assert(!m.contains_key(a[j + 1]));
                    }
                } else {
                    assert forall|j: int| 0 <= j < rest.len() implies !#[trigger] m.contains_key(
                        rest[j],
                    ) by {
                        assert(!m.contains_key(a[j + 1]));
                    }
                }
            }
            lemma_first_of_two_lists(m, rest, x, b, y);
            lemma_first_of_more(m, a[0], rest + b, or_else(x, y));
            assert(seq![a[0]] + (rest + b) =~= a + b);
        }
    }
}

/// The names of an option of an account, in the order in which they are looked up.
pub open spec fn account_names(base: Seq<char>, account: Option<Seq<char>>) -> Seq<Seq<char>> {
    match account {
        Some(a) => seq![
            base + "."@ + a + ".dfs.core.windows.net"@,
            base + "."@ + a + ".blob.core.windows.net"@,
            base + "."@ + a,
            base,
        ],
        None => seq![base],
    }
}

/// The names of the shared access signature of a container, in the order in which they are
/// looked up.
pub open spec fn sas_names(container: Option<Seq<char>>, account: Option<Seq<char>>) -> Seq<
    Seq<char>,
> {
    match (container, account) {
        (Some(c), Some(a)) => seq![
            "fs.azure.sas."@ + c + "."@ + a + ".dfs.core.windows.net"@,
            "fs.azure.sas."@ + c + "."@ + a + ".blob.core.windows.net"@,
            "fs.azure.sas."@ + c + "."@ + a,
        ],
        _ => seq![],
    }
}

/// An option of an account is the one that its names list first: scoped to the account and
/// its endpoint, then to the account, then the one for all accounts.
pub proof fn account_options_are_looked_up_in_order(
    m: Map<Seq<char>, Seq<char>>,
    base: Seq<char>,
    account: Option<Seq<char>>,
)
    ensures
        is_first_set(m, account_names(base, account), account_option(m, base, account)),
{
    lemma_first_of_one(m, base);
    if let Some(a) = account {
        let scoped = base + "."@ + a;
        let dfs = scoped + ".dfs.core.windows.net"@;
        let blob = scoped + ".blob.core.windows.net"@;
        let v0 = option_of(m, base);
        let v1 = or_else(option_of(m, scoped), v0);
        let v2 = or_else(option_of(m, blob), v1);
        lemma_first_of_more(m, scoped, seq![base], v0);
        lemma_first_of_more(m, blob, seq![scoped] + seq![base], v1);
        lemma_first_of_more(m, dfs, seq![blob] + (seq![scoped] + seq![base]), v2);
        assert(seq![dfs] + (seq![blob] + (seq![scoped] + seq![base])) =~= account_names(
            base,
            account,
        ));
    }
}

/// A shared access signature is the option that its names list first: scoped to the
/// container, the account and its endpoint, then to the container and the account.
pub proof fn sas_options_are_looked_up_in_order(
    m: Map<Seq<char>, Seq<char>>,
    container: Option<Seq<char>>,
    account: Option<Seq<char>>,
)
    ensures
        is_first_set(m, sas_names(container, account), sas_option(m, container, account)),
{
    if let (Some(c), Some(a)) = (container, account) {
        let base = "fs.azure.sas."@ + c + "."@ + a;
        let dfs = base + ".dfs.core.windows.net"@;
        let blob = base + ".blob.core.windows.net"@;
        let v0 = option_of(m, base);
        let v1 = or_else(option_of(m, blob), v0);
        lemma_first_of_one(m, base);
        lemma_first_of_more(m, blob, seq![base], v0);
        lemma_first_of_more(m, dfs, seq![blob] + seq![base], v1);
        assert(seq![dfs] + (seq![blob] + seq![base]) =~= sas_names(container, account));
    }
}

/// The account of a request: the one that its location names, or else the single one whose
/// key the options hold.
pub open spec fn is_account_of(
    m: Map<Seq<char>, Seq<char>>,
    u: Option<UrlParts>,
    account: Option<Seq<char>>,
) -> bool {
    if url_account(u) is Some {
        account == url_account(u)
    } else {
        account == single_account(m)
    }
}

/// Every Azure credential is the option that its names list first, for the account and the
/// container of the location. The tenant is the one that is given, or else the one that the
/// token endpoint names; the account name is the one that is given, or else the account
/// itself.
#[verifier::rlimit(40)]
pub proof fn azure_credentials_are_looked_up_in_order(
    m: Map<Seq<char>, Seq<char>>,
    u: Option<UrlParts>,
    c: DeltaStorageConfig,
    account: Option<Seq<char>>,
)
    requires
        c@ == config_from_options(m, u),
        is_account_of(m, u, account),
    ensures
        m.contains_key("azure_storage_account_name"@) ==> text(c.azure_account_name) == Some(
            m["azure_storage_account_name"@],
        ),
        !m.contains_key("azure_storage_account_name"@) ==> text(c.azure_account_name) == account,
        is_first_set(
            m,
            seq!["azure_storage_account_key"@] + account_names("fs.azure.account.key"@, account),
            text(c.azure_account_key),
        ),
        is_first_set(
            m,
            seq!["azure_storage_sas_key"@] + (sas_names(url_container(u), account)
                + seq!["fs.azure.sas.fixed.token"@]),
            text(c.azure_sas_token),
        ),
        is_first_set(
            m,
            account_names("fs.azure.account.oauth2.client.id"@, account),
            text(c.azure_client_id),
        ),
        is_first_set(
            m,
            account_names("fs.azure.account.oauth2.client.secret"@, account),
            text(c.azure_client_secret),
        ),
        is_first_set(
            m,
            account_names("fs.azure.account.oauth2.msi.endpoint"@, account),
            text(c.azure_msi_endpoint),
        ),
        is_first_set(
            m,
            account_names("fs.azure.account.oauth2.msi.authority"@, account),
            text(c.azure_authority_host),
        ),
        is_first_set(
            m,
            account_names("fs.azure.account.oauth2.token.file"@, account),
            text(c.azure_federated_token_file),
        ),
        forall|t: Seq<char>|
            is_first_set(
                m,
                account_names("fs.azure.account.oauth2.msi.tenant"@, account),
                Some(t),
            ) ==> text(c.azure_tenant_id) == Some(t),
        forall|e: Seq<char>|
            is_first_set(
                m,
                account_names("fs.azure.account.oauth2.msi.tenant"@, account),
                None,
            ) && #[trigger] is_first_set(
                m,
                account_names("fs.azure.account.oauth2.client.endpoint"@, account),
                Some(e),
            ) ==> text(c.azure_tenant_id) == endpoint_tenant(e),
        is_first_set(
            m,
            account_names("fs.azure.account.oauth2.msi.tenant"@, account),
            None,
        ) && is_first_set(
            m,
            account_names("fs.azure.account.oauth2.client.endpoint"@, account),
            None,
        ) ==> c.azure_tenant_id is None,
{
    let tenants = account_names("fs.azure.account.oauth2.msi.tenant"@, account);
    let tenant = account_option(m, "fs.azure.account.oauth2.msi.tenant"@, account);
    let endpoints = account_names("fs.azure.account.oauth2.client.endpoint"@, account);
    let endpoint = account_option(m, "fs.azure.account.oauth2.client.endpoint"@, account);
    account_options_are_looked_up_in_order(m, "fs.azure.account.key"@, account);
    account_options_are_looked_up_in_order(m, "fs.azure.account.oauth2.client.id"@, account);
    account_options_are_looked_up_in_order(m, "fs.azure.account.oauth2.client.secret"@, account);
    account_options_are_looked_up_in_order(m, "fs.azure.account.oauth2.msi.endpoint"@, account);
    account_options_are_looked_up_in_order(m, "fs.azure.account.oauth2.msi.authority"@, account);
    account_options_are_looked_up_in_order(m, "fs.azure.account.oauth2.token.file"@, account);
    account_options_are_looked_up_in_order(m, "fs.azure.account.oauth2.msi.tenant"@, account);
    account_options_are_looked_up_in_order(m, "fs.azure.account.oauth2.client.endpoint"@, account);
    lemma_first_of_more(
        m,
        "azure_storage_account_key"@,
        account_names("fs.azure.account.key"@, account),
        account_option(m, "fs.azure.account.key"@, account),
    );
    sas_options_are_looked_up_in_order(m, url_container(u), account);
    lemma_first_of_one(m, "fs.azure.sas.fixed.token"@);
    lemma_first_of_two_lists(
        m,
        sas_names(url_container(u), account),
        sas_option(m, url_container(u), account),
        seq!["fs.azure.sas.fixed.token"@],
        option_of(m, "fs.azure.sas.fixed.token"@),
    );
    lemma_first_of_more(
        m,
        "azure_storage_sas_key"@,
        sas_names(url_container(u), account) + seq!["fs.azure.sas.fixed.token"@],
        or_else(
            sas_option(m, url_container(u), account),
            option_of(m, "fs.azure.sas.fixed.token"@),
        ),
    );
    assert forall|t: Seq<char>| is_first_set(m, tenants, Some(t)) implies text(c.azure_tenant_id)
        == Some(t) by {
        lemma_first_set_is_unique(m, tenants, tenant, Some(t));
    }
    lemma_first_set_is_unique(m, tenants, tenant, None);
    lemma_first_set_is_unique(m, endpoints, endpoint, None);
    assert forall|e: Seq<char>|
        is_first_set(m, tenants, None) && #[trigger] is_first_set(
            m,
            endpoints,
            Some(e),
        ) implies text(c.azure_tenant_id) == endpoint_tenant(e) by {
        lemma_first_set_is_unique(m, endpoints, endpoint, Some(e));
    }
}

/// A Google Cloud credential is the option under its own name; the path of the account file
/// is the Hadoop option where that is not set.
pub proof fn google_credentials_are_looked_up_in_order(
    m: Map<Seq<char>, Seq<char>>,
    u: Option<UrlParts>,
    c: DeltaStorageConfig,
)
    requires
        c@ == config_from_options(m, u),
    ensures
        is_first_set(
            m,
            seq!["google_service_account"@, "fs.gs.auth.service.account.json.keyfile"@],
            text(c.gcs_service_account_path),
        ),
        is_first_set(m, seq!["google_service_account_key"@], text(c.gcs_service_account_key)),
{
    let file = "fs.gs.auth.service.account.json.keyfile"@;
    lemma_first_of_one(m, file);
    lemma_first_of_more(m, "google_service_account"@, seq![file], option_of(m, file));
    assert(seq!["google_service_account"@] + seq![file] =~= seq!["google_service_account"@, file]);
    lemma_first_of_one(m, "google_service_account_key"@);
}

/// The tenant that a token endpoint names is the first part of its path: behind a slash,
/// without a slash in it, not empty, and with a slash or nothing behind it.
pub proof fn the_tenant_is_the_first_part_of_the_path(path: Seq<char>, tenant: Seq<char>)
    ensures
        first_segment(path) == Some(tenant) <==> tenant.len() > 0 && !tenant.contains('/')
            && path.len() > tenant.len() && path[0] == '/' && path.subrange(
            1,
            1 + tenant.len() as int,
        ) == tenant && (path.len() > 1 + tenant.len() ==> path[1 + tenant.len() as int] == '/'),
{
    if path.len() > 0 && path[0] == '/' {
        lemma_index_from(path, '/', 1);
        let n = index_from(path, '/', 1);
        let seg = path.subrange(1, n);
        assert(!seg.contains('/')) by {
            if seg.contains('/') {
                let i = choose|i: int| 0 <= i < seg.len() && seg[i] == '/';
                assert(path[i + 1] != '/');
            }
        }
        if tenant.len() > 0 && !tenant.contains('/') && path.len() > tenant.len() && path.subrange(
            1,
            1 + tenant.len() as int,
        ) == tenant && (path.len() > 1 + tenant.len() ==> path[1 + tenant.len() as int] == '/') {
            let k = 1 + tenant.len() as int;
            if k < n {
                assert(path[k] != '/');
                assert(false);
            }
            if n < k {
                assert(tenant[n - 1] == path[n]);
                assert(tenant.contains(tenant[n - 1]));
                assert(false);
            }
        }
    }
}

/// Where there are no credentials, none is set.
pub proof fn no_credentials_are_set(c: DeltaStorageConfig)
    requires
        c@ == StorageState::empty(),
    ensures
        c.aws_access_key is None && c.aws_secret_key is None && c.aws_session_token is None,
        c.aws_region is None && c.aws_endpoint is None,
        !c.aws_force_path_style && !c.aws_requester_pays,
        c.azure_account_name is None && c.azure_account_key is None && c.azure_sas_token is None,
        c.azure_client_id is None && c.azure_client_secret is None && c.azure_tenant_id is None,
        c.azure_msi_endpoint is None && c.azure_authority_host is None
            && c.azure_federated_token_file is None,
        c.gcs_service_account_path is None && c.gcs_service_account_key is None,
{
    assert(c@.aws_access_key == text(c.aws_access_key));
}

/// The name is that of the setting.
pub open spec fn names_azure_key(name: Seq<char>, key: AzureConfigKey) -> bool {
    ||| name == "azure_storage_account_name"@ && key == AzureConfigKey::AccountName
    ||| name == "azure_storage_account_key"@ && key == AzureConfigKey::AccessKey
    ||| name == "azure_storage_sas_key"@ && key == AzureConfigKey::SasKey
    ||| name == "azure_storage_client_id"@ && key == AzureConfigKey::ClientId
    ||| name == "azure_storage_client_secret"@ && key == AzureConfigKey::ClientSecret
    ||| name == "azure_storage_tenant_id"@ && key == AzureConfigKey::AuthorityId
    ||| name == "azure_msi_endpoint"@ && key == AzureConfigKey::MsiEndpoint
    ||| name == "azure_storage_authority_host"@ && key == AzureConfigKey::AuthorityHost
    ||| name == "azure_federated_token_file"@ && key == AzureConfigKey::FederatedTokenFile
}

/// Every setting of an Azure store is found by its name again, and by no other's.
pub proof fn azure_settings_have_names_of_their_own(key: AzureConfigKey, other: AzureConfigKey)
    ensures
        names_azure_key(azure_key_name(key), key),
        names_azure_key(azure_key_name(key), other) ==> key == other,
        azure_key_name(key) == azure_key_name(other) ==> key == other,
{
    reveal_strlit("azure_storage_account_name");
    reveal_strlit("azure_storage_account_key");
    reveal_strlit("azure_storage_sas_key");
    reveal_strlit("azure_storage_client_id");
    reveal_strlit("azure_storage_client_secret");
    reveal_strlit("azure_storage_tenant_id");
    reveal_strlit("azure_msi_endpoint");
    reveal_strlit("azure_storage_authority_host");
    reveal_strlit("azure_federated_token_file");
    assert("azure_storage_account_name"@.len() == 26);
    assert("azure_storage_account_key"@.len() == 25);
    assert("azure_storage_sas_key"@.len() == 21);
    assert("azure_storage_client_id"@.len() == 23);
    assert("azure_storage_client_secret"@.len() == 27);
    assert("azure_storage_tenant_id"@.len() == 23);
    assert("azure_msi_endpoint"@.len() == 18);
    assert("azure_storage_authority_host"@.len() == 28);
    assert("azure_federated_token_file"@.len() == 26);
    assert("azure_storage_client_id"@[14] == 'c' && "azure_storage_tenant_id"@[14] == 't');
    assert("azure_storage_account_name"@[6] == 's' && "azure_federated_token_file"@[6] == 'f');
}

} // verus!
