//! Storage credentials as a text that can be logged: no secret is in it.

use vstd::prelude::*;

use crate::delta::location::text;
use crate::delta::storage::{DeltaStorageConfig, StorageState};

verus! {

/// How an optional text reads when it is written out for a developer.
pub uninterp spec fn debug_of(o: Option<Seq<char>>) -> Seq<char>;

/// `format!` with `{:?}` on an optional text: the text in quotes and escaped, in
/// `Some`, or `None`.
#[verifier::external_body]
fn debug_option(o: &Option<String>) -> (s: String)
    ensures
        s@ == debug_of(text(*o)),
{
    format!("{:?}", o)
}

/// How a secret reads: whether it is set, and nothing else.
pub open spec fn redacted(o: Option<Seq<char>>) -> Seq<char> {
    match o {
        Some(_) => "\"<set>\""@,
        None => "\"None\""@,
    }
}

/// How a flag reads.
pub open spec fn debug_flag(b: bool) -> Seq<char> {
    if b {
        "true"@
    } else {
        "false"@
    }
}

/// The fields in order, each with how its value reads.
pub open spec fn debug_fields(c: StorageState) -> Seq<(Seq<char>, Seq<char>)> {
    seq![
        ("aws_access_key"@, redacted(c.aws_access_key)),
        ("aws_secret_key"@, redacted(c.aws_secret_key)),
        ("aws_session_token"@, redacted(c.aws_session_token)),
        ("aws_region"@, debug_of(c.aws_region)),
        ("aws_endpoint"@, debug_of(c.aws_endpoint)),
        ("aws_force_path_style"@, debug_flag(c.aws_force_path_style)),
        ("aws_requester_pays"@, debug_flag(c.aws_requester_pays)),
        ("azure_account_name"@, debug_of(c.azure_account_name)),
        ("azure_account_key"@, redacted(c.azure_account_key)),
        ("azure_sas_token"@, redacted(c.azure_sas_token)),
        ("azure_client_id"@, debug_of(c.azure_client_id)),
        ("azure_client_secret"@, redacted(c.azure_client_secret)),
        ("azure_tenant_id"@, debug_of(c.azure_tenant_id)),
        ("azure_msi_endpoint"@, debug_of(c.azure_msi_endpoint)),
        ("azure_authority_host"@, debug_of(c.azure_authority_host)),
        ("azure_federated_token_file"@, debug_of(c.azure_federated_token_file)),
        ("gcs_service_account_path"@, debug_of(c.gcs_service_account_path)),
        ("gcs_service_account_key"@, redacted(c.gcs_service_account_key)),
    ]
}

/// Fields with their values, separated by commas.
pub open spec fn joined_fields(fields: Seq<(Seq<char>, Seq<char>)>) -> Seq<char>
    decreases fields.len(),
{
    if fields.len() == 0 {
        Seq::empty()
    } else {
        let one = fields.last().0 + ": "@ + fields.last().1;
        if fields.len() == 1 {
            one
        } else {
            joined_fields(fields.drop_last()) + ", "@ + one
        }
    }
}

/// The credentials as a text for a developer.
pub open spec fn debug_text(c: StorageState) -> Seq<char> {
    "DeltaStorageConfig { "@ + joined_fields(debug_fields(c)) + " }"@
}

fn redact(o: &Option<String>) -> (s: String)
    ensures
        s@ == redacted(text(*o)),
{
    match o {
        Some(_) => "\"<set>\"".to_owned(),
        None => "\"None\"".to_owned(),
    }
}

fn flag_text(b: bool) -> (s: String)
    ensures
        s@ == debug_flag(b),
{
    if b {
        "true".to_owned()
    } else {
        "false".to_owned()
    }
}

/// Fields as mathematical values.
pub open spec fn field_views(v: Seq<(&'static str, String)>) -> Seq<(Seq<char>, Seq<char>)> {
    Seq::new(v.len(), |i: int| (v[i].0@, v[i].1@))
}

fn join_fields(v: &Vec<(&'static str, String)>) -> (s: String)
    ensures
        s@ == joined_fields(field_views(v@)),
{
    let ghost all = field_views(v@);
    let mut s: String = "".to_owned();
    let mut i: usize = 0;
    proof {
        reveal_strlit("");
        assert(s@ =~= joined_fields(all.take(0)));
    }
    while i < v.len()
        invariant
            i <= v.len(),
            all == field_views(v@),
            s@ == joined_fields(all.take(i as int)),
        decreases v.len() - i,
    {
        let ghost before = s@;
        if i > 0 {
            s.append(", ");
        }
        s.append(v[i].0);
        s.append(": ");
        s.append(v[i].1.as_str());
        proof {
            let next = all.take(i + 1);
            assert(next.drop_last() =~= all.take(i as int));
            assert(next.last() == (v@[i as int].0@, v@[i as int].1@));
            let one = next.last().0 + ": "@ + next.last().1;
            if i > 0 {
                assert(s@ =~= before + ", "@ + one);
            } else {
                assert(before =~= Seq::<char>::empty());
                assert(s@ =~= one);
            }
        }
        i = i + 1;
    }
    assert(all.take(v.len() as int) =~= all);
    s
}

impl DeltaStorageConfig {
    /// The credentials as a text for a developer: a secret reads as set or not,
    /// what is no secret is written out.
    pub fn debug_string(&self) -> (s: String)
        ensures
            s@ == debug_text(self@),
    {
        let mut v: Vec<(&'static str, String)> = Vec::new();
        v.push(("aws_access_key", redact(&self.aws_access_key)));
        v.push(("aws_secret_key", redact(&self.aws_secret_key)));
        v.push(("aws_session_token", redact(&self.aws_session_token)));
        v.push(("aws_region", debug_option(&self.aws_region)));
        v.push(("aws_endpoint", debug_option(&self.aws_endpoint)));
        v.push(("aws_force_path_style", flag_text(self.aws_force_path_style)));
        v.push(("aws_requester_pays", flag_text(self.aws_requester_pays)));
        v.push(("azure_account_name", debug_option(&self.azure_account_name)));
        v.push(("azure_account_key", redact(&self.azure_account_key)));
        v.push(("azure_sas_token", redact(&self.azure_sas_token)));
        v.push(("azure_client_id", debug_option(&self.azure_client_id)));
        v.push(("azure_client_secret", redact(&self.azure_client_secret)));
        v.push(("azure_tenant_id", debug_option(&self.azure_tenant_id)));
        v.push(("azure_msi_endpoint", debug_option(&self.azure_msi_endpoint)));
        v.push(("azure_authority_host", debug_option(&self.azure_authority_host)));
        v.push(("azure_federated_token_file", debug_option(&self.azure_federated_token_file)));
        v.push(("gcs_service_account_path", debug_option(&self.gcs_service_account_path)));
        v.push(("gcs_service_account_key", redact(&self.gcs_service_account_key)));
        assert(field_views(v@) =~= debug_fields(self@));
        let mut s: String = "DeltaStorageConfig { ".to_owned();
        let fields: String = join_fields(&v);
        s.append(fields.as_str());
        s.append(" }");
        s
    }
}

/// The two differ in the values of secrets alone.
pub open spec fn same_but_for_secrets(a: StorageState, b: StorageState) -> bool {
    &&& a.aws_access_key is Some == b.aws_access_key is Some
    &&& a.aws_secret_key is Some == b.aws_secret_key is Some
    &&& a.aws_session_token is Some == b.aws_session_token is Some
    &&& a.azure_account_key is Some == b.azure_account_key is Some
    &&& a.azure_sas_token is Some == b.azure_sas_token is Some
    &&& a.azure_client_secret is Some == b.azure_client_secret is Some
    &&& a.gcs_service_account_key is Some == b.gcs_service_account_key is Some
    &&& b == (StorageState {
        aws_access_key: b.aws_access_key,
        aws_secret_key: b.aws_secret_key,
        aws_session_token: b.aws_session_token,
        azure_account_key: b.azure_account_key,
        azure_sas_token: b.azure_sas_token,
        azure_client_secret: b.azure_client_secret,
        gcs_service_account_key: b.gcs_service_account_key,
        ..a
    })
}

/// The text for a developer does not depend on the value of any secret: whoever
/// reads it learns of each whether it is set, and nothing else.
pub proof fn debug_text_tells_no_secret(a: StorageState, b: StorageState)
    requires
        same_but_for_secrets(a, b),
    ensures
        debug_text(a) == debug_text(b),
{
    assert(debug_fields(a) =~= debug_fields(b));
}

/// A text stands somewhere in another.
pub open spec fn stands_in(part: Seq<char>, whole: Seq<char>) -> bool {
    exists|i: int|
        0 <= i && i + part.len() <= whole.len() && #[trigger] whole.subrange(i, i + part.len())
            == part
}

proof fn lemma_stands_in_more(part: Seq<char>, a: Seq<char>, whole: Seq<char>, b: Seq<char>)
    requires
        stands_in(part, whole),
    ensures
        stands_in(part, a + whole + b),
{
    let i = choose|i: int|
        0 <= i && i + part.len() <= whole.len() && #[trigger] whole.subrange(i, i + part.len())
            == part;
    let w = a + whole + b;
    let k = a.len() + i;
    assert(w.subrange(k, k + part.len()) =~= whole.subrange(i, i + part.len()));
}

proof fn lemma_field_stands(fields: Seq<(Seq<char>, Seq<char>)>, k: int)
    requires
        0 <= k < fields.len(),
    ensures
        stands_in(fields[k].0 + ": "@ + fields[k].1, joined_fields(fields)),
    decreases fields.len(),
{
    let n = fields.len() - 1;
    let one = fields[n].0 + ": "@ + fields[n].1;
    let all = joined_fields(fields);
    let none = Seq::<char>::empty();
    if k == n {
        assert(one.subrange(0int, 0int + one.len()) =~= one);
        assert(stands_in(one, one));
        if n > 0 {
            let before = joined_fields(fields.drop_last()) + ", "@;
            lemma_stands_in_more(one, before, one, none);
            assert(before + one + none =~= all);
        }
    } else {
        let t = fields.drop_last();
        lemma_field_stands(t, k);
        assert(t[k] == fields[k]);
        let rest = ", "@ + one;
        lemma_stands_in_more(
            fields[k].0 + ": "@ + fields[k].1,
            none,
            joined_fields(t),
            rest,
        );
        assert(none + joined_fields(t) + rest =~= all);
    }
}

/// The text for a developer tells what is no secret under its name: the regions, endpoints,
/// names and flags that are set, as they are. Of each secret it tells whether it is set.
pub proof fn debug_text_tells_what_is_no_secret(c: DeltaStorageConfig)
    ensures
        ({
            let t = debug_text(c@);
            &&& stands_in("aws_region"@ + ": "@ + debug_of(text(c.aws_region)), t)
            &&& stands_in("aws_endpoint"@ + ": "@ + debug_of(text(c.aws_endpoint)), t)
            &&& stands_in("azure_account_name"@ + ": "@ + debug_of(text(c.azure_account_name)), t)
            &&& stands_in("azure_client_id"@ + ": "@ + debug_of(text(c.azure_client_id)), t)
            &&& stands_in("azure_tenant_id"@ + ": "@ + debug_of(text(c.azure_tenant_id)), t)
            &&& stands_in("azure_msi_endpoint"@ + ": "@ + debug_of(text(c.azure_msi_endpoint)), t)
            &&& stands_in(
                "azure_authority_host"@ + ": "@ + debug_of(text(c.azure_authority_host)),
                t,
            )
            &&& stands_in(
                "azure_federated_token_file"@ + ": "@ + debug_of(
                    text(c.azure_federated_token_file),
                ),
                t,
            )
            &&& stands_in(
                "gcs_service_account_path"@ + ": "@ + debug_of(text(c.gcs_service_account_path)),
                t,
            )
            &&& c.aws_force_path_style ==> stands_in("aws_force_path_style"@ + ": "@ + "true"@, t)
            &&& !c.aws_force_path_style ==> stands_in("aws_force_path_style"@ + ": "@ + "false"@, t)
            &&& c.aws_requester_pays ==> stands_in("aws_requester_pays"@ + ": "@ + "true"@, t)
            &&& !c.aws_requester_pays ==> stands_in("aws_requester_pays"@ + ": "@ + "false"@, t)
            &&& c.aws_access_key is Some ==> stands_in(
                "aws_access_key"@ + ": "@ + "\"<set>\""@,
                t,
            )
            &&& c.aws_secret_key is Some ==> stands_in(
                "aws_secret_key"@ + ": "@ + "\"<set>\""@,
                t,
            )
            &&& c.aws_session_token is Some ==> stands_in(
                "aws_session_token"@ + ": "@ + "\"<set>\""@,
                t,
            )
            &&& c.azure_account_key is Some ==> stands_in(
                "azure_account_key"@ + ": "@ + "\"<set>\""@,
                t,
            )
            &&& c.azure_sas_token is Some ==> stands_in(
                "azure_sas_token"@ + ": "@ + "\"<set>\""@,
                t,
            )
            &&& c.azure_client_secret is Some ==> stands_in(
                "azure_client_secret"@ + ": "@ + "\"<set>\""@,
                t,
            )
            &&& c.gcs_service_account_key is Some ==> stands_in(
                "gcs_service_account_key"@ + ": "@ + "\"<set>\""@,
                t,
            )
        }),
{
    let fields = debug_fields(c@);
    let t = debug_text(c@);
    assert forall|k: int| 0 <= k < fields.len() implies stands_in(
        (#[trigger] fields[k]).0 + ": "@ + fields[k].1,
        t,
    ) by {
        lemma_field_stands(fields, k);
        lemma_stands_in_more(
            fields[k].0 + ": "@ + fields[k].1,
            "DeltaStorageConfig { "@,
            joined_fields(fields),
            " }"@,
        );
    }
    assert(fields[0].0 == "aws_access_key"@ && fields[1].0 == "aws_secret_key"@ && fields[2].0
        == "aws_session_token"@ && fields[3].0 == "aws_region"@ && fields[4].0 == "aws_endpoint"@
        && fields[5].0 == "aws_force_path_style"@ && fields[6].0 == "aws_requester_pays"@);
    assert(fields[7].0 == "azure_account_name"@ && fields[8].0 == "azure_account_key"@
        && fields[9].0 == "azure_sas_token"@ && fields[10].0 == "azure_client_id"@ && fields[11].0
        == "azure_client_secret"@ && fields[12].0 == "azure_tenant_id"@ && fields[13].0
        == "azure_msi_endpoint"@);
    assert(fields[14].0 == "azure_authority_host"@ && fields[15].0
        == "azure_federated_token_file"@ && fields[16].0 == "gcs_service_account_path"@
        && fields[17].0 == "gcs_service_account_key"@);
}

} // verus!
