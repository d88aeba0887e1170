//! Absolute locations of a table's data files.

use vstd::prelude::*;

use crate::text::{chars_of, concat2, concat3, ends_with};

verus! {

/// The character is an ASCII letter.
pub open spec fn is_ascii_letter(c: char) -> bool {
    ('a' <= c <= 'z') || ('A' <= c <= 'Z')
}

/// The character may stand in a URI scheme behind the first one.
pub open spec fn is_scheme_char(c: char) -> bool {
    is_ascii_letter(c) || ('0' <= c <= '9') || c == '+' || c == '-' || c == '.'
}

/// The text starts with a URI scheme: a letter, then letters, digits and
/// `+`, `-`, `.`, then a colon.
pub open spec fn uri_scheme(s: Seq<char>) -> bool {
    exists|i: int|
        1 <= i < s.len() && #[trigger] s[i] == ':' && is_ascii_letter(s[0]) && forall|j: int|
            1 <= j < i ==> is_scheme_char(#[trigger] s[j])
}

/// Whether the text starts with a URI scheme. Only the scheme is looked at, so
/// that `file:/abs` counts as well as `file:///abs`.
pub fn has_uri_scheme(s: &str) -> (r: bool)
    ensures
        r == uri_scheme(s@),
{
    let v: Vec<char> = chars_of(s);
    if v.len() == 0 {
        return false;
    }
    let c: char = v[0];
    if !((c >= 'a' && c <= 'z') || (c >= 'A' && c <= 'Z')) {
        return false;
    }
    let mut i: usize = 1;
    while i < v.len()
        invariant
            1 <= i <= v@.len(),
            v@ == s@,
            is_ascii_letter(v@[0]),
            forall|j: int| 1 <= j < i ==> is_scheme_char(#[trigger] v@[j]),
        decreases v@.len() - i,
    {
        let b: char = v[i];
        if b == ':' {
            return true;
        }
        if !((b >= 'a' && b <= 'z') || (b >= 'A' && b <= 'Z') || (b >= '0' && b <= '9') || b == '+'
            || b == '-' || b == '.') {
            proof {
                if uri_scheme(s@) {
                    let k = choose|k: int|
                        1 <= k < s@.len() && #[trigger] s@[k] == ':' && is_ascii_letter(s@[0])
                            && forall|j: int| 1 <= j < k ==> is_scheme_char(#[trigger] s@[j]);
                    if k > i {
                        assert(is_scheme_char(s@[i as int]));
                    } else if k < i {
                        assert(is_scheme_char(v@[k]));
                    }
                    assert(false);
                }
            }
            return false;
        }
        i = i + 1;
    }
    proof {
        if uri_scheme(s@) {
            let k = choose|k: int|
                1 <= k < s@.len() && #[trigger] s@[k] == ':' && is_ascii_letter(s@[0]) && forall|
                    j: int,
                |
                    1 <= j < k ==> is_scheme_char(#[trigger] s@[j]);
            assert(is_scheme_char(v@[k]));
            assert(false);
        }
    }
    false
}

/// The absolute location of a file that the table lists as `relative`.
pub open spec fn resolved(table_root: Seq<char>, relative: Seq<char>) -> Seq<char> {
    if uri_scheme(relative) {
        relative
    } else if table_root.len() > 0 && table_root.last() == '/' {
        table_root + relative
    } else {
        table_root + "/"@ + relative
    }
}

/// Joins a file path with the table root. A path that is a URI by itself stays
/// as it is.
pub fn resolve_file_path(table_root: &str, relative: &str) -> (r: String)
    ensures
        r@ == resolved(table_root@, relative@),
{
    if has_uri_scheme(relative) {
        return relative.to_owned();
    }
    proof {
        reveal_strlit("/");
    }
    if ends_with(table_root, "/") {
        assert("/"@ =~= table_root@.subrange(table_root@.len() - 1, table_root@.len() as int));
        assert(table_root@.last() == "/"@[0]);
        concat2(table_root, relative)
    } else {
        proof {
            if table_root@.len() > 0 && table_root@.last() == '/' {
                assert(table_root@.subrange(table_root@.len() - 1, table_root@.len() as int)
                    =~= "/"@);
            }
        }
        concat3(table_root, "/", relative)
    }
}

/// Resolving twice is resolving once, where the table root is a URI itself.
pub proof fn resolving_is_idempotent(table_root: Seq<char>, relative: Seq<char>)
    requires
        uri_scheme(table_root),
    ensures
        uri_scheme(resolved(table_root, relative)),
        resolved(table_root, resolved(table_root, relative)) == resolved(table_root, relative),
{
    let r = resolved(table_root, relative);
    if !uri_scheme(relative) {
        let i = choose|i: int|
            1 <= i < table_root.len() && #[trigger] table_root[i] == ':' && is_ascii_letter(
                table_root[0],
            ) && forall|j: int| 1 <= j < i ==> is_scheme_char(#[trigger] table_root[j]);
        assert(r[i] == ':');
        assert(r[0] == table_root[0]);
        assert forall|j: int| 1 <= j < i implies is_scheme_char(#[trigger] r[j]) by {
            assert(r[j] == table_root[j]);
        }
    }
}

/// Whether a text starts with a URI scheme is decided by what stands before its first colon:
/// a letter, and behind it letters, digits, `+`, `-` and `.` alone.
pub proof fn a_scheme_stands_before_the_first_colon(s: Seq<char>, k: int)
    requires
        0 <= k < s.len(),
        s[k] == ':',
        forall|j: int| 0 <= j < k ==> #[trigger] s[j] != ':',
    ensures
        uri_scheme(s) <==> {
            &&& k >= 1
            &&& 'a' <= s[0] <= 'z' || 'A' <= s[0] <= 'Z'
            &&& forall|j: int|
                1 <= j < k ==> {
                    let c = #[trigger] s[j];
                    'a' <= c <= 'z' || 'A' <= c <= 'Z' || '0' <= c <= '9' || c == '+' || c == '-'
                        || c == '.'
                }
        },
{
    if uri_scheme(s) {
        let i = choose|i: int|
            1 <= i < s.len() && #[trigger] s[i] == ':' && is_ascii_letter(s[0]) && forall|j: int|
                1 <= j < i ==> is_scheme_char(#[trigger] s[j]);
        if k == 0 {
            assert(is_ascii_letter(s[0]));
        }
        if k < i && k >= 1 {
            assert(is_scheme_char(s[k]));
        }
        assert(i == k);
        assert forall|j: int| 1 <= j < k implies is_scheme_char(#[trigger] s[j]) by {}
    }
    if k >= 1 && is_ascii_letter(s[0]) && (forall|j: int|
        1 <= j < k ==> is_scheme_char(#[trigger] s[j])) {
        assert(s[k] == ':');
    }
}

/// A text without a colon has no URI scheme.
pub proof fn no_colon_is_no_scheme(s: Seq<char>)
    requires
        forall|j: int| 0 <= j < s.len() ==> #[trigger] s[j] != ':',
    ensures
        !uri_scheme(s),
{
}

/// A path that is a URI by itself is taken as it is. Any other stands below the table's root,
/// behind one slash.
pub proof fn a_relative_path_stands_below_the_root(root: Seq<char>, relative: Seq<char>)
    ensures
        uri_scheme(relative) ==> resolved(root, relative) == relative,
        !uri_scheme(relative) ==> ({
            let r = resolved(root, relative);
            &&& root.is_prefix_of(r) && relative.is_suffix_of(r)
            &&& r.len() > relative.len() && r[r.len() - relative.len() - 1] == '/'
            &&& root.len() > 0 && root.last() == '/' ==> r.len() == root.len() + relative.len()
            &&& !(root.len() > 0 && root.last() == '/') ==> r.len() == root.len() + 1
                + relative.len()
        }),
{
    reveal_strlit("/");
    if !uri_scheme(relative) {
        let r = resolved(root, relative);
        assert(r.subrange(0, root.len() as int) =~= root);
        assert(r.subrange(r.len() - relative.len(), r.len() as int) =~= relative);
    }
}

} // verus!
