//! Paths as text: components joined by `/`.

use vstd::prelude::*;
use vstd::string::StringExecFns;
use vstd::string::StrSliceExecFns;

verus! {

/// `rel` under the directory `base`: the two joined by one `/`, unless
/// `base` is empty or ends in `/` already.
pub open spec fn spec_join(base: Seq<char>, rel: Seq<char>) -> Seq<char> {
    if base.len() == 0 || base.last() == '/' {
        base + rel
    } else {
        base + seq!['/'] + rel
    }
}

/// Whether two texts are the same.
pub fn same_text(a: &str, b: &str) -> (same: bool)
    ensures
        same == (a@ == b@),
{
    let x = a.to_owned();
    let y = b.to_owned();
    x == y
}

/// `rel` under the directory `base`.
pub fn join_path(base: &str, rel: &str) -> (path: String)
    ensures
        path@ == spec_join(base@, rel@),
{
    let mut path = base.to_owned();
    let len = base.unicode_len();
    let bare = len == 0 || base.get_char(len - 1) == '/';
    if !bare {
        proof {
            reveal_strlit("/");
        }
        path.append("/");
        assert("/"@ =~= seq!['/']);
    }
    path.append(rel);
    path
}

} // verus!
