//! File paths as document URIs.
use vstd::prelude::*;
use vstd::string::{StrSliceExecFns, StringExecFns};

verus! {

pub open spec fn file_scheme() -> Seq<char> {
    "file://"@
}

/// The URI of a file: a path that already starts with `file://` is kept as
/// it is, any other is prefixed with it.
pub open spec fn file_uri(path: Seq<char>) -> Seq<char> {
    if path.len() >= file_scheme().len() && path.subrange(0, file_scheme().len() as int)
        == file_scheme() {
        path
    } else {
        file_scheme() + path
    }
}

pub fn file_path_to_uri(file_path: &str) -> (r: String)
    ensures
        r@ == file_uri(file_path@),
{
    let scheme = "file://";
    proof {
        reveal_strlit("file://");
    }
    let n = file_path.unicode_len();
    let m = scheme.unicode_len();
    let mut prefixed = n >= m;
    let mut k: usize = 0;
    while prefixed && k < m
        invariant
            m == file_scheme().len(),
            scheme@ == file_scheme(),
            n == file_path@.len(),
            k <= m,
            prefixed ==> n >= m && file_path@.subrange(0, k as int) =~= file_scheme().subrange(0, k as int),
            !prefixed ==> !(n >= m && file_path@.subrange(0, m as int) == file_scheme()),
        decreases m - k + (if prefixed { 1int } else { 0int }),
    {
        if file_path.get_char(k) != scheme.get_char(k) {
            assert(file_path@.subrange(0, m as int)[k as int] != file_scheme()[k as int]);
            prefixed = false;
        } else {
            k = k + 1;
        }
    }
    if prefixed {
        assert(file_scheme().subrange(0, m as int) =~= file_scheme());
        file_path.to_owned()
    } else {
        let mut r = String::from_str(scheme);
        r.append(file_path);
        r
    }
}

} // verus!
