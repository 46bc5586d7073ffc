//! Path arithmetic for the dump layout: joining a directory onto a base
//! and naming one test case's files.

use vstd::prelude::*;

use crate::text::dec_of;
use crate::text::dec_str;

verus! {

/// Joining a relative path onto a base: one separator between them, none
/// added after an empty base or a base that already ends in one.
pub open spec fn join_spec(base: Seq<char>, rest: Seq<char>) -> Seq<char> {
    if base.len() == 0 {
        rest
    } else if base[base.len() - 1] == '/' {
        base + rest
    } else {
        base + ("/")@ + rest
    }
}

/// Computes [`join_spec`].
pub fn join_dir(base: &str, rest: &str) -> (r: String)
    ensures
        r@ == join_spec(base@, rest@),
{
    let n = base.unicode_len();
    let mut r = base.to_owned();
    if n > 0 && base.get_char(n - 1) != '/' {
        r.append("/");
    }
    r.append(rest);
    proof {
        assert(r@ =~= join_spec(base@, rest@));
    }
    r
}

/// The on-disk name of one test-case file: `{dir}/{id}.{ext}`, with the
/// test number rendered in decimal.
pub fn test_file_path(dir: &str, id: usize, ext: &str) -> (r: String)
    ensures
        r@ == join_spec(dir@, dec_of(id as nat) + (".")@ + ext@),
{
    let mut name = dec_str(id);
    name.append(".");
    name.append(ext);
    let r = join_dir(dir, name.as_str());
    proof {
        assert(name@ =~= dec_of(id as nat) + (".")@ + ext@);
    }
    r
}

} // verus!
