//! Tilde expansion for user-supplied paths.

use vstd::prelude::*;
use vstd::string::StrSliceExecFns;
use vstd::string::StringExecFns;

verus! {

/// The path with a leading `~` replaced by the home directory, when one is
/// known; otherwise the path unchanged.
pub open spec fn expand_tilde_spec(p: Seq<char>, home: Option<Seq<char>>) -> Seq<char> {
    if p.len() > 0 && p[0] == '~' && home is Some {
        home->Some_0 + p.skip(1)
    } else {
        p
    }
}

/// Expand a leading `~` in `path` to `home`, when a home directory is known.
pub fn expand_tilde(path: &str, home: Option<&String>) -> (r: String)
    ensures
        r@ == expand_tilde_spec(path@, match home {
            Option::Some(h) => Option::Some(h@),
            Option::None => Option::None,
        }),
{
    let n = path.unicode_len();
    if n > 0 && path.get_char(0) == '~' {
        if let Option::Some(h) = home {
            let mut out = h.clone();
            out.append(path.substring_char(1, n));
            return out;
        }
    }
    path.to_owned()
}

} // verus!
