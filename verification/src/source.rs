//! Where the bytes of a file come from: plain, or through a gzip decoder.

use crate::text::to_chars;
use vstd::prelude::*;

verus! {

/// Whether a file name ends in `.gz`.
pub open spec fn gz_name(path: Seq<char>) -> bool {
    path.len() >= 3 && path.subrange(path.len() - 3, path.len() as int) == seq!['.', 'g', 'z']
}

/// Whether a file of this name is to be read through a gzip decoder: one
/// whose name ends in `.gz`.
pub fn is_gz_name(path: &str) -> (b: bool)
    ensures
        b == gz_name(path@),
{
    let chars = to_chars(path);
    let n = chars.len();
    if n < 3 {
        return false;
    }
    let b = chars[n - 3] == '.' && chars[n - 2] == 'g' && chars[n - 1] == 'z';
    proof {
        let tail = path@.subrange(n - 3, n as int);
        if b {
            assert(tail =~= seq!['.', 'g', 'z']);
        } else {
            assert(tail[0] == chars[n - 3] && tail[1] == chars[n - 2] && tail[2] == chars[n - 1]);
        }
    }
    b
}

} // verus!
