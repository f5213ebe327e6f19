//! Counting the lines of a text.

use vstd::prelude::*;
use vstd::string::StringSliceAdditionalSpecFns;

verus! {

/// The byte that ends a line.
pub const LINE_FEED: u8 = 10;

/// Number of lines in `bytes`: the number of line feeds among them. What
/// follows the last line feed is no line.
pub open spec fn terminators(bytes: Seq<u8>) -> nat
    decreases bytes.len(),
{
    if bytes.len() == 0 {
        0
    } else {
        terminators(bytes.drop_last()) + if bytes.last() == LINE_FEED {
            1nat
        } else {
            0nat
        }
    }
}

/// Counts the lines of `content`: its line feeds.
pub fn count_lines(content: &str) -> (n: usize)
    ensures
        n == terminators(content.spec_bytes()),
{
    let bytes = content.as_bytes();
    let len: usize = bytes.len();
    let mut n: usize = 0;
    let mut i: usize = 0;
    while i < len
        invariant
            len == bytes@.len(),
            i <= len,
            n <= i,
            n == terminators(bytes@.take(i as int)),
        decreases len - i,
    {
        proof {
            assert(bytes@.take(i + 1).drop_last() =~= bytes@.take(i as int));
        }
        if bytes[i] == LINE_FEED {
            n = n + 1;
        }
        i = i + 1;
    }
    proof {
        assert(bytes@.take(len as int) =~= bytes@);
    }
    n
}

} // verus!
