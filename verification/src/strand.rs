//! The strand of a feature and the order that it gives to a list of blocks.
//!
//! Blocks are written on a line in ascending genomic order. A transcript on
//! the minus strand runs the other way, so its first exon is the last block.
//! Every list of exons in this library is kept in transcript order; this
//! module holds the one step that turns one order into the other.

use vstd::prelude::*;

verus! {

/// Whether a strand field names the minus strand. Any other text is read as
/// the plus strand.
pub open spec fn minus_strand(strand: Seq<char>) -> bool {
    strand == seq!['-']
}

/// `s` as it stands on the plus strand, back to front on the minus strand.
/// The step is its own inverse.
pub open spec fn oriented<T>(s: Seq<T>, minus: bool) -> Seq<T> {
    if minus {
        s.reverse()
    } else {
        s
    }
}

/// Decides [`minus_strand`].
pub fn is_minus(strand: &str) -> (b: bool)
    ensures
        b == minus_strand(strand@),
{
    if strand.unicode_len() != 1 {
        return false;
    }
    let c = strand.get_char(0);
    assert(strand@ =~= seq![c]);
    c == '-'
}

/// Puts a list given in genomic order into transcript order, or back.
pub fn orient<T>(v: Vec<T>, minus: bool) -> (r: Vec<T>)
    ensures
        r@ == oriented(v@, minus),
{
    if !minus {
        return v;
    }
    let ghost whole = v@;
    let mut rest = v;
    let mut out: Vec<T> = Vec::new();
    while rest.len() > 0
        invariant
            rest.len() + out.len() == whole.len(),
            rest@ == whole.take(rest.len() as int),
            forall|k: int| 0 <= k < out.len() ==> out[k] == whole[whole.len() - 1 - k],
        decreases rest.len(),
    {
        let x = rest.pop().unwrap();
        out.push(x);
    }
    assert(out@ =~= whole.reverse());
    out
}

/// Turning a list round twice gives the list back.
pub proof fn oriented_twice<T>(s: Seq<T>, minus: bool)
    ensures
        oriented(oriented(s, minus), minus) == s,
{
    assert(oriented(oriented(s, minus), minus) =~= s);
}

} // verus!
