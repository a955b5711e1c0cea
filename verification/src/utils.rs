//! Small helpers of the protocol.
use crate::field::Ext;
use crate::poly::vector::powers;
use vstd::prelude::*;

verus! {

/// The powers `1, base, base^2, ..` of `base`, `len` of them.
pub fn expand_randomness(base: Ext, len: usize) -> (r: Vec<Ext>)
    ensures
        r@ == powers(base, len as nat),
{
    let mut r: Vec<Ext> = Vec::new();
    let mut cur: Ext = Ext::one();
    for i in 0..len
        invariant
            cur == base.power(i as nat),
            r@ == powers(base, i as nat),
    {
        r.push(cur);
        assert(r@ =~= powers(base, (i + 1) as nat));
        cur = base.mul(cur);
    }
    r
}

} // verus!
