//! A callback run on a count and on every smaller number down to zero.

use vstd::prelude::*;

verus! {

/// The numbers from `n` down to `0`.
pub open spec fn countdown(n: nat) -> Seq<u64>
    decreases n,
{
    if n == 0 {
        seq![0u64]
    } else {
        seq![n as u64] + countdown((n - 1) as nat)
    }
}

/// Hands `count`, then each smaller number down to `0`, to the callback that collects
/// them in `out`.
pub fn rec_fun(out: &mut Vec<u64>, count: u64)
    ensures
        final(out)@ == old(out)@ + countdown(count as nat),
    decreases count,
{
    out.push(count);
    if count == 0 {
        assert(out@ =~= old(out)@ + countdown(0));
        return;
    }
    rec_fun(out, count - 1);
    assert(out@ =~= old(out)@ + countdown(count as nat));
}

} // verus!
