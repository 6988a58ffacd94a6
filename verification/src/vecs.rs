//! Small helpers on vectors.

use vstd::prelude::*;

verus! {

/// The same items in the opposite order.
pub fn reversed<T>(items: Vec<T>) -> (res: Vec<T>)
    ensures
        res@ == items@.reverse(),
{
    let ghost all = items@;
    let mut items = items;
    let mut res: Vec<T> = Vec::new();
    while items.len() > 0
        invariant
            items@.len() <= all.len(),
            items@ == all.take(items@.len() as int),
            res@ == all.reverse().take(all.len() - items@.len()),
        decreases items.len(),
    {
        let ghost before = items@;
        let item = items.pop().unwrap();
        res.push(item);
        proof {
            assert(items@ =~= all.take(items@.len() as int));
            assert(res@ =~= all.reverse().take(all.len() - items@.len()));
        }
    }
    proof {
        assert(res@ =~= all.reverse());
    }
    res
}

/// Adds `bytes` to the end of `out`.
pub fn extend(out: &mut Vec<u8>, bytes: &[u8])
    ensures
        final(out)@ == old(out)@ + bytes@,
{
    let ghost start = out@;
    let mut i: usize = 0;
    assert(out@ =~= start + bytes@.take(0));
    while i < bytes.len()
        invariant
            i <= bytes.len(),
            out@ == start + bytes@.take(i as int),
        decreases bytes.len() - i,
    {
        out.push(bytes[i]);
        assert(out@ =~= start + bytes@.take(i + 1));
        i += 1;
    }
    assert(bytes@.take(bytes.len() as int) =~= bytes@);
}

} // verus!
