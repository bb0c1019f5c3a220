//! Lists.

use vstd::prelude::*;

verus! {

/// The items in opposite order.
pub fn reversed<T>(items: Vec<T>) -> (r: Vec<T>)
    ensures
        r@ == items@.reverse(),
{
    let mut rest: Vec<T> = items;
    let mut r: Vec<T> = Vec::new();
    let ghost whole = items@.reverse();
    assert(r@ + rest@.reverse() =~= whole);
    while rest.len() > 0
        invariant
            r@ + rest@.reverse() == whole,
        decreases rest@.len(),
    {
        let ghost before = rest@;
        let ghost done = r@;
        let item = rest.pop().unwrap();
        r.push(item);
        proof {
            assert(before.reverse() =~= seq![item] + rest@.reverse());
            assert(r@ + rest@.reverse() =~= done + before.reverse());
        }
    }
    assert(r@ =~= whole);
    r
}

/// A copy of the items.
pub fn copied<T: Copy>(items: &[T]) -> (r: Vec<T>)
    ensures
        r@ == items@,
{
    let mut r: Vec<T> = Vec::new();
    push_copies(&mut r, items);
    assert(r@ =~= items@);
    r
}

/// Appends copies of the items.
pub fn push_copies<T: Copy>(out: &mut Vec<T>, items: &[T])
    ensures
        final(out)@ == old(out)@ + items@,
{
    let mut i: usize = 0;
    assert(out@ =~= old(out)@ + items@.take(0));
    while i < items.len()
        invariant
            i <= items@.len(),
            out@ == old(out)@ + items@.take(i as int),
        decreases items@.len() - i,
    {
        out.push(items[i]);
        i = i + 1;
        assert(out@ =~= old(out)@ + items@.take(i as int));
    }
    assert(items@.take(i as int) =~= items@);
}

} // verus!
