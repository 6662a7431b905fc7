//! Small helpers over vectors.

use vstd::prelude::*;

verus! {

/// A copy of `v`.
pub fn copied<T: Copy>(v: &Vec<T>) -> (copy: Vec<T>)
    ensures
        copy@ == v@,
{
    copied_range(v, 0, v.len())
}

/// A copy of what stands in `v` from `from` to `to`.
pub fn copied_range<T: Copy>(v: &Vec<T>, from: usize, to: usize) -> (copy: Vec<T>)
    requires
        from <= to <= v.len(),
    ensures
        copy@ == v@.subrange(from as int, to as int),
{
    let mut copy: Vec<T> = Vec::new();
    let mut i: usize = from;
    while i < to
        invariant
            from <= i <= to <= v.len(),
            copy@ == v@.subrange(from as int, i as int),
        decreases to - i,
    {
        copy.push(v[i]);
        i = i + 1;
        assert(v@.subrange(from as int, i as int) =~= v@.subrange(from as int, i - 1).push(
            v@[i - 1],
        ));
    }
    copy
}

/// A copy of a list of strings.
pub fn copied_strings(v: &Vec<String>) -> (copy: Vec<String>)
    ensures
        copy@ == v@,
{
    let mut copy: Vec<String> = Vec::new();
    for i in 0..v.len()
        invariant
            copy@ == v@.take(i as int),
    {
        copy.push(v[i].clone());
        assert(copy@ =~= v@.take(i + 1));
    }
    assert(v@.take(v.len() as int) =~= v@);
    copy
}

} // verus!
