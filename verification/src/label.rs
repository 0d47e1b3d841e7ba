//! Keys and edge labels as sequences of Unicode scalar values.

use vstd::prelude::*;

verus! {

/// `n` is the length of the longest common prefix of `a` and `b`: the two
/// agree on their first `n` positions, and one of them ends there or they
/// differ at position `n`.
pub(crate) open spec fn is_common_len(a: Seq<char>, b: Seq<char>, n: int) -> bool {
    &&& 0 <= n <= a.len()
    &&& n <= b.len()
    &&& forall|i: int| 0 <= i < n ==> a[i] == b[i]
    &&& (n == a.len() || n == b.len() || a[n] != b[n])
}

/// The scalar values of `s`, in order.
pub(crate) fn scalars(s: &str) -> (v: Vec<char>)
    ensures
        v@ == s@,
{
    let mut v: Vec<char> = Vec::new();
    for c in it: s.chars()
        invariant
            v@ == it.seq().take(it.index()),
            it.seq() == s@,
    {
        v.push(c);
    }
    v
}

/// A copy of the positions `from..to` of `v`.
pub(crate) fn copy_range(v: &Vec<char>, from: usize, to: usize) -> (r: Vec<char>)
    requires
        from <= to <= v.len(),
    ensures
        r@ == v@.subrange(from as int, to as int),
{
    let mut r: Vec<char> = Vec::new();
    let mut i: usize = from;
    while i < to
        invariant
            from <= i <= to <= v.len(),
            r@ == v@.subrange(from as int, i as int),
        decreases to - i,
    {
        r.push(v[i]);
        i += 1;
    }
    r
}

/// The length of the longest common prefix of `label` and of what `key`
/// holds from position `from` on.
pub(crate) fn common_prefix_len(label: &Vec<char>, key: &Vec<char>, from: usize) -> (n: usize)
    requires
        from <= key.len(),
    ensures
        is_common_len(label@, key@.skip(from as int), n as int),
{
    let rest: usize = key.len() - from;
    let mut n: usize = 0;
    while n < label.len() && n < rest && label[n] == key[from + n]
        invariant
            from <= key.len(),
            rest == key.len() - from,
            n <= label.len(),
            n <= rest,
            forall|i: int| 0 <= i < n ==> label@[i] == key@.skip(from as int)[i],
        decreases label.len() - n,
    {
        n += 1;
    }
    n
}

} // verus!
