//! Lists of lists, as the graph and the trace hold them.

use vstd::prelude::*;

verus! {

/// Two lists of lists hold the same items.
pub open spec fn same_lists<T>(a: Seq<Vec<T>>, b: Seq<Vec<T>>) -> bool {
    &&& a.len() == b.len()
    &&& forall|i: int| 0 <= i < a.len() ==> (#[trigger] a[i])@ == b[i]@
}

/// A copy of `lists`.
pub fn copy_lists<T: Copy>(lists: &Vec<Vec<T>>) -> (copy: Vec<Vec<T>>)
    ensures
        same_lists(copy@, lists@),
{
    let mut copy: Vec<Vec<T>> = Vec::new();
    let mut i: usize = 0;
    while i < lists.len()
        invariant
            i <= lists@.len(),
            copy@.len() == i,
            forall|k: int| 0 <= k < i ==> (#[trigger] copy@[k])@ == lists@[k]@,
        decreases lists@.len() - i,
    {
        let list = &lists[i];
        let mut items: Vec<T> = Vec::new();
        let mut j: usize = 0;
        while j < list.len()
            invariant
                j <= list@.len(),
                items@ == list@.take(j as int),
            decreases list@.len() - j,
        {
            items.push(list[j]);
            assert(list@.take(j + 1) == list@.take(j as int).push(list@[j as int]));
            j += 1;
        }
        assert(list@.take(j as int) == list@);
        copy.push(items);
        i += 1;
    }
    copy
}

} // verus!
