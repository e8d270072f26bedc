//! Small searches through vectors.

use vstd::prelude::*;

verus! {

/// The last position at which `x` stands in `items`.
pub(crate) fn rposition(items: &Vec<usize>, x: usize) -> (r: Option<usize>)
    ensures
        match r {
            Some(p) => {
                &&& p < items@.len()
                &&& items@[p as int] == x
                &&& forall|j: int| p < j < items@.len() ==> #[trigger] items@[j] != x
            },
            None => !items@.contains(x),
        },
{
    let mut i: usize = items.len();
    while i > 0
        invariant
            i <= items@.len(),
            forall|j: int| i <= j < items@.len() ==> #[trigger] items@[j] != x,
        decreases i,
    {
        i = i - 1;
        if items[i] == x {
            return Some(i);
        }
    }
    None
}

/// Whether two vectors hold the same numbers in the same order.
pub(crate) fn same_items(a: &Vec<usize>, b: &Vec<usize>) -> (r: bool)
    ensures
        r == (a@ == b@),
{
    if a.len() != b.len() {
        return false;
    }
    let mut i: usize = 0;
    while i < a.len()
        invariant
            i <= a@.len(),
            a@.len() == b@.len(),
            forall|j: int| 0 <= j < i ==> #[trigger] a@[j] == b@[j],
        decreases a@.len() - i,
    {
        if a[i] != b[i] {
            return false;
        }
        i = i + 1;
    }
    assert(a@ =~= b@);
    true
}

} // verus!
