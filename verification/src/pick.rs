use vstd::prelude::*;

verus! {

/// `runs[k]` is the last of the longest runs.
pub open spec fn last_longest<T>(runs: Seq<Vec<T>>, k: int) -> bool {
    &&& 0 <= k < runs.len()
    &&& forall|i: int| 0 <= i < runs.len() ==> #[trigger] runs[i].len() <= runs[k].len()
    &&& forall|i: int| k < i < runs.len() ==> #[trigger] runs[i].len() < runs[k].len()
}

/// The run that placed the most items, the last one where several tie; empty when there are
/// no runs. How the packers keep the best of their attempts.
pub fn most_placed<T>(runs: Vec<Vec<T>>) -> (r: Vec<T>)
    ensures
        runs.len() == 0 ==> r@ == Seq::<T>::empty(),
        runs.len() > 0 ==> exists|k: int| last_longest(runs@, k) && r == runs@[k],
{
    let n = runs.len();
    if n == 0 {
        return Vec::new();
    }
    let mut k: usize = 0;
    let mut i: usize = 1;
    while i < n
        invariant
            n == runs.len(),
            1 <= i <= n,
            k < i,
            forall|x: int| 0 <= x < i ==> #[trigger] runs@[x].len() <= runs@[k as int].len(),
            forall|x: int| k < x < i ==> #[trigger] runs@[x].len() < runs@[k as int].len(),
        decreases n - i,
    {
        if runs[i].len() >= runs[k].len() {
            k = i;
        }
        i += 1;
    }
    let mut runs = runs;
    let ghost all = runs@;
    let r = runs.swap_remove(k);
    assert(last_longest(all, k as int));
    r
}

}
