use vstd::prelude::*;

verus! {

/// `f(0), f(1), ..., f(n - 1)`, in order, computed one after another.
pub fn map_range<R>(n: usize, f: impl Fn(usize) -> R) -> (v: Vec<R>)
    requires
        forall|i: usize| i < n ==> f.requires((i,)),
    ensures
        v.len() == n,
        forall|i: int| 0 <= i < n ==> f.ensures((i as usize,), #[trigger] v@[i]),
{
    let mut v: Vec<R> = Vec::new();
    let mut i: usize = 0;
    while i < n
        invariant
            i <= n,
            v.len() == i,
            forall|j: usize| j < n ==> f.requires((j,)),
            forall|j: int| 0 <= j < i ==> f.ensures((j as usize,), #[trigger] v@[j]),
        decreases n - i,
    {
        let r = f(i);
        v.push(r);
        i += 1;
    }
    v
}

/// `f` applied to each item, in order, computed one after another.
pub fn map_slice<T, R>(items: &[T], f: impl Fn(&T) -> R) -> (v: Vec<R>)
    requires
        forall|i: int| 0 <= i < items@.len() ==> f.requires((&items@[i],)),
    ensures
        v.len() == items@.len(),
        forall|i: int| 0 <= i < items@.len() ==> f.ensures((&items@[i],), #[trigger] v@[i]),
{
    let mut v: Vec<R> = Vec::new();
    let mut i: usize = 0;
    while i < items.len()
        invariant
            i <= items@.len(),
            v.len() == i,
            forall|j: int| 0 <= j < items@.len() ==> f.requires((&items@[j],)),
            forall|j: int| 0 <= j < i ==> f.ensures((&items@[j],), #[trigger] v@[j]),
        decreases items@.len() - i,
    {
        let r = f(&items[i]);
        v.push(r);
        i += 1;
    }
    v
}

}
