//! Bubble sort with the early exit on a pass without swaps, returning a
//! sorted copy of its input with exactly the same elements.
use vstd::prelude::*;
use vstd::seq_lib::group_to_multiset_ensures;
use vstd::seq_lib::to_multiset_update;

verus! {

pub open spec fn sorted(s: Seq<i32>) -> bool {
    forall|i: int, j: int| 0 <= i <= j < s.len() ==> s[i] <= s[j]
}

fn copy_all(src: &Vec<i32>) -> (out: Vec<i32>)
    ensures
        out@ == src@,
{
    let n = src.len();
    let mut out: Vec<i32> = Vec::new();
    let mut i: usize = 0;
    while i < n
        invariant
            n == src@.len(),
            0 <= i <= n,
            out@ == src@.subrange(0, i as int),
        decreases n - i,
    {
        out.push(src[i]);
        proof {
            assert(out@ =~= src@.subrange(0, i + 1));
        }
        i += 1;
    }
    proof {
        assert(src@.subrange(0, n as int) =~= src@);
    }
    out
}

pub fn bubble_sort(arr: Vec<i32>) -> (r: Vec<i32>)
    ensures
        sorted(r@),
        r@.to_multiset() == arr@.to_multiset(),
{
    let mut a = copy_all(&arr);
    let n = a.len();
    if n == 0 {
        return a;
    }
    let mut i: usize = 0;
    while i < n
        invariant
            n == a@.len() == arr@.len(),
            0 <= i <= n,
            a@.to_multiset() == arr@.to_multiset(),
            forall|p: int, q: int| n - i <= p <= q < n ==> a@[p] <= a@[q],
            forall|p: int, q: int| 0 <= p < n - i <= q < n ==> a@[p] <= a@[q],
        decreases n - i,
    {
        let mut swapped = false;
        let mut j: usize = 0;
        while j + 1 < n - i
            invariant
                n == a@.len() == arr@.len(),
                0 <= i < n,
                0 <= j <= n - i - 1,
                a@.to_multiset() == arr@.to_multiset(),
                forall|p: int, q: int| n - i <= p <= q < n ==> a@[p] <= a@[q],
                forall|p: int, q: int| 0 <= p < n - i <= q < n ==> a@[p] <= a@[q],
                forall|p: int| 0 <= p <= j ==> a@[p] <= a@[j as int],
                !swapped ==> forall|p: int, q: int| 0 <= p <= q <= j ==> a@[p] <= a@[q],
            decreases n - i - j,
        {
            if a[j] > a[j + 1] {
                let ghost before = a@;
                let x: i32 = a[j];
                let y: i32 = a[j + 1];
                a[j] = y;
                a[j + 1] = x;
                swapped = true;
                proof {
                    broadcast use group_to_multiset_ensures;

                    assert(before.contains(x));
                    assert(before.update(j as int, y).contains(y));
                    to_multiset_update(before, j as int, y);
                    to_multiset_update(before.update(j as int, y), j + 1, x);
                    assert(a@.to_multiset() =~= before.to_multiset());
                }
            }
            j += 1;
        }
        if !swapped {
            proof {
                assert(sorted(a@));
            }
            return a;
        }
        i += 1;
    }
    a
}

} // verus!
