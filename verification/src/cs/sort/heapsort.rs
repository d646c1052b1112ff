//! Heapsort: Floyd's bottom-up construction of a max-heap, then repeated
//! extraction of the maximum.

use crate::order::{is_lt, lemma_leq_total, lemma_leq_trans, lemma_less_not_leq, leq, sorted, total_order};
use crate::permutation::{lemma_range_perm_whole, lemma_range_perm_widen, lemma_swap_range_perm, permutes, range_perm};
use crate::text::{decimal, push_decimal};
use vstd::prelude::*;

verus! {

/// Errors of heap operations.
#[derive(Debug)]
pub enum HeapSortError {
    /// The array is too large: its heap indices could overflow.
    ArrayTooLarge(usize),
    /// The root index lies outside the heap.
    InvalidRootIndex { root: usize, len: usize },
}

impl HeapSortError {
    /// The text that describes the error.
    pub open spec fn message(&self) -> Seq<char> {
        match self {
            HeapSortError::ArrayTooLarge(size) => "Array size "@ + decimal(*size as nat)
                + " is too large, would cause integer overflow in heap operations"@,
            HeapSortError::InvalidRootIndex { root, len } => "Invalid root index "@ + decimal(
                *root as nat,
            ) + " for heap of length "@ + decimal(*len as nat),
        }
    }

    /// Describes the error in words.
    pub fn to_string(&self) -> (s: String)
        ensures
            s@ == self.message(),
    {
        let mut s = String::new();
        match self {
            HeapSortError::ArrayTooLarge(size) => {
                s.push_str("Array size ");
                push_decimal(&mut s, *size);
                s.push_str(" is too large, would cause integer overflow in heap operations");
            },
            HeapSortError::InvalidRootIndex { root, len } => {
                s.push_str("Invalid root index ");
                push_decimal(&mut s, *root);
                s.push_str(" for heap of length ");
                push_decimal(&mut s, *len);
            },
        }
        proof {
            assert(s@ =~= self.message());
        }
        s
    }
}

/// The largest array that the heap operations accept.
pub open spec fn max_heap_len() -> int {
    ((isize::MAX as usize) / 2) as int
}

/// Accepts lengths up to half of `isize::MAX`.
pub fn validate_array_size(len: usize) -> (r: Result<(), HeapSortError>)
    ensures
        len > max_heap_len() <==> r == Err::<(), HeapSortError>(HeapSortError::ArrayTooLarge(len)),
        len <= max_heap_len() <==> r is Ok,
{
    if len > (isize::MAX as usize) / 2 {
        Err(HeapSortError::ArrayTooLarge(len))
    } else {
        Ok(())
    }
}

/// Node `k` is no smaller than those of its two children that lie in the
/// first `n` elements.
pub open spec fn node_ok<T: PartialOrd>(a: Seq<T>, n: int, k: int) -> bool {
    &&& 2 * k + 1 < n ==> leq(a[2 * k + 1], a[k])
    &&& 2 * k + 2 < n ==> leq(a[2 * k + 2], a[k])
}

/// Every node from `from` on, among the first `n` elements, is no smaller
/// than its children.
pub open spec fn heap_from<T: PartialOrd>(a: Seq<T>, n: int, from: int) -> bool {
    forall|k: int| from <= k < n ==> #[trigger] node_ok(a, n, k)
}

/// The first `n` elements form a max-heap.
pub open spec fn is_max_heap<T: PartialOrd>(a: Seq<T>, n: int) -> bool {
    heap_from(a, n, 0)
}

/// The root of a max-heap is its largest element.
pub proof fn lemma_heap_root_max<T: PartialOrd>(a: Seq<T>, n: int, k: int)
    requires
        total_order::<T>(),
        is_max_heap(a, n),
        0 <= k < n,
    ensures
        leq(a[k], a[0]),
    decreases k,
{
    if k == 0 {
        lemma_leq_total(a[0], a[0]);
    } else {
        let p = (k - 1) / 2;
        assert(node_ok(a, n, p));
        assert(leq(a[k], a[p]));
        lemma_heap_root_max(a, n, p);
        lemma_leq_trans(a[k], a[p], a[0]);
    }
}

/// Moves the element at `root` down the heap formed by the first `n`
/// elements until it is no smaller than its children. Where every node below
/// `root` was in heap order, every node from `root` on is afterwards.
fn sift_down<T: Ord>(slice: &mut [T], n: usize, root: usize)
    requires
        total_order::<T>(),
        root < n <= old(slice)@.len(),
        n <= usize::MAX / 2,
    ensures
        range_perm(final(slice)@, old(slice)@, 0, n as int),
        heap_from(old(slice)@, n as int, root + 1) ==> heap_from(final(slice)@, n as int, root as int),
{
    let ghost orig = slice@;
    let ghost pre = heap_from(orig, n as int, root + 1);
    proof {
        assert(slice@.subrange(0, n as int) =~= orig.subrange(0, n as int));
    }
    let mut current = root;
    loop
        invariant_except_break
            total_order::<T>(),
            root <= current < n <= slice@.len(),
            n <= usize::MAX / 2,
            range_perm(slice@, orig, 0, n as int),
            pre ==> forall|k: int| root <= k < n && k != current ==> #[trigger] node_ok(slice@, n as int, k),
            pre && current != root ==> {
                let p = (current - 1) / 2;
                &&& root <= p
                &&& 2 * current + 1 < n ==> leq(slice@[2 * current + 1], slice@[p])
                &&& 2 * current + 2 < n ==> leq(slice@[2 * current + 2], slice@[p])
            },
        ensures
            range_perm(slice@, orig, 0, n as int),
            pre ==> heap_from(slice@, n as int, root as int),
        decreases n - current,
    {
        let mut largest = current;
        let left = current * 2 + 1;
        let right = left + 1;
        let ghost s = slice@;
        proof {
            lemma_leq_total(s[current as int], s[current as int]);
        }
        if left < n && is_lt(&slice[largest], &slice[left]) {
            largest = left;
            proof {
                lemma_leq_total(s[left as int], s[left as int]);
            }
        } else if left < n {
            proof {
                lemma_less_not_leq(s[current as int], s[left as int]);
            }
        }
        proof {
            assert(left < n ==> leq(s[left as int], s[largest as int]));
            assert(largest != current ==> crate::order::less(s[current as int], s[largest as int]));
            assert(leq(s[current as int], s[largest as int]));
        }
        let ghost mid = largest;
        if right < n && is_lt(&slice[largest], &slice[right]) {
            largest = right;
            proof {
                lemma_leq_total(s[right as int], s[right as int]);
                lemma_less_not_leq(s[mid as int], s[right as int]);
                lemma_leq_total(s[mid as int], s[right as int]);
                if left < n {
                    lemma_leq_trans(s[left as int], s[mid as int], s[right as int]);
                }
                crate::order::lemma_leq_less_trans(s[current as int], s[mid as int], s[right as int]);
            }
        } else if right < n {
            proof {
                lemma_less_not_leq(s[mid as int], s[right as int]);
            }
        }
        proof {
            assert(right < n ==> leq(s[right as int], s[largest as int]));
            assert(left < n ==> leq(s[left as int], s[largest as int]));
            assert(largest != current ==> crate::order::less(s[current as int], s[largest as int]));
        }
        if largest == current {
            proof {
                assert(node_ok(s, n as int, current as int));
            }
            break;
        }
        let ghost before = slice@;
        slice.swap(current, largest);
        proof {
            lemma_swap_range_perm(before, orig, 0, n as int, current as int, largest as int);
            let s = slice@;
            if pre {
                assert(leq(before[current as int], before[largest as int]));
                assert(node_ok(s, n as int, current as int));
                assert forall|k: int| root <= k < n && k != largest implies #[trigger] node_ok(
                    s,
                    n as int,
                    k,
                ) by {
                    if k != current {
                        assert(node_ok(before, n as int, k));
                        if k == (current - 1) / 2 && current != root {
                            assert(leq(before[largest as int], before[k]));
                        }
                    }
                }
                assert(node_ok(before, n as int, largest as int));
            }
        }
        current = largest;
    }
}

/// Restores the heap order at `root` in the heap formed by the whole slice;
/// an error when `root` lies outside it.
pub fn heapify_iterative<T: Ord>(slice: &mut [T], root: usize) -> (r: Result<(), HeapSortError>)
    requires
        total_order::<T>(),
        old(slice)@.len() <= usize::MAX / 2,
    ensures
        root >= old(slice)@.len() ==> r == Err::<(), HeapSortError>(
            (HeapSortError::InvalidRootIndex { root, len: old(slice)@.len() as usize }),
        ) && final(slice)@ == old(slice)@,
        root < old(slice)@.len() ==> r is Ok && permutes(final(slice)@, old(slice)@),
        root < old(slice)@.len() && heap_from(old(slice)@, old(slice)@.len() as int, root + 1)
            ==> heap_from(final(slice)@, final(slice)@.len() as int, root as int),
{
    let len = slice.len();
    if root >= len {
        return Err(HeapSortError::InvalidRootIndex { root, len });
    }
    let ghost orig = slice@;
    sift_down(slice, len, root);
    proof {
        lemma_range_perm_whole(slice@, orig);
    }
    Ok(())
}

/// Arranges the whole slice into a max-heap, bottom up.
pub fn build_max_heap<T: Ord>(slice: &mut [T]) -> (r: Result<(), HeapSortError>)
    requires
        total_order::<T>(),
        old(slice)@.len() <= usize::MAX / 2,
    ensures
        r is Ok,
        final(slice)@.len() == old(slice)@.len(),
        permutes(final(slice)@, old(slice)@),
        is_max_heap(final(slice)@, final(slice)@.len() as int),
{
    let ghost orig = slice@;
    let n = slice.len();
    proof {
        assert(slice@.subrange(0, n as int) =~= orig.subrange(0, n as int));
    }
    let mut i: usize = n / 2;
    while i > 0
        invariant
            total_order::<T>(),
            n == slice@.len(),
            n <= usize::MAX / 2,
            i <= n / 2,
            range_perm(slice@, orig, 0, n as int),
            heap_from(slice@, n as int, i as int),
        decreases i,
    {
        i = i - 1;
        let ghost before = slice@;
        sift_down(slice, n, i);
        proof {
            crate::permutation::lemma_range_perm_trans(orig, before, slice@, 0, n as int);
        }
    }
    proof {
        lemma_range_perm_whole(slice@, orig);
    }
    Ok(())
}

/// Sorts `slice` in ascending order; an error, leaving it unchanged, when it
/// is longer than half of `isize::MAX`. Not stable.
pub fn sort<T: Ord + Send>(slice: &mut [T]) -> (r: Result<(), HeapSortError>)
    requires
        total_order::<T>(),
    ensures
        old(slice)@.len() > 1 && old(slice)@.len() > max_heap_len() ==> r == Err::<(), HeapSortError>(
            HeapSortError::ArrayTooLarge(old(slice)@.len() as usize),
        ) && final(slice)@ == old(slice)@,
        old(slice)@.len() <= 1 || old(slice)@.len() <= max_heap_len() ==> r is Ok && sorted(
            final(slice)@,
        ) && permutes(final(slice)@, old(slice)@),
{
    let ghost orig = slice@;
    let len = slice.len();
    if len <= 1 {
        proof {
            assert(slice@.subrange(0, len as int) =~= orig.subrange(0, len as int));
            lemma_range_perm_whole(slice@, orig);
        }
        return Ok(());
    }
    match validate_array_size(len) {
        Err(e) => {
            return Err(e);
        },
        Ok(()) => {},
    }
    let _ = build_max_heap(slice);
    let ghost heaped = slice@;
    proof {
        assert(slice@.subrange(0, len as int) =~= heaped.subrange(0, len as int));
    }
    let mut i: usize = len - 1;
    while i > 0
        invariant
            total_order::<T>(),
            len == slice@.len(),
            len <= usize::MAX / 2,
            i < len,
            range_perm(slice@, heaped, 0, len as int),
            is_max_heap(slice@, i + 1),
            forall|p: int, q: int| i < p < q < len ==> leq(#[trigger] slice@[p], #[trigger] slice@[q]),
            forall|p: int, q: int| 0 <= p <= i < q < len ==> leq(#[trigger] slice@[p], #[trigger] slice@[q]),
        decreases i,
    {
        let ghost before = slice@;
        proof {
            assert forall|k: int| 0 <= k <= i implies leq(#[trigger] before[k], before[0]) by {
                lemma_heap_root_max(before, i + 1, k);
            }
        }
        slice.swap(0, i);
        let ghost swapped = slice@;
        proof {
            lemma_swap_range_perm(before, heaped, 0, len as int, 0, i as int);
            assert forall|k: int| 1 <= k < i implies #[trigger] node_ok(swapped, i as int, k) by {
                assert(node_ok(before, i + 1, k));
            }
        }
        sift_down(slice, i, 0);
        proof {
            lemma_range_perm_widen(slice@, swapped, 0, i as int, 0, len as int);
            crate::permutation::lemma_range_perm_trans(heaped, swapped, slice@, 0, len as int);
            let s = slice@;
            assert forall|p: int, q: int| i - 1 < p < q < len implies leq(#[trigger] s[p], #[trigger] s[q]) by {
                if p == i {
                    assert(leq(before[0], before[q]));
                }
            }
            assert forall|p: int, q: int| 0 <= p <= i - 1 < q < len implies leq(#[trigger] s[p], #[trigger] s[q]) by {
                let src = crate::permutation::lemma_range_perm_source(s, swapped, 0, i as int, p);
                if q == i {
                    if src == 0 {
                        assert(leq(before[i as int], before[0]));
                    } else {
                        assert(leq(before[src], before[0]));
                    }
                } else {
                    if src == 0 {
                        assert(leq(before[i as int], before[q]));
                    } else {
                        assert(leq(before[src], before[q]));
                    }
                }
            }
        }
        i = i - 1;
    }
    proof {
        let s = slice@;
        assert forall|p: int, q: int| 0 <= p < q < len implies leq(#[trigger] s[p], #[trigger] s[q]) by {
        }
        lemma_range_perm_whole(s, heaped);
    }
    Ok(())
}

/// Heapsort of `i32` values.
pub fn sort_i32(slice: &mut [i32]) -> (r: Result<(), HeapSortError>)
    ensures
        old(slice)@.len() > 1 && old(slice)@.len() > max_heap_len() ==> r == Err::<(), HeapSortError>(
            HeapSortError::ArrayTooLarge(old(slice)@.len() as usize),
        ) && final(slice)@ == old(slice)@,
        old(slice)@.len() <= 1 || old(slice)@.len() <= max_heap_len() ==> r is Ok && sorted(
            final(slice)@,
        ) && permutes(final(slice)@, old(slice)@),
{
    proof {
        crate::order::lemma_total_order_i32();
    }
    sort(slice)
}

} // verus!
