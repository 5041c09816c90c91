use vstd::prelude::*;

verus! {

/// Row and column of a cell of the 4x4 grid, from its row-major index.
pub fn convert_index_to_coords(index: usize) -> (r: (i32, i32))
    requires
        index < 16,
    ensures
        r.0 == index / 4,
        r.1 == index % 4,
{
    ((index / 4) as i32, (index % 4) as i32)
}

/// Whether a reading other than the one at `i` equals it.
pub fn has_duplicate(arr: &[usize; 16], i: usize) -> (r: bool)
    requires
        i < 16,
    ensures
        r == exists|k: int| 0 <= k < 16 && k != i && arr@[k] == arr@[i as int],
{
    let v = arr[i];
    let mut k: usize = 0;
    while k < 16
        invariant
            k <= 16,
            i < 16,
            v == arr@[i as int],
            forall|x: int| 0 <= x < k && x != i ==> arr@[x] != v,
        decreases 16 - k,
    {
        if k != i && arr[k] == v {
            return true;
        }
        k = k + 1;
    }
    false
}

/// At cell `i`'s turn another cell holds `v`: an earlier cell with its
/// reading in `done`, or a later one with its reading in `first`.
pub open spec fn taken_at_turn(first: Seq<usize>, done: Seq<usize>, i: int, v: int) -> bool {
    exists|k: int|
        0 <= k < 16 && k != i && (if k < i {
            done[k] as int == v
        } else {
            first[k] as int == v
        })
}

proof fn lemma_taken_same_prefix(first: Seq<usize>, d1: Seq<usize>, d2: Seq<usize>, i: int, v: int)
    requires
        forall|k: int| 0 <= k < i ==> d1[k] == d2[k],
    ensures
        taken_at_turn(first, d1, i, v) == taken_at_turn(first, d2, i, v),
{
    if taken_at_turn(first, d1, i, v) {
        let k = choose|k: int|
            0 <= k < 16 && k != i && (if k < i {
                d1[k] as int == v
            } else {
                first[k] as int == v
            });
        assert(0 <= k < 16 && k != i && (if k < i {
            d2[k] as int == v
        } else {
            first[k] as int == v
        }));
    }
    if taken_at_turn(first, d2, i, v) {
        let k = choose|k: int|
            0 <= k < 16 && k != i && (if k < i {
                d2[k] as int == v
            } else {
                first[k] as int == v
            });
        assert(0 <= k < 16 && k != i && (if k < i {
            d1[k] as int == v
        } else {
            first[k] as int == v
        }));
    }
}

/// Makes the sixteen readings distinct: cell by cell, in order, a reading
/// that another cell also holds is raised by one until no other cell holds
/// it. So each reading ends at the least value, not below where it started,
/// that no other cell holds at its turn. A reading that was unique from the
/// start is left as it was.
pub fn ensure_no_duplicates(arr: &mut [usize; 16])
    requires
        forall|k: int| 0 <= k < 16 ==> #[trigger] old(arr)@[k] <= usize::MAX - 16,
    ensures
        final(arr)@.no_duplicates(),
        forall|k: int| 0 <= k < 16 ==> #[trigger] final(arr)@[k] >= old(arr)@[k],
        forall|k: int|
            0 <= k < 16 && (forall|j: int| 0 <= j < 16 && j != k ==> old(arr)@[j] != old(arr)@[k])
                ==> #[trigger] final(arr)@[k] == old(arr)@[k],
        forall|k: int|
            0 <= k < 16 ==> !taken_at_turn(old(arr)@, final(arr)@, k, #[trigger] final(arr)@[k] as int),
        forall|k: int, v: int|
            0 <= k < 16 && old(arr)@[k] <= v < final(arr)@[k] ==> #[trigger] taken_at_turn(
                old(arr)@,
                final(arr)@,
                k,
                v,
            ),
{
    let ghost start = arr@;
    let mut i: usize = 0;
    while i < 16
        invariant
            i <= 16,
            arr@.len() == 16,
            start.len() == 16,
            forall|k: int| 0 <= k < 16 ==> #[trigger] arr@[k] <= usize::MAX - 16 + i,
            forall|k: int| 0 <= k < 16 ==> #[trigger] arr@[k] >= start[k],
            forall|k: int| i <= k < 16 ==> #[trigger] arr@[k] == start[k],
            forall|j: int, k: int| 0 <= j < i && 0 <= k < 16 && j != k ==> arr@[j] != arr@[k],
            forall|k: int|
                0 <= k < i && (forall|j: int| 0 <= j < 16 && j != k ==> start[j] != start[k])
                    ==> #[trigger] arr@[k] == start[k],
            forall|j: int| 0 <= j < i ==> !taken_at_turn(start, arr@, j, #[trigger] arr@[j] as int),
            forall|j: int, v: int|
                0 <= j < i && start[j] <= v < arr@[j] ==> #[trigger] taken_at_turn(start, arr@, j, v),
        decreases 16 - i,
    {
        let ghost before = arr@;
        while has_duplicate(arr, i)
            invariant
                i < 16,
                arr@.len() == 16,
                start.len() == 16,
                before.len() == 16,
                forall|k: int| 0 <= k < 16 && k != i ==> #[trigger] arr@[k] == before[k],
                arr@[i as int] >= start[i as int],
                arr@[i as int] <= usize::MAX - 16 + i + 1,
                forall|k: int| 0 <= k < 16 ==> #[trigger] before[k] <= usize::MAX - 16 + i,
                (forall|j: int| 0 <= j < 16 && j != i ==> start[j] != start[i as int])
                    ==> arr@[i as int] == start[i as int],
                forall|k: int| i <= k < 16 ==> #[trigger] before[k] == start[k],
                forall|j: int, k: int|
                    0 <= j < i && 0 <= k < 16 && j != k ==> before[j] != before[k],
                forall|v: int|
                    start[i as int] <= v < arr@[i as int] ==> #[trigger] taken_at_turn(
                        start,
                        arr@,
                        i as int,
                        v,
                    ),
            decreases usize::MAX - 16 + i + 1 - arr@[i as int],
        {
            let ghost k = choose|k: int| 0 <= k < 16 && k != i && arr@[k] == arr@[i as int];
            proof {
                assert(arr@[k] == before[k]);
                if forall|j: int| 0 <= j < 16 && j != i ==> start[j] != start[i as int] {
                    assert(arr@[i as int] == start[i as int]);
                    assert(before[i as int] == start[i as int]);
                    if k > i {
                        assert(before[k] == start[k]);
                    } else {
                        assert(before[k] != before[i as int]);
                    }
                }
            }
            let ghost prev = arr@;
            let v = arr[i];
            arr[i] = v + 1;
            proof {
                assert(taken_at_turn(start, prev, i as int, v as int)) by {
                    if k > i {
                        assert(before[k] == start[k]);
                    }
                }
                assert forall|u: int| start[i as int] <= u < arr@[i as int] implies #[trigger] taken_at_turn(
                    start,
                    arr@,
                    i as int,
                    u,
                ) by {
                    lemma_taken_same_prefix(start, prev, arr@, i as int, u);
                }
            }
        }
        proof {
            assert(!taken_at_turn(start, arr@, i as int, arr@[i as int] as int)) by {
                if taken_at_turn(start, arr@, i as int, arr@[i as int] as int) {
                    let k = choose|k: int|
                        0 <= k < 16 && k != i && (if k < i {
                            arr@[k] as int == arr@[i as int] as int
                        } else {
                            start[k] as int == arr@[i as int] as int
                        });
                    if k > i {
                        assert(arr@[k] == before[k]);
                    }
                }
            }
            assert forall|j: int| 0 <= j < i + 1 implies !taken_at_turn(
                start,
                arr@,
                j,
                #[trigger] arr@[j] as int,
            ) by {
                if j < i {
                    lemma_taken_same_prefix(start, before, arr@, j, arr@[j] as int);
                }
            }
            assert forall|j: int, u: int|
                0 <= j < i + 1 && start[j] <= u < arr@[j] implies #[trigger] taken_at_turn(
                start,
                arr@,
                j,
                u,
            ) by {
                if j < i {
                    lemma_taken_same_prefix(start, before, arr@, j, u);
                }
            }
        }
        i = i + 1;
    }
}

} // verus!
