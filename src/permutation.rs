use vstd::prelude::*;

verus! {

/// One transposition: the two grid positions whose values are exchanged.
pub type IndexPermutation = (usize, usize);

/// `s` with the values at the two positions of `p` exchanged.
pub open spec fn apply_swap(s: Seq<usize>, p: IndexPermutation) -> Seq<usize> {
    s.update(p.0 as int, s[p.1 as int]).update(p.1 as int, s[p.0 as int])
}

/// `s` after the swaps of `ps`, performed one after another in order.
pub open spec fn apply_swaps(s: Seq<usize>, ps: Seq<IndexPermutation>) -> Seq<usize>
    decreases ps.len(),
{
    if ps.len() == 0 {
        s
    } else {
        apply_swap(apply_swaps(s, ps.drop_last()), ps.last())
    }
}

/// Every swap of `ps` names two positions of a sequence of length `n`.
pub open spec fn swaps_within(ps: Seq<IndexPermutation>, n: int) -> bool {
    forall|k: int| 0 <= k < ps.len() ==> #[trigger] ps[k].0 < n && ps[k].1 < n
}

/// Swap `j` of `ps` is the one a left-to-right scan makes on `s` after the
/// swaps before it: every position before its first index already holds its
/// `target` value, its first index does not, and its second index is where
/// `target` holds the value now at the first.
pub open spec fn scan_step(
    s: Seq<usize>,
    target: Seq<usize>,
    ps: Seq<IndexPermutation>,
    j: int,
) -> bool {
    let w = apply_swaps(s, ps.subrange(0, j));
    let i = ps[j].0 as int;
    let k = ps[j].1 as int;
    &&& forall|x: int| 0 <= x < i ==> w[x] == target[x]
    &&& w[i] != target[i]
    &&& target[k] == w[i]
}

/// Positions below `n` at which `a` and `b` differ.
pub open spec fn mismatch_count(a: Seq<usize>, b: Seq<usize>, n: int) -> nat
    decreases n,
{
    if n <= 0 {
        0
    } else {
        mismatch_count(a, b, n - 1) + if a[n - 1] != b[n - 1] {
            1nat
        } else {
            0nat
        }
    }
}

proof fn lemma_mismatch_bounded(a: Seq<usize>, b: Seq<usize>, n: int)
    ensures
        n >= 0 ==> mismatch_count(a, b, n) <= n,
    decreases n,
{
    if n > 0 {
        lemma_mismatch_bounded(a, b, n - 1);
    }
}

proof fn lemma_mismatch_self(a: Seq<usize>, n: int)
    ensures
        mismatch_count(a, a, n) == 0,
    decreases n,
{
    if n > 0 {
        lemma_mismatch_self(a, n - 1);
    }
}

proof fn lemma_mismatch_at_least_one(a: Seq<usize>, b: Seq<usize>, n: int, p: int)
    requires
        0 <= p < n,
        a[p] != b[p],
    ensures
        mismatch_count(a, b, n) >= 1,
    decreases n,
{
    if p < n - 1 {
        lemma_mismatch_at_least_one(a, b, n - 1, p);
    }
}

proof fn lemma_mismatch_at_least_two(a: Seq<usize>, b: Seq<usize>, n: int, p: int, q: int)
    requires
        0 <= p < n,
        0 <= q < n,
        p != q,
        a[p] != b[p],
        a[q] != b[q],
    ensures
        mismatch_count(a, b, n) >= 2,
    decreases n,
{
    if p == n - 1 {
        lemma_mismatch_at_least_one(a, b, n - 1, q);
    } else if q == n - 1 {
        lemma_mismatch_at_least_one(a, b, n - 1, p);
    } else {
        lemma_mismatch_at_least_two(a, b, n - 1, p, q);
    }
}

/// Changing one position changes the count by that position's contribution alone.
proof fn lemma_mismatch_update(a: Seq<usize>, b: Seq<usize>, n: int, p: int, v: usize)
    requires
        0 <= p < n <= a.len(),
    ensures
        mismatch_count(a.update(p, v), b, n) + (if a[p] != b[p] {
            1int
        } else {
            0int
        }) == mismatch_count(a, b, n) + (if v != b[p] {
            1int
        } else {
            0int
        }),
    decreases n,
{
    if p < n - 1 {
        lemma_mismatch_update(a, b, n - 1, p, v);
    } else {
        assert forall|k: int| 0 <= k < n - 1 implies a.update(p, v)[k] == a[k] by {}
        lemma_mismatch_same_prefix(a.update(p, v), a, b, n - 1);
    }
}

proof fn lemma_mismatch_same_prefix(a: Seq<usize>, c: Seq<usize>, b: Seq<usize>, n: int)
    requires
        forall|k: int| 0 <= k < n ==> a[k] == c[k],
    ensures
        mismatch_count(a, b, n) == mismatch_count(c, b, n),
    decreases n,
{
    if n > 0 {
        lemma_mismatch_same_prefix(a, c, b, n - 1);
    }
}

/// Exchanging two positions keeps the values a sequence holds, and keeps
/// them distinct.
pub proof fn lemma_swap_keeps_values(s: Seq<usize>, i: usize, j: usize)
    requires
        i < s.len(),
        j < s.len(),
    ensures
        apply_swap(s, (i, j)).len() == s.len(),
        apply_swap(s, (i, j)).to_multiset() == s.to_multiset(),
        s.no_duplicates() ==> apply_swap(s, (i, j)).no_duplicates(),
{
    let r = apply_swap(s, (i, j));
    if i == j {
        assert(r =~= s);
    } else {
        let s1 = s.update(i as int, s[j as int]);
        let si = s[i as int];
        let sj = s[j as int];
        lemma_update_multiset(s, i as int, sj);
        lemma_update_multiset(s1, j as int, si);
        assert(s1[j as int] == sj);
        let m = s.to_multiset();
        s.to_multiset_ensures();
        assert(m.count(si) > 0) by {
            assert(s.contains(si));
        }
        let m1 = m.remove(si).insert(sj);
        assert(m1.remove(sj) =~= m.remove(si));
        assert(m.remove(si).insert(si) =~= m);
        assert(r.to_multiset() =~= m);
        if s.no_duplicates() {
            assert forall|x: int, y: int|
                0 <= x < r.len() && 0 <= y < r.len() && x != y implies r[x] != r[y] by {
                assert(s[x] != s[y] || x == y);
            }
        }
    }
}

proof fn lemma_update_multiset(s: Seq<usize>, i: int, v: usize)
    requires
        0 <= i < s.len(),
    ensures
        s.update(i, v).to_multiset() == s.to_multiset().remove(s[i]).insert(v),
{
    let u = s.update(i, v);
    s.to_multiset_ensures();
    u.to_multiset_ensures();
    assert(u.remove(i) =~= s.remove(i));
    assert(u.remove(i).to_multiset() == u.to_multiset().remove(u[i]));
    assert(s.remove(i).to_multiset() == s.to_multiset().remove(s[i]));
    assert(u.contains(u[i]));
    let m = u.to_multiset();
    assert(m.count(v) > 0);
    assert(m.remove(v).insert(v) =~= m);
}

/// Replaying `a` then `b` is replaying their concatenation.
pub proof fn lemma_apply_swaps_concat(s: Seq<usize>, a: Seq<IndexPermutation>, b: Seq<IndexPermutation>)
    ensures
        apply_swaps(s, a + b) == apply_swaps(apply_swaps(s, a), b),
    decreases b.len(),
{
    if b.len() == 0 {
        assert(a + b =~= a);
    } else {
        assert((a + b).drop_last() =~= a + b.drop_last());
        assert((a + b).last() == b.last());
        lemma_apply_swaps_concat(s, a, b.drop_last());
    }
}

/// Replaying swaps on the grid keeps the length, the values held, and their
/// distinctness.
pub proof fn lemma_apply_swaps_keeps_values(s: Seq<usize>, ps: Seq<IndexPermutation>)
    requires
        s.len() == 16,
        swaps_within(ps, 16),
    ensures
        apply_swaps(s, ps).len() == 16,
        apply_swaps(s, ps).to_multiset() == s.to_multiset(),
        s.no_duplicates() ==> apply_swaps(s, ps).no_duplicates(),
    decreases ps.len(),
{
    if ps.len() > 0 {
        let rest = ps.drop_last();
        assert(swaps_within(rest, 16)) by {
            assert forall|k: int| 0 <= k < rest.len() implies #[trigger] rest[k].0 < 16
                && rest[k].1 < 16 by {
                assert(rest[k] == ps[k]);
            }
        }
        lemma_apply_swaps_keeps_values(s, rest);
        assert(ps[ps.len() - 1] == ps.last());
        lemma_swap_keeps_values(apply_swaps(s, rest), ps.last().0, ps.last().1);
    }
}

/// Exchanges the readings of cells `i` and `j`.
pub fn swap_cells(state: &mut [usize; 16], i: usize, j: usize)
    requires
        i < 16,
        j < 16,
    ensures
        final(state)@ == apply_swap(old(state)@, (i, j)),
{
    let first = state[i];
    let second = state[j];
    state[i] = second;
    state[j] = first;
    assert(final(state)@ =~= apply_swap(old(state)@, (i, j)));
}

/// The ordered list of swaps that turns `original` into `target`, a reordering
/// of the same distinct values: position by position, the value found at the
/// current position is sent to where `target` holds it, until the position
/// holds its own value.
pub fn decompose(original: &[usize], target: &[usize]) -> (r: Vec<IndexPermutation>)
    requires
        original@.len() == target@.len(),
        original@.no_duplicates(),
        original@.to_multiset() == target@.to_multiset(),
    ensures
        swaps_within(r@, original@.len() as int),
        forall|k: int| 0 <= k < r@.len() ==> #[trigger] r@[k].0 < r@[k].1,
        forall|j: int| 0 <= j < r@.len() ==> #[trigger] scan_step(original@, target@, r@, j),
        apply_swaps(original@, r@) == target@,
        original@.len() > 0 ==> r@.len() < original@.len(),
        r@.len() == 0 <==> original@ == target@,
{
    let n = original.len();
    let ghost t = target@;
    let mut work: Vec<usize> = Vec::new();
    let mut j: usize = 0;
    while j < n
        invariant
            j <= n == original@.len(),
            work@ == original@.subrange(0, j as int),
        decreases n - j,
    {
        work.push(original[j]);
        j = j + 1;
    }
    proof {
        assert(work@ =~= original@);
        original@.to_multiset_ensures();
        target@.to_multiset_ensures();
        assert forall|x: int| 0 <= x < n implies t.contains(#[trigger] work@[x]) by {
            assert(original@.contains(original@[x]));
            assert(original@.to_multiset().count(original@[x]) > 0);
            assert(t.to_multiset().count(original@[x]) > 0);
        }
        lemma_mismatch_bounded(work@, t, n as int);
    }
    let mut perms: Vec<IndexPermutation> = Vec::new();
    let mut i: usize = 0;
    while i < n
        invariant
            n == original@.len() == t.len() == work@.len(),
            t == target@,
            i <= n,
            work@ == apply_swaps(original@, perms@),
            swaps_within(perms@, n as int),
            forall|k: int| 0 <= k < perms@.len() ==> #[trigger] perms@[k].0 < perms@[k].1,
            forall|j: int| 0 <= j < perms@.len() ==> #[trigger] scan_step(original@, t, perms@, j),
            work@.no_duplicates(),
            forall|x: int| 0 <= x < n ==> t.contains(#[trigger] work@[x]),
            forall|x: int| 0 <= x < i ==> work@[x] == t[x],
            original@ == t ==> perms@.len() == 0,
            mismatch_count(work@, t, n as int) > 0 ==> perms@.len() + mismatch_count(
                work@,
                t,
                n as int,
            ) <= n,
            mismatch_count(work@, t, n as int) == 0 ==> perms@.len() + 1 <= n || n == 0,
        decreases mismatch_count(work@, t, n as int), n - i,
    {
        let old_val = work[i];
        let ghost w = work@;
        assert(t.contains(w[i as int]));
        let mut new_index: usize = 0;
        while target[new_index] != old_val
            invariant
                n == t.len(),
                t == target@,
                new_index < n,
                t.contains(old_val),
                forall|x: int| 0 <= x < new_index ==> t[x] != old_val,
            decreases n - new_index,
        {
            new_index = new_index + 1;
            if new_index >= n {
                proof {
                    let y = choose|y: int| 0 <= y < t.len() && t[y] == old_val;
                    assert(t[y] == old_val);
                }
            }
        }
        proof {
            // earlier positions already hold their own, distinct, values
            assert(new_index >= i) by {
                if new_index < i {
                    assert(w[new_index as int] == t[new_index as int]);
                }
            }
        }
        if i != new_index {
            let k = new_index;
            proof {
                assert(w[i as int] != t[i as int]);
                assert(w[k as int] != t[k as int]);
                lemma_mismatch_at_least_two(w, t, n as int, i as int, k as int);
                if original@ == t {
                    assert(perms@.len() == 0);
                    assert(w == original@);
                }
            }
            let other = work[k];
            work.set(i, other);
            work.set(k, old_val);
            let ghost p: IndexPermutation = (i, k);
            let ghost old_perms = perms@;
            perms.push((i, k));
            proof {
                assert(perms@.drop_last() =~= old_perms);
                assert(perms@.last() == p);
                assert(perms@.subrange(0, old_perms.len() as int) =~= old_perms);
                assert(scan_step(original@, t, perms@, old_perms.len() as int));
                assert forall|j: int| 0 <= j < perms@.len() implies #[trigger] scan_step(
                    original@,
                    t,
                    perms@,
                    j,
                ) by {
                    if j < old_perms.len() {
                        assert(perms@.subrange(0, j) =~= old_perms.subrange(0, j));
                        assert(perms@[j] == old_perms[j]);
                        assert(scan_step(original@, t, old_perms, j));
                    }
                }
                assert(apply_swap(w, p) =~= work@);
                let w1 = w.update(i as int, other);
                lemma_mismatch_update(w, t, n as int, i as int, other);
                lemma_mismatch_update(w1, t, n as int, k as int, old_val);
                assert(w1.update(k as int, old_val) =~= work@);
                assert forall|x: int| 0 <= x < n implies t.contains(#[trigger] work@[x]) by {
                    if x == i as int {
                        assert(work@[x] == w[k as int]);
                    } else if x == k as int {
                        assert(work@[x] == w[i as int]);
                    } else {
                        assert(work@[x] == w[x]);
                    }
                }
                assert forall|x: int, y: int|
                    0 <= x < n && 0 <= y < n && x != y implies work@[x] != work@[y] by {
                    assert(w[x] != w[y] || x == y);
                }
            }
        } else {
            i = i + 1;
        }
    }
    proof {
        lemma_mismatch_same_prefix(work@, t, t, n as int);
        lemma_mismatch_self(t, n as int);
        assert(work@ =~= t);
        if perms@.len() == 0 {
            assert(original@ == t);
        }
    }
    perms
}

} // verus!
