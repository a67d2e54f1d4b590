//! The exchanges that turn one order of a set of items into another:
//! `rings`, whose exchanges each name one item by its place in both
//! orders, and the plain `swaps`, by whose number the others are measured.

use vstd::prelude::*;

verus! {

/// The sequence with the items at `i` and `j` exchanged.
pub open spec fn swap_at<A>(s: Seq<A>, i: int, j: int) -> Seq<A> {
    s.update(i, s[j]).update(j, s[i])
}

/// The exchanges that turn `working` into `target` from place `r` on, one
/// place after the other: where the item at a place is not the one that
/// `target` has there, it is exchanged with the item that is, which is
/// found further on. Each exchange is a pair of places.
pub open spec fn swaps<A>(working: Seq<A>, target: Seq<A>, r: int) -> Seq<(int, int)>
    decreases target.len() - r,
{
    if r < 0 || r >= target.len() || r >= working.len() {
        Seq::empty()
    } else if working[r] == target[r] {
        swaps(working, target, r + 1)
    } else {
        let j = working.index_of(target[r]);
        seq![(r, j)] + swaps(swap_at(working, r, j), target, r + 1)
    }
}

/// The order after the given exchanges, made one after the other.
pub open spec fn apply_swaps<A>(order: Seq<A>, exchanges: Seq<(int, int)>) -> Seq<A>
    decreases exchanges.len(),
{
    if exchanges.len() == 0 {
        order
    } else {
        apply_swaps(swap_at(order, exchanges[0].0, exchanges[0].1), exchanges.skip(1))
    }
}

/// Whether two sequences hold the same items, each once.
pub open spec fn rearranged<A>(a: Seq<A>, b: Seq<A>) -> bool {
    &&& a.no_duplicates()
    &&& b.no_duplicates()
    &&& forall|x: A| a.contains(x) <==> b.contains(x)
}

/// Two sequences that hold the same items, each once, have one length.
pub proof fn lemma_rearranged_len<A>(a: Seq<A>, b: Seq<A>)
    requires
        rearranged(a, b),
    ensures
        a.len() == b.len(),
{
    a.unique_seq_to_set();
    b.unique_seq_to_set();
    assert(a.to_set() =~= b.to_set());
}

/// An exchange leaves a sequence with the same items, each once.
pub proof fn lemma_swap_rearranged<A>(s: Seq<A>, i: int, j: int)
    requires
        s.no_duplicates(),
        0 <= i < s.len(),
        0 <= j < s.len(),
    ensures
        rearranged(swap_at(s, i, j), s),
{
    let t = swap_at(s, i, j);
    assert forall|x: A| t.contains(x) <==> s.contains(x) by {
        if t.contains(x) {
            let k = choose|k: int| 0 <= k < t.len() && t[k] == x;
            if k == i {
                assert(s[j] == x);
            } else if k == j {
                assert(s[i] == x);
            } else {
                assert(s[k] == x);
            }
        }
        if s.contains(x) {
            let k = choose|k: int| 0 <= k < s.len() && s[k] == x;
            if k == i {
                assert(t[j] == x);
            } else if k == j {
                assert(t[i] == x);
            } else {
                assert(t[k] == x);
            }
        }
    }
}

/// No exchange is needed where the order is the target already.
pub proof fn lemma_no_swaps<A>(order: Seq<A>, r: int)
    ensures
        swaps(order, order, r) == Seq::<(int, int)>::empty(),
    decreases order.len() - r,
{
    if 0 <= r < order.len() {
        lemma_no_swaps(order, r + 1);
    }
}

/// The exchanges reconcile the two orders: made one after the other on
/// `working`, they yield `target`. Each exchange moves an item to the
/// place that `target` gives it, from a place further on, and no place
/// is filled twice.
pub proof fn lemma_swaps_reconcile<A>(working: Seq<A>, target: Seq<A>, r: int)
    requires
        rearranged(working, target),
        0 <= r <= target.len(),
        forall|k: int| 0 <= k < r ==> working[k] == target[k],
    ensures
        apply_swaps(working, swaps(working, target, r)) == target,
        forall|k: int|
            0 <= k < swaps(working, target, r).len() ==> r <= (#[trigger] swaps(working, target, r)[k]).0
                < swaps(working, target, r)[k].1 < target.len(),
        forall|k: int, l: int|
            0 <= k < l < swaps(working, target, r).len() ==> (#[trigger] swaps(working, target, r)[k]).0
                < (#[trigger] swaps(working, target, r)[l]).0,
    decreases target.len() - r,
{
    lemma_rearranged_len(working, target);
    if r >= target.len() {
        assert(working =~= target);
    } else if working[r] == target[r] {
        lemma_swaps_reconcile(working, target, r + 1);
    } else {
        assert(target.contains(target[r]));
        assert(working.contains(target[r]));
        let j = working.index_of(target[r]);
        assert(working[j] == target[r]);
        if j < r {
            assert(target[j] == working[j]);
        }
        let next = swap_at(working, r, j);
        lemma_swap_rearranged(working, r, j);
        lemma_swaps_reconcile(next, target, r + 1);
        let all = swaps(working, target, r);
        let rest = swaps(next, target, r + 1);
        assert(all.skip(1) =~= rest);
        assert(all[0] == (r, j));
        assert forall|k: int| 0 <= k < all.len() implies r <= (#[trigger] all[k]).0 < all[k].1
            < target.len() by {
            if k > 0 {
                assert(all[k] == rest[k - 1]);
            }
        }
        assert forall|k: int, l: int| 0 <= k < l < all.len() implies (#[trigger] all[k]).0 < (
        #[trigger] all[l]).0 by {
            assert(all[l] == rest[l - 1]);
            if k > 0 {
                assert(all[k] == rest[k - 1]);
            }
        }
    }
}

/// The place of an item in a sequence without duplicates is the place
/// where it stands.
proof fn lemma_index_of<A>(s: Seq<A>, i: int)
    requires
        s.no_duplicates(),
        0 <= i < s.len(),
    ensures
        s.index_of(s[i]) == i,
{
    let k = s.index_of(s[i]);
    assert(s[i] == s[i]);
    assert(0 <= k < s.len() && s[k] == s[i]);
}

/// Two orders that are one exchange apart need numbers of exchanges that
/// differ by one at most.
proof fn lemma_swaps_near<A>(w: Seq<A>, v: Seq<A>, target: Seq<A>, r: int, a: int, b: int)
    requires
        rearranged(w, target),
        0 <= a < target.len(),
        0 <= b < target.len(),
        v == swap_at(w, a, b),
        0 <= r <= target.len(),
        forall|k: int| 0 <= k < r ==> w[k] == target[k] && v[k] == target[k],
    ensures
        swaps(w, target, r).len() <= swaps(v, target, r).len() + 1,
    decreases target.len() - r,
{
    lemma_rearranged_len(w, target);
    lemma_swap_rearranged(w, a, b);
    assert(rearranged(v, target));
    if r < target.len() {
        let x = target[r];
        assert(target.contains(x));
        let j = w.index_of(x);
        let i = v.index_of(x);
        assert(w.contains(x));
        assert(v.contains(x));
        assert(w[j] == x && v[i] == x);
        if j < r {
            assert(target[j] == target[r]);
        }
        if i < r {
            assert(target[i] == target[r]);
        }
        if w[r] == x && v[r] == x {
            lemma_swaps_near(w, v, target, r + 1, a, b);
        } else if w[r] == x {
            lemma_index_of(w, r);
            let back = swap_at(v, r, i);
            assert(back =~= w) by {
                if a == r {
                    assert(v[b] == x);
                    lemma_index_of(v, b);
                } else {
                    assert(b == r);
                    assert(v[a] == x);
                    lemma_index_of(v, a);
                }
            }
            assert(swaps(v, target, r) =~= seq![(r, i)] + swaps(back, target, r + 1));
        } else if v[r] == x {
            lemma_index_of(v, r);
            let next = swap_at(w, r, j);
            assert(next =~= v) by {
                if a == r {
                    assert(w[b] == x);
                    lemma_index_of(w, b);
                } else {
                    assert(b == r);
                    assert(w[a] == x);
                    lemma_index_of(w, a);
                }
            }
            assert(swaps(w, target, r) =~= seq![(r, j)] + swaps(next, target, r + 1));
        } else {
            let u = swap_at(w, r, j);
            let z = swap_at(v, r, i);
            lemma_swap_rearranged(w, r, j);
            assert(swaps(w, target, r) =~= seq![(r, j)] + swaps(u, target, r + 1));
            assert(swaps(v, target, r) =~= seq![(r, i)] + swaps(z, target, r + 1));
            if a == b {
                assert(v =~= w);
                assert(z =~= swap_at(u, r, r));
                lemma_swaps_near(u, z, target, r + 1, r, r);
            } else if a != r && a != j && b != r && b != j {
                assert(v[j] == x);
                lemma_index_of(v, j);
                assert(z =~= swap_at(u, a, b));
                lemma_swaps_near(u, z, target, r + 1, a, b);
            } else if a == r && b != j {
                assert(v[j] == x);
                lemma_index_of(v, j);
                assert(z =~= swap_at(u, j, b));
                lemma_swaps_near(u, z, target, r + 1, j, b);
            } else if b == r && a != j {
                assert(v[j] == x);
                lemma_index_of(v, j);
                assert(z =~= swap_at(u, j, a));
                lemma_swaps_near(u, z, target, r + 1, j, a);
            } else if a == j && b != r {
                assert(v[b] == x);
                lemma_index_of(v, b);
                assert(z =~= swap_at(u, j, b));
                lemma_swaps_near(u, z, target, r + 1, j, b);
            } else if b == j && a != r {
                assert(v[a] == x);
                lemma_index_of(v, a);
                assert(z =~= swap_at(u, j, a));
                lemma_swaps_near(u, z, target, r + 1, j, a);
            } else {
                assert(v[r] == x);
            }
        }
    }
}

/// Whether every exchange of a list names two places of a sequence of
/// length `n`.
pub open spec fn in_range(exchanges: Seq<(int, int)>, n: nat) -> bool {
    forall|k: int|
        0 <= k < exchanges.len() ==> 0 <= (#[trigger] exchanges[k]).0 < n && 0 <= exchanges[k].1 < n
}

/// No list of exchanges that reconciles the two orders is shorter than
/// the one that `swaps` gives.
pub proof fn lemma_swaps_minimal<A>(working: Seq<A>, target: Seq<A>, other: Seq<(int, int)>)
    requires
        rearranged(working, target),
        in_range(other, target.len()),
        apply_swaps(working, other) == target,
    ensures
        swaps(working, target, 0).len() <= other.len(),
    decreases other.len(),
{
    lemma_rearranged_len(working, target);
    if other.len() == 0 {
        lemma_no_swaps(target, 0);
    } else {
        let first = other[0];
        let next = swap_at(working, first.0, first.1);
        lemma_swap_rearranged(working, first.0, first.1);
        assert(in_range(other.skip(1), target.len())) by {
            assert forall|k: int| 0 <= k < other.skip(1).len() implies 0 <= (#[trigger] other.skip(
                1,
            )[k]).0 < target.len() && 0 <= other.skip(1)[k].1 < target.len() by {
                assert(other.skip(1)[k] == other[k + 1]);
            }
        }
        lemma_swaps_minimal(next, target, other.skip(1));
        lemma_swaps_near(working, next, target, 0, first.0, first.1);
    }
}

/// The exchanges that fill place `s` and then, one after the other, the
/// place that each exchange took its item from, until the item that is
/// left over belongs where it stands. Each exchange is the place that is
/// filled, then the place where the item that belongs there stands.
/// `fuel` bounds the number of exchanges.
pub open spec fn walk<A>(w: Seq<A>, target: Seq<A>, s: int, fuel: nat) -> Seq<(int, int)>
    decreases fuel,
{
    if fuel == 0 || s < 0 || s >= target.len() || s >= w.len() || w[s] == target[s] {
        Seq::empty()
    } else {
        let j = w.index_of(target[s]);
        seq![(s, j)] + walk(swap_at(w, s, j), target, j, (fuel - 1) as nat)
    }
}

/// The exchanges that turn `w` into `target`, ring by ring: for each
/// place from `r` on that holds a wrong item, the exchanges that fill
/// it and the places after it in its ring. An item is taken from the
/// place where it stood at first, so that an exchange names one item by
/// its place in the target and its place in the order at first.
pub open spec fn rings<A>(w: Seq<A>, target: Seq<A>, r: int) -> Seq<(int, int)>
    decreases target.len() - r,
{
    if r < 0 || r >= target.len() {
        Seq::empty()
    } else {
        let c = walk(w, target, r, target.len());
        c + rings(apply_swaps(w, c), target, r + 1)
    }
}

/// Whether each exchange of a list, made after those before it, fills a
/// place that holds a wrong item with the item that belongs there.
pub open spec fn fixing<A>(w: Seq<A>, target: Seq<A>, c: Seq<(int, int)>) -> bool
    decreases c.len(),
{
    c.len() == 0 || {
        &&& 0 <= c[0].0 < w.len()
        &&& 0 <= c[0].1 < w.len()
        &&& w[c[0].0] != target[c[0].0]
        &&& w[c[0].1] == target[c[0].0]
        &&& fixing(swap_at(w, c[0].0, c[0].1), target, c.skip(1))
    }
}

/// The plain procedure needs no more exchanges than there are places
/// from `r` on.
pub proof fn lemma_swaps_len<A>(w: Seq<A>, target: Seq<A>, r: int)
    requires
        0 <= r <= target.len(),
    ensures
        swaps(w, target, r).len() <= target.len() - r,
    decreases target.len() - r,
{
    if r < target.len() && r < w.len() {
        if w[r] == target[r] {
            lemma_swaps_len(w, target, r + 1);
        } else {
            let j = w.index_of(target[r]);
            lemma_swaps_len(swap_at(w, r, j), target, r + 1);
        }
    }
}

/// Filling a place that holds a wrong item with the item that belongs
/// there leaves one exchange less to make.
pub proof fn lemma_fix_lessens<A>(w: Seq<A>, target: Seq<A>, r: int, s: int, j: int)
    requires
        rearranged(w, target),
        0 <= r <= target.len(),
        forall|k: int| 0 <= k < r ==> w[k] == target[k],
        0 <= s < target.len(),
        0 <= j < target.len(),
        w[s] != target[s],
        w[j] == target[s],
    ensures
        swaps(w, target, r).len() == 1 + swaps(swap_at(w, s, j), target, r).len(),
    decreases target.len() - r,
{
    lemma_rearranged_len(w, target);
    let v = swap_at(w, s, j);
    lemma_swap_rearranged(w, s, j);
    assert(j != s);
    assert(w[j] != target[j]);
    assert(r < target.len());
    let x = w.index_of(target[r]);
    assert(target.contains(target[r]));
    assert(w.contains(target[r]));
    assert(w[x] == target[r]);
    if w[r] == target[r] {
        assert(v[r] == target[r]);
        assert forall|k: int| 0 <= k < r + 1 implies w[k] == target[k] by {}
        lemma_fix_lessens(w, target, r + 1, s, j);
    } else if r == s {
        lemma_index_of(w, j);
        assert(x == j);
        assert(v[r] == target[r]);
        assert(swaps(w, target, r) =~= seq![(r, j)] + swaps(v, target, r + 1));
    } else {
        let u = swap_at(w, r, x);
        lemma_swap_rearranged(w, r, x);
        if x < r {
            assert(target[x] == target[r]);
        }
        assert(swaps(w, target, r) =~= seq![(r, x)] + swaps(u, target, r + 1));
        if r == j && w[s] == target[r] {
            lemma_index_of(w, s);
            assert(x == s);
            assert(u =~= v);
            assert(v[r] == target[r]);
        } else if r == j {
            assert(x != s);
            assert(v[x] == target[r]);
            lemma_index_of(v, x);
            let z = swap_at(v, r, x);
            assert(v[r] != target[r]);
            assert(swaps(v, target, r) =~= seq![(r, x)] + swaps(z, target, r + 1));
            assert(z =~= swap_at(u, s, x));
            assert forall|k: int| 0 <= k < r + 1 implies u[k] == target[k] by {}
            lemma_fix_lessens(u, target, r + 1, s, x);
        } else if x == s {
            assert(v[j] == target[r]);
            lemma_index_of(v, j);
            let z = swap_at(v, r, j);
            assert(v[r] != target[r]);
            assert(swaps(v, target, r) =~= seq![(r, j)] + swaps(z, target, r + 1));
            assert(z =~= swap_at(u, s, j));
            assert forall|k: int| 0 <= k < r + 1 implies u[k] == target[k] by {}
            lemma_fix_lessens(u, target, r + 1, s, j);
        } else {
            assert(x != j);
            assert(v[x] == target[r]);
            lemma_index_of(v, x);
            let z = swap_at(v, r, x);
            assert(v[r] != target[r]);
            assert(swaps(v, target, r) =~= seq![(r, x)] + swaps(z, target, r + 1));
            assert(z =~= swap_at(u, s, j));
            assert forall|k: int| 0 <= k < r + 1 implies u[k] == target[k] by {}
            lemma_fix_lessens(u, target, r + 1, s, j);
        }
    }
}

/// Exchanges made after others: the order after both lists is the order
/// after the second, made on the order after the first.
pub proof fn lemma_apply_concat<A>(w: Seq<A>, a: Seq<(int, int)>, b: Seq<(int, int)>)
    ensures
        apply_swaps(w, a + b) == apply_swaps(apply_swaps(w, a), b),
    decreases a.len(),
{
    if a.len() == 0 {
        assert(a + b =~= b);
    } else {
        assert((a + b)[0] == a[0]);
        assert((a + b).skip(1) =~= a.skip(1) + b);
        lemma_apply_concat(swap_at(w, a[0].0, a[0].1), a.skip(1), b);
    }
}

/// Two lists of fixing exchanges, the second made after the first, are
/// one list of fixing exchanges.
pub proof fn lemma_fixing_concat<A>(w: Seq<A>, target: Seq<A>, a: Seq<(int, int)>, b: Seq<(int, int)>)
    requires
        fixing(w, target, a),
        fixing(apply_swaps(w, a), target, b),
    ensures
        fixing(w, target, a + b),
    decreases a.len(),
{
    if a.len() == 0 {
        assert(a + b =~= b);
    } else {
        assert((a + b)[0] == a[0]);
        assert((a + b).skip(1) =~= a.skip(1) + b);
        lemma_fixing_concat(swap_at(w, a[0].0, a[0].1), target, a.skip(1), b);
    }
}

/// Fixing exchanges leave a right item where it stands, and fill no
/// place twice.
pub proof fn lemma_fixing_keeps<A>(w: Seq<A>, target: Seq<A>, c: Seq<(int, int)>)
    requires
        rearranged(w, target),
        fixing(w, target, c),
    ensures
        rearranged(apply_swaps(w, c), target),
        forall|x: int| 0 <= x < w.len() && w[x] == target[x] ==> apply_swaps(w, c)[x] == target[x],
        forall|k: int| 0 <= k < c.len() ==> w[(#[trigger] c[k]).0] != target[c[k].0],
        forall|k: int| 0 <= k < c.len() ==> apply_swaps(w, c)[(#[trigger] c[k]).0] == target[c[k].0],
        forall|k: int, l: int| 0 <= k < l < c.len() ==> (#[trigger] c[k]).0 != (#[trigger] c[l]).0,
        forall|k: int|
            0 <= k < c.len() ==> 0 <= (#[trigger] c[k]).0 < w.len() && 0 <= c[k].1 < w.len() && c[k].0
                != c[k].1,
        swaps(w, target, 0).len() == c.len() + swaps(apply_swaps(w, c), target, 0).len(),
    decreases c.len(),
{
    lemma_rearranged_len(w, target);
    if c.len() > 0 {
        let s = c[0].0;
        let j = c[0].1;
        let v = swap_at(w, s, j);
        let rest = c.skip(1);
        lemma_swap_rearranged(w, s, j);
        lemma_fix_lessens(w, target, 0, s, j);
        lemma_fixing_keeps(v, target, rest);
        assert(v[s] == target[s]);
        assert forall|x: int| 0 <= x < w.len() && w[x] == target[x] implies v[x] == target[x] by {
            if x == j {
                assert(target[x] == target[s]);
            }
        }
        assert forall|k: int| 0 <= k < c.len() implies apply_swaps(w, c)[(#[trigger] c[k]).0]
            == target[c[k].0] && 0 <= c[k].0 < w.len() && 0 <= c[k].1 < w.len() && c[k].0 != c[k].1 by {
            if k > 0 {
                assert(c[k] == rest[k - 1]);
            }
        }
        assert forall|k: int| 0 <= k < c.len() implies w[(#[trigger] c[k]).0] != target[c[k].0] by {
            if k > 0 {
                assert(c[k] == rest[k - 1]);
                assert(v[rest[k - 1].0] != target[rest[k - 1].0]);
            }
        }
        assert forall|k: int, l: int| 0 <= k < l < c.len() implies (#[trigger] c[k]).0 != (
        #[trigger] c[l]).0 by {
            assert(c[l] == rest[l - 1]);
            if k > 0 {
                assert(c[k] == rest[k - 1]);
            }
        }
    }
}

/// The exchanges of a walk are fixing exchanges that take each item from
/// the place where it stood at first, and they leave every item right or
/// where it stood at first, given that every item but the one at `s` was
/// right or where it stood at first.
pub proof fn lemma_walk<A>(first: Seq<A>, w: Seq<A>, target: Seq<A>, s: int, fuel: nat)
    requires
        rearranged(w, target),
        first.len() == target.len(),
        0 <= s < target.len(),
        fuel >= swaps(w, target, 0).len(),
        forall|x: int| 0 <= x < target.len() && x != s ==> w[x] == target[x] || w[x] == first[x],
    ensures
        fixing(w, target, walk(w, target, s, fuel)),
        forall|x: int|
            0 <= x < target.len() ==> apply_swaps(w, walk(w, target, s, fuel))[x] == target[x]
                || apply_swaps(w, walk(w, target, s, fuel))[x] == first[x],
        apply_swaps(w, walk(w, target, s, fuel))[s] == target[s] || w[s] == first[s],
        w[s] != target[s] ==> apply_swaps(w, walk(w, target, s, fuel))[s] == target[s],
        forall|k: int|
            0 <= k < walk(w, target, s, fuel).len() ==> first[(#[trigger] walk(w, target, s, fuel)[k]).1]
                == target[walk(w, target, s, fuel)[k].0],
    decreases fuel,
{
    lemma_rearranged_len(w, target);
    let c = walk(w, target, s, fuel);
    if fuel == 0 {
        lemma_swaps_reconcile(w, target, 0);
        assert(w =~= target);
    } else if w[s] == target[s] {
    } else {
        let j = w.index_of(target[s]);
        assert(target.contains(target[s]));
        assert(w.contains(target[s]));
        assert(w[j] == target[s]);
        assert(j != s);
        assert(w[j] != target[j]);
        let v = swap_at(w, s, j);
        let rest = walk(v, target, j, (fuel - 1) as nat);
        lemma_swap_rearranged(w, s, j);
        lemma_fix_lessens(w, target, 0, s, j);
        lemma_walk(first, v, target, j, (fuel - 1) as nat);
        assert(c =~= seq![(s, j)] + rest);
        assert(c.skip(1) =~= rest);
        assert(c[0] == (s, j));
        lemma_fixing_keeps(v, target, rest);
        assert(v[s] == target[s]);
        assert forall|k: int| 0 <= k < c.len() implies first[(#[trigger] c[k]).1] == target[c[k].0] by {
            if k > 0 {
                assert(c[k] == rest[k - 1]);
            }
        }
    }
}

/// The exchanges of `rings` are fixing exchanges that end in the target
/// and take each item from the place where it stood at first.
pub proof fn lemma_rings<A>(first: Seq<A>, w: Seq<A>, target: Seq<A>, r: int)
    requires
        rearranged(w, target),
        first.len() == target.len(),
        0 <= r <= target.len(),
        forall|k: int| 0 <= k < r ==> w[k] == target[k],
        forall|x: int| 0 <= x < target.len() ==> w[x] == target[x] || w[x] == first[x],
    ensures
        fixing(w, target, rings(w, target, r)),
        apply_swaps(w, rings(w, target, r)) == target,
        forall|k: int|
            0 <= k < rings(w, target, r).len() ==> first[(#[trigger] rings(w, target, r)[k]).1]
                == target[rings(w, target, r)[k].0],
    decreases target.len() - r,
{
    lemma_rearranged_len(w, target);
    if r >= target.len() {
        assert(w =~= target);
    } else {
        let c = walk(w, target, r, target.len());
        lemma_swaps_len(w, target, 0);
        lemma_walk(first, w, target, r, target.len());
        let v = apply_swaps(w, c);
        lemma_fixing_keeps(w, target, c);
        lemma_rearranged_len(v, target);
        assert forall|k: int| 0 <= k < r + 1 implies v[k] == target[k] by {}
        lemma_rings(first, v, target, r + 1);
        let rest = rings(v, target, r + 1);
        let all = rings(w, target, r);
        assert(all =~= c + rest);
        lemma_fixing_concat(w, target, c, rest);
        lemma_apply_concat(w, c, rest);
        assert forall|k: int| 0 <= k < all.len() implies first[(#[trigger] all[k]).1] == target[all[k].0] by {
            if k < c.len() {
                assert(all[k] == c[k]);
            } else {
                assert(all[k] == rest[k - c.len()]);
            }
        }
    }
}

/// No list of exchanges that reconciles the two orders is shorter than
/// the one that `rings` gives.
pub proof fn lemma_rings_minimal<A>(working: Seq<A>, target: Seq<A>, other: Seq<(int, int)>)
    requires
        rearranged(working, target),
        in_range(other, target.len()),
        apply_swaps(working, other) == target,
    ensures
        rings(working, target, 0).len() <= other.len(),
{
    lemma_rearranged_len(working, target);
    lemma_rings(working, working, target, 0);
    lemma_fixing_keeps(working, target, rings(working, target, 0));
    lemma_no_swaps(target, 0);
    lemma_swaps_minimal(working, target, other);
}

/// No exchange is needed, ring by ring, where the order is the target already.
pub proof fn lemma_no_rings<A>(order: Seq<A>, r: int)
    ensures
        rings(order, order, r) == Seq::<(int, int)>::empty(),
    decreases order.len() - r,
{
    if 0 <= r < order.len() {
        let c = walk(order, order, r, order.len());
        assert(c =~= Seq::<(int, int)>::empty());
        assert(apply_swaps(order, c) == order);
        lemma_no_rings(order, r + 1);
        assert(rings(order, order, r) =~= c + rings(order, order, r + 1));
    }
}

} // verus!
