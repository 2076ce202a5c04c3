//! Orders of items by a key, and searches in ordered keys.

use vstd::prelude::*;

verus! {

/// Item `a` stands before item `b`: its key is smaller, or the keys are equal and it came first.
pub open spec fn precedes(keys: Seq<u64>, a: usize, b: usize) -> bool {
    keys[a as int] < keys[b as int] || (keys[a as int] == keys[b as int] && a < b)
}

/// The items from `lo` up to `hi`, each of them once, in their order.
pub open spec fn in_order(keys: Seq<u64>, lo: int, hi: int, r: Seq<usize>) -> bool {
    &&& r.len() == hi - lo
    &&& forall|i: int| 0 <= i < r.len() ==> lo <= #[trigger] r[i] < hi
    &&& forall|i: int, j: int|
        0 <= i < j < r.len() ==> precedes(keys, #[trigger] r[i], #[trigger] r[j])
    &&& forall|k: usize| lo <= k < hi ==> #[trigger] r.contains(k)
}

/// All items in the order of their keys; items with equal keys keep the order they have.
pub open spec fn sorts(keys: Seq<u64>, r: Seq<usize>) -> bool {
    in_order(keys, 0, keys.len() as int, r)
}

fn merge(keys: &Vec<u64>, lo: usize, mid: usize, hi: usize, a: &Vec<usize>, b: &Vec<usize>) -> (r:
    Vec<usize>)
    requires
        lo <= mid <= hi <= keys@.len(),
        in_order(keys@, lo as int, mid as int, a@),
        in_order(keys@, mid as int, hi as int, b@),
    ensures
        in_order(keys@, lo as int, hi as int, r@),
{
    let mut out: Vec<usize> = Vec::new();
    let mut i: usize = 0;
    let mut j: usize = 0;
    while i < a.len() || j < b.len()
        invariant
            lo <= mid <= hi <= keys@.len(),
            in_order(keys@, lo as int, mid as int, a@),
            in_order(keys@, mid as int, hi as int, b@),
            i <= a.len(),
            j <= b.len(),
            out@.len() == i + j,
            forall|x: int| 0 <= x < out@.len() ==> lo <= #[trigger] out@[x] < hi,
            forall|x: int, y: int|
                0 <= x < y < out@.len() ==> precedes(
                    keys@,
                    #[trigger] out@[x],
                    #[trigger] out@[y],
                ),
            forall|x: int, y: int|
                0 <= x < out@.len() && i <= y < a@.len() ==> precedes(
                    keys@,
                    #[trigger] out@[x],
                    #[trigger] a@[y],
                ),
            forall|x: int, y: int|
                0 <= x < out@.len() && j <= y < b@.len() ==> precedes(
                    keys@,
                    #[trigger] out@[x],
                    #[trigger] b@[y],
                ),
            forall|x: int| 0 <= x < i ==> out@.contains(#[trigger] a@[x]),
            forall|x: int| 0 <= x < j ==> out@.contains(#[trigger] b@[x]),
        decreases a.len() - i + b.len() - j,
    {
        let ghost before = out@;
        let first = j >= b.len() || (i < a.len() && keys[a[i]] <= keys[b[j]]);
        if first {
            let v = a[i];
            out.push(v);
            assert(out@[out@.len() - 1] == a@[i as int]);
            i += 1;
        } else {
            let v = b[j];
            out.push(v);
            assert(out@[out@.len() - 1] == b@[j as int]);
            j += 1;
        }
        assert forall|k: usize| #[trigger] before.contains(k) implies out@.contains(k) by {
            let x = choose|x: int| 0 <= x < before.len() && before[x] == k;
            assert(out@[x] == k);
        }
        assert(out@.contains(out@[out@.len() - 1]));
    }
    assert forall|k: usize| lo <= k < hi implies #[trigger] out@.contains(k) by {
        if k < mid {
            assert(a@.contains(k));
            let x = choose|x: int| 0 <= x < a@.len() && a@[x] == k;
            assert(out@.contains(a@[x]));
        } else {
            assert(b@.contains(k));
            let x = choose|x: int| 0 <= x < b@.len() && b@[x] == k;
            assert(out@.contains(b@[x]));
        }
    }
    out
}

fn sort_part(keys: &Vec<u64>, lo: usize, hi: usize) -> (r: Vec<usize>)
    requires
        lo <= hi <= keys@.len(),
    ensures
        in_order(keys@, lo as int, hi as int, r@),
    decreases hi - lo,
{
    if hi - lo == 0 {
        return Vec::new();
    }
    if hi - lo == 1 {
        let r = vec![lo];
        assert(r@[0] == lo);
        return r;
    }
    let mid: usize = lo + (hi - lo) / 2;
    let a = sort_part(keys, lo, mid);
    let b = sort_part(keys, mid, hi);
    merge(keys, lo, mid, hi, &a, &b)
}

/// The order of items by their keys.
pub fn sorted_order(keys: &Vec<u64>) -> (r: Vec<usize>)
    ensures
        sorts(keys@, r@),
{
    sort_part(keys, 0, keys.len())
}

/// The order of items by their keys, the largest key first; items with equal keys keep the order
/// they have.
pub open spec fn sorts_down(keys: Seq<u64>, r: Seq<usize>) -> bool {
    sorts(keys.map_values(|k: u64| (u64::MAX - k) as u64), r)
}

/// The order of items by their keys, the largest key first.
pub fn descending_order(keys: &Vec<u64>) -> (r: Vec<usize>)
    ensures
        sorts_down(keys@, r@),
{
    let mut flipped: Vec<u64> = Vec::new();
    let mut i: usize = 0;
    while i < keys.len()
        invariant
            i <= keys.len(),
            flipped@ == keys@.take(i as int).map_values(|k: u64| (u64::MAX - k) as u64),
        decreases keys.len() - i,
    {
        flipped.push(u64::MAX - keys[i]);
        i += 1;
        assert(flipped@ =~= keys@.take(i as int).map_values(|k: u64| (u64::MAX - k) as u64));
    }
    assert(keys@.take(i as int) == keys@);
    sorted_order(&flipped)
}

/// Keys that do not fall.
pub open spec fn rising(keys: Seq<u64>) -> bool {
    forall|i: int, j: int| 0 <= i <= j < keys.len() ==> #[trigger] keys[i] <= #[trigger] keys[j]
}

/// The number of leading keys that are below `bound`.
pub open spec fn below(keys: Seq<u64>, bound: u64, r: int) -> bool {
    &&& 0 <= r <= keys.len()
    &&& forall|i: int| 0 <= i < r ==> #[trigger] keys[i] < bound
    &&& forall|i: int| r <= i < keys.len() ==> #[trigger] keys[i] >= bound
}

/// The number of keys below `bound`.
pub fn count_below(keys: &Vec<u64>, bound: u64) -> (r: usize)
    requires
        rising(keys@),
    ensures
        below(keys@, bound, r as int),
{
    let mut lo: usize = 0;
    let mut hi: usize = keys.len();
    while lo < hi
        invariant
            rising(keys@),
            lo <= hi <= keys@.len(),
            forall|i: int| 0 <= i < lo ==> #[trigger] keys@[i] < bound,
            forall|i: int| hi <= i < keys@.len() ==> #[trigger] keys@[i] >= bound,
        decreases hi - lo,
    {
        let mid: usize = lo + (hi - lo) / 2;
        if keys[mid] < bound {
            lo = mid + 1;
        } else {
            hi = mid;
        }
    }
    lo
}

/// The last of the keys that are at most `bound`.
pub open spec fn last_up_to(keys: Seq<u64>, bound: u64) -> Option<int>
    decreases keys.len(),
{
    if keys.len() == 0 {
        None
    } else if keys.last() <= bound {
        Some(keys.len() - 1)
    } else {
        last_up_to(keys.drop_last(), bound)
    }
}

proof fn lemma_last_up_to(keys: Seq<u64>, bound: u64, n: int)
    requires
        0 <= n <= keys.len(),
        n > 0 ==> keys[n - 1] <= bound,
        forall|i: int| n <= i < keys.len() ==> #[trigger] keys[i] > bound,
    ensures
        last_up_to(keys, bound) == (if n == 0 {
            None
        } else {
            Some(n - 1)
        }),
    decreases keys.len(),
{
    if n < keys.len() {
        lemma_last_up_to(keys.drop_last(), bound, n);
    }
}

/// The place of the last of the keys that are at most `bound`.
pub fn find_up_to(keys: &Vec<u64>, bound: u64) -> (r: Option<usize>)
    requires
        rising(keys@),
    ensures
        last_up_to(keys@, bound) == (match r {
            Some(i) => Some(i as int),
            None => None,
        }),
        r matches Some(i) ==> i < keys@.len() && keys@[i as int] <= bound,
{
    let n = if bound == u64::MAX {
        keys.len()
    } else {
        count_below(keys, bound + 1)
    };
    proof {
        lemma_last_up_to(keys@, bound, n as int);
    }
    if n == 0 {
        None
    } else {
        Some(n - 1)
    }
}

/// In the order by keys, each item stands once; the keys do not fall, and of items with equal keys
/// the one that came first stands first.
pub proof fn law_order_is_stable(keys: Seq<u64>, r: Seq<usize>)
    requires
        sorts(keys, r),
        keys.len() <= usize::MAX,
    ensures
        r.len() == keys.len(),
        forall|k: int| 0 <= k < keys.len() ==> r.contains(#[trigger] keys_place(k)),
        forall|i: int, j: int|
            0 <= i < j < r.len() ==> keys[#[trigger] r[i] as int] < keys[#[trigger] r[j] as int] || (
            keys[r[i] as int] == keys[r[j] as int] && r[i] < r[j]),
        forall|i: int| 0 <= i < r.len() ==> 0 <= #[trigger] r[i] < keys.len(),
{
}

/// A place as an index.
pub open spec fn keys_place(k: int) -> usize {
    k as usize
}

/// In the descending order by keys, each item stands once; the keys do not rise, and of items with
/// equal keys the one that came first stands first.
pub proof fn law_descending_order_is_stable(keys: Seq<u64>, r: Seq<usize>)
    requires
        sorts_down(keys, r),
        keys.len() <= usize::MAX,
    ensures
        r.len() == keys.len(),
        forall|k: int| 0 <= k < keys.len() ==> r.contains(#[trigger] keys_place(k)),
        forall|i: int, j: int|
            0 <= i < j < r.len() ==> keys[#[trigger] r[i] as int] > keys[#[trigger] r[j] as int] || (
            keys[r[i] as int] == keys[r[j] as int] && r[i] < r[j]),
        forall|i: int| 0 <= i < r.len() ==> 0 <= #[trigger] r[i] < keys.len(),
{
    let down = keys.map_values(|k: u64| (u64::MAX - k) as u64);
    assert forall|i: int, j: int| 0 <= i < j < r.len() implies keys[#[trigger] r[i] as int]
        > keys[#[trigger] r[j] as int] || (keys[r[i] as int] == keys[r[j] as int] && r[i] < r[j]) by {
        assert(precedes(down, r[i], r[j]));
        assert(down[r[i] as int] == u64::MAX - keys[r[i] as int]);
        assert(down[r[j] as int] == u64::MAX - keys[r[j] as int]);
    }
}

/// The keys below a bound are exactly the first ones, as many as were counted.
pub proof fn law_keys_below_come_first(keys: Seq<u64>, bound: u64, r: int, i: int)
    requires
        below(keys, bound, r),
        0 <= i < keys.len(),
    ensures
        keys[i] < bound <==> i < r,
{
}

} // verus!
