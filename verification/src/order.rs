//! Selections by order over a block of keys.
//!
//! A key is a 64-bit integer that stands for a sample in comparisons: the
//! caller maps its samples to keys so that the order of the keys is the
//! order it wants of the samples, and maps the chosen keys back. Medians,
//! quartiles, the median filter, the first maximum and the first crossing
//! of a threshold are all picks of this kind.

use crate::error::SignalError;
use vstd::prelude::*;
use vstd::relations::*;

verus! {

/// The quality mark of a sample.
#[derive(Debug, Clone, Copy, PartialEq, Eq, Structural)]
pub enum DataQuality {
    Good,
    Uncertain,
    Bad,
}

/// `Ok` for a block that is long enough, `InsufficientLength` with both
/// lengths for one that is not.
pub fn ensure_length(actual: usize, required: usize) -> (r: Result<(), SignalError>)
    ensures
        r == if actual < required {
            Err::<(), SignalError>(SignalError::InsufficientLength { required, actual })
        } else {
            Ok(())
        },
{
    if actual < required {
        Err(SignalError::InsufficientLength { required, actual })
    } else {
        Ok(())
    }
}

/// Keys never decrease from front to back.
pub open spec fn ascending_keys(s: Seq<i64>) -> bool {
    forall|i: int, j: int| 0 <= i < j < s.len() ==> s[i] <= s[j]
}

/// `<=` on keys.
pub open spec fn key_order() -> spec_fn(i64, i64) -> bool {
    |a: i64, b: i64| a <= b
}

/// The keys in ascending order.
pub open spec fn sorted_keys(s: Seq<i64>) -> Seq<i64> {
    s.sort_by(key_order())
}

/// `sorted_keys` holds the same keys, as often, in ascending order.
pub proof fn lemma_sorted_keys(s: Seq<i64>)
    ensures
        ascending_keys(sorted_keys(s)),
        sorted_keys(s).to_multiset() == s.to_multiset(),
        sorted_keys(s).len() == s.len(),
{
    assert(total_ordering(key_order()));
    s.lemma_sort_by_ensures(key_order());
    let t = sorted_keys(s);
    assert forall|i: int, j: int| 0 <= i < j < t.len() implies t[i] <= t[j] by {
        assert(key_order()(t[i], t[j]));
    }
    s.to_multiset_ensures();
    t.to_multiset_ensures();
}

/// An ascending arrangement of the keys of `s` is `sorted_keys(s)`: there
/// is no other.
pub proof fn lemma_sorted_keys_unique(x: Seq<i64>, s: Seq<i64>)
    requires
        ascending_keys(x),
        x.to_multiset() == s.to_multiset(),
    ensures
        x == sorted_keys(s),
{
    lemma_sorted_keys(s);
    let t = sorted_keys(s);
    assert(total_ordering(key_order()));
    assert(sorted_by(x, key_order())) by {
        assert forall|i: int, j: int| 0 <= i < j < x.len() implies #[trigger] key_order()(
            x[i],
            x[j],
        ) by {}
    }
    assert(sorted_by(t, key_order())) by {
        assert forall|i: int, j: int| 0 <= i < j < t.len() implies #[trigger] key_order()(
            t[i],
            t[j],
        ) by {}
    }
    vstd::seq_lib::lemma_sorted_unique(x, t, key_order());
}

/// The keys of `keys[from..to]`, in their order.
fn copy_range(keys: &Vec<i64>, from: usize, to: usize) -> (r: Vec<i64>)
    requires
        from <= to <= keys@.len(),
    ensures
        r@ == keys@.subrange(from as int, to as int),
{
    let mut out: Vec<i64> = Vec::new();
    let mut i: usize = from;
    while i < to
        invariant
            from <= i <= to <= keys@.len(),
            out@ == keys@.subrange(from as int, i as int),
        decreases to - i,
    {
        out.push(keys[i]);
        assert(out@ =~= keys@.subrange(from as int, i + 1));
        i += 1;
    }
    out
}

/// Merges two ascending vectors into one.
fn merge_keys(a: &Vec<i64>, b: &Vec<i64>) -> (r: Vec<i64>)
    requires
        ascending_keys(a@),
        ascending_keys(b@),
    ensures
        ascending_keys(r@),
        r@.to_multiset() == a@.to_multiset().add(b@.to_multiset()),
{
    let mut out: Vec<i64> = Vec::new();
    let mut i: usize = 0;
    let mut j: usize = 0;
    proof {
        broadcast use vstd::seq_lib::group_to_multiset_ensures;

        assert(a@.take(0) =~= Seq::<i64>::empty());
        assert(b@.take(0) =~= Seq::<i64>::empty());
        assert(out@.to_multiset() =~= a@.take(0).to_multiset().add(b@.take(0).to_multiset()));
    }
    while i < a.len() || j < b.len()
        invariant
            i <= a@.len(),
            j <= b@.len(),
            ascending_keys(a@),
            ascending_keys(b@),
            ascending_keys(out@),
            out@.to_multiset() == a@.take(i as int).to_multiset().add(
                b@.take(j as int).to_multiset(),
            ),
            forall|k: int| 0 <= k < out@.len() && i < a@.len() ==> out@[k] <= a@[i as int],
            forall|k: int| 0 <= k < out@.len() && j < b@.len() ==> out@[k] <= b@[j as int],
        decreases a@.len() - i + b@.len() - j,
    {
        let take_left = if i >= a.len() {
            false
        } else if j >= b.len() {
            true
        } else {
            a[i] <= b[j]
        };
        let ghost before = out@;
        if take_left {
            let x = a[i];
            out.push(x);
            proof {
                broadcast use vstd::seq_lib::group_to_multiset_ensures;

                assert(a@.take(i + 1) =~= a@.take(i as int).push(x));
                assert(out@.to_multiset() =~= a@.take(i + 1).to_multiset().add(
                    b@.take(j as int).to_multiset(),
                ));
            }
            i += 1;
        } else {
            let x = b[j];
            out.push(x);
            proof {
                broadcast use vstd::seq_lib::group_to_multiset_ensures;

                assert(b@.take(j + 1) =~= b@.take(j as int).push(x));
                assert(out@.to_multiset() =~= a@.take(i as int).to_multiset().add(
                    b@.take(j + 1).to_multiset(),
                ));
            }
            j += 1;
        }
    }
    assert(a@.take(i as int) =~= a@ && b@.take(j as int) =~= b@);
    out
}

/// Sorts a vector of keys by merging its sorted halves.
fn sort_keys(keys: Vec<i64>) -> (r: Vec<i64>)
    ensures
        ascending_keys(r@),
        r@.to_multiset() == keys@.to_multiset(),
    decreases keys@.len(),
{
    let n = keys.len();
    if n <= 1 {
        return keys;
    }
    let mid = n / 2;
    let left = copy_range(&keys, 0, mid);
    let right = copy_range(&keys, mid, n);
    proof {
        assert(keys@ =~= left@ + right@);
        vstd::seq_lib::lemma_multiset_commutative(left@, right@);
    }
    let left = sort_keys(left);
    let right = sort_keys(right);
    merge_keys(&left, &right)
}

/// The keys of `keys[from..to]`, in ascending order.
pub fn sorted_range(keys: &Vec<i64>, from: usize, to: usize) -> (r: Vec<i64>)
    requires
        from <= to <= keys@.len(),
    ensures
        r@ == sorted_keys(keys@.subrange(from as int, to as int)),
        r@.len() == to - from,
{
    let out = sort_keys(copy_range(keys, from, to));
    proof {
        lemma_sorted_keys_unique(out@, keys@.subrange(from as int, to as int));
        lemma_sorted_keys(keys@.subrange(from as int, to as int));
    }
    out
}

/// The keys in ascending order.
pub fn sorted(keys: &Vec<i64>) -> (r: Vec<i64>)
    ensures
        r@ == sorted_keys(keys@),
        r@.len() == keys@.len(),
{
    assert(keys@.subrange(0, keys@.len() as int) =~= keys@);
    sorted_range(keys, 0, keys.len())
}

/// The place of the median in a sorted block of `n` keys: the middle, and
/// of two middles the lower.
pub open spec fn median_index(n: int) -> int {
    (n - 1) / 2
}

/// The median of a block that is not empty: the key at `median_index` of
/// the block in ascending order.
pub open spec fn median_of(s: Seq<i64>) -> i64 {
    sorted_keys(s)[median_index(s.len() as int)]
}

/// The median of the block; `None` for an empty block.
pub fn median(keys: &Vec<i64>) -> (r: Option<i64>)
    ensures
        r == if keys@.len() == 0 {
            None
        } else {
            Some(median_of(keys@))
        },
{
    let n = keys.len();
    if n == 0 {
        None
    } else {
        let s = sorted(keys);
        Some(s[(n - 1) / 2])
    }
}

/// Three picks from a block in ascending order.
#[derive(Debug, Clone, Copy, PartialEq, Eq, Structural)]
pub struct Quartiles {
    /// The key at index `n / 4`.
    pub q1: i64,
    /// The key at `median_index`.
    pub median: i64,
    /// The key at index `3 * n / 4`.
    pub q3: i64,
}

/// The quartile picks of a block that is not empty.
pub open spec fn quartiles_of(s: Seq<i64>) -> Quartiles {
    let n = s.len() as int;
    let t = sorted_keys(s);
    Quartiles { q1: t[n / 4], median: t[median_index(n)], q3: t[3 * n / 4] }
}

/// The quartile picks of the block, by index and without interpolation;
/// `InsufficientLength` for an empty block.
pub fn quartiles(keys: &Vec<i64>) -> (r: Result<Quartiles, SignalError>)
    ensures
        r == if keys@.len() == 0 {
            Err::<Quartiles, SignalError>(SignalError::InsufficientLength { required: 1, actual: 0 })
        } else {
            Ok(quartiles_of(keys@))
        },
{
    let n = keys.len();
    if let Err(e) = ensure_length(n, 1) {
        return Err(e);
    }
    let s = sorted(keys);
    let upper: usize = (n / 4) * 3 + (n % 4) * 3 / 4;
    assert(upper == 3 * n / 4);
    Ok(Quartiles { q1: s[n / 4], median: s[(n - 1) / 2], q3: s[upper] })
}

/// Where the filter window around index `i` begins: `half` places to the
/// left, or at the front of the block.
pub open spec fn window_from(i: int, half: int) -> int {
    if i >= half {
        i - half
    } else {
        0
    }
}

/// Where the filter window around index `i` ends: behind the place `half`
/// to the right, or at the end of the block.
pub open spec fn window_to(i: int, half: int, len: int) -> int {
    if i + half + 1 <= len {
        i + half + 1
    } else {
        len
    }
}

/// The output of the median filter at index `i`: of the window around `i`,
/// clipped to the block and put in ascending order, the key at half its
/// length.
pub open spec fn filtered_at(s: Seq<i64>, window_size: int, i: int) -> i64 {
    let half = window_size / 2;
    let from = window_from(i, half);
    let to = window_to(i, half, s.len() as int);
    sorted_keys(s.subrange(from, to))[(to - from) / 2]
}

/// The median filter: every key is replaced by the middle key of the
/// centred window around it. `InsufficientLength` for a block shorter
/// than the window.
pub fn median_filter(keys: &Vec<i64>, window_size: usize) -> (r: Result<Vec<i64>, SignalError>)
    ensures
        keys@.len() < window_size ==> r == Err::<Vec<i64>, SignalError>(
            SignalError::InsufficientLength { required: window_size, actual: keys@.len() as usize },
        ),
        keys@.len() >= window_size ==> r is Ok && r->Ok_0@.len() == keys@.len() && forall|i: int|
            0 <= i < keys@.len() ==> #[trigger] r->Ok_0@[i] == filtered_at(
                keys@,
                window_size as int,
                i,
            ),
{
    let len = keys.len();
    if let Err(e) = ensure_length(len, window_size) {
        return Err(e);
    }
    let half: usize = window_size / 2;
    let mut out: Vec<i64> = Vec::new();
    let mut i: usize = 0;
    while i < len
        invariant
            i <= len,
            len == keys@.len(),
            half == window_size / 2,
            half <= len,
            out@.len() == i,
            forall|k: int|
                0 <= k < i ==> #[trigger] out@[k] == filtered_at(keys@, window_size as int, k),
        decreases len - i,
    {
        let from: usize = if i >= half {
            i - half
        } else {
            0
        };
        let to: usize = if half + 1 <= len - i {
            i + half + 1
        } else {
            len
        };
        let window = sorted_range(keys, from, to);
        out.push(window[(to - from) / 2]);
        i += 1;
    }
    Ok(out)
}

/// The first place of the greatest key; `None` for an empty block.
pub fn first_maximum(keys: &Vec<i64>) -> (r: Option<usize>)
    ensures
        r is None <==> keys@.len() == 0,
        r matches Some(m) ==> {
            &&& m < keys@.len()
            &&& forall|i: int| 0 <= i < keys@.len() ==> keys@[i] <= keys@[m as int]
            &&& forall|i: int| 0 <= i < m ==> keys@[i] < keys@[m as int]
        },
{
    if keys.len() == 0 {
        return None;
    }
    let mut best: usize = 0;
    let mut i: usize = 1;
    while i < keys.len()
        invariant
            1 <= i <= keys@.len(),
            best < i,
            forall|k: int| 0 <= k < i ==> keys@[k] <= keys@[best as int],
            forall|k: int| 0 <= k < best ==> keys@[k] < keys@[best as int],
        decreases keys@.len() - i,
    {
        if keys[i] > keys[best] {
            best = i;
        }
        i += 1;
    }
    Some(best)
}

/// The first place whose key is at least the target, as a length: the
/// number of keys in front of it. It is the length of the block where no
/// key reaches the target.
pub open spec fn reach(s: Seq<i64>, target: i64) -> nat
    decreases s.len(),
{
    if s.len() > 0 && s[0] < target {
        1 + reach(s.skip(1), target)
    } else {
        0
    }
}

/// `reach` stays inside the block; the keys in front of it lie below the
/// target, and the key at it, if there is one, does not.
pub proof fn lemma_reach(s: Seq<i64>, target: i64)
    ensures
        reach(s, target) <= s.len(),
        forall|i: int| 0 <= i < reach(s, target) ==> s[i] < target,
        reach(s, target) < s.len() ==> s[reach(s, target) as int] >= target,
    decreases s.len(),
{
    if s.len() > 0 && s[0] < target {
        let rest = s.skip(1);
        lemma_reach(rest, target);
        let n = reach(rest, target) as int;
        assert forall|i: int| 0 <= i < n + 1 implies s[i] < target by {
            if i > 0 {
                assert(s[i] == rest[i - 1]);
            }
        }
        if n < rest.len() {
            assert(s[n + 1] == rest[n]);
        }
    }
}

/// A higher target is reached no earlier.
pub proof fn lemma_reach_monotone(s: Seq<i64>, low: i64, high: i64)
    requires
        low <= high,
    ensures
        reach(s, low) <= reach(s, high),
{
    lemma_reach(s, low);
    lemma_reach(s, high);
    if reach(s, high) < reach(s, low) {
        assert(s[reach(s, high) as int] < low);
    }
}

/// The first place whose key is at least the target; `None` where no key
/// reaches it.
pub fn first_reaching(keys: &Vec<i64>, target: i64) -> (r: Option<usize>)
    ensures
        r == if reach(keys@, target) < keys@.len() {
            Some(reach(keys@, target) as usize)
        } else {
            None
        },
{
    let mut i: usize = 0;
    assert(keys@.skip(0) =~= keys@);
    while i < keys.len() && keys[i] < target
        invariant
            i <= keys@.len(),
            reach(keys@, target) == i + reach(keys@.skip(i as int), target),
        decreases keys@.len() - i,
    {
        assert(keys@.skip(i as int).skip(1) =~= keys@.skip(i + 1));
        i += 1;
    }
    if i < keys.len() {
        Some(i)
    } else {
        None
    }
}

/// The sign of a sample as the count of zero crossings sees it.
#[derive(Debug, Clone, Copy, PartialEq, Eq, Structural)]
pub enum Sign {
    /// Below zero.
    Negative,
    /// Zero or above.
    NonNegative,
    /// Neither: not a number.
    Unordered,
}

/// Whether two neighbours lie on opposite sides of zero.
pub open spec fn crosses(a: Sign, b: Sign) -> bool {
    (a is NonNegative && b is Negative) || (a is Negative && b is NonNegative)
}

/// The number of neighbouring pairs that lie on opposite sides of zero.
pub open spec fn crossings(s: Seq<Sign>) -> nat
    decreases s.len(),
{
    if s.len() < 2 {
        0
    } else {
        crossings(s.drop_last()) + if crosses(s[s.len() - 2], s[s.len() - 1]) {
            1nat
        } else {
            0nat
        }
    }
}

/// Counts the zero crossings of a block of signs.
pub fn zero_crossings(signs: &Vec<Sign>) -> (r: usize)
    ensures
        r == crossings(signs@),
{
    if signs.len() < 2 {
        return 0;
    }
    let mut count: usize = 0;
    let mut i: usize = 1;
    assert(signs@.take(1).len() < 2);
    while i < signs.len()
        invariant
            1 <= i <= signs@.len(),
            count == crossings(signs@.take(i as int)),
            count < i,
        decreases signs@.len() - i,
    {
        let a = signs[i - 1];
        let b = signs[i];
        let opposite = match (a, b) {
            (Sign::NonNegative, Sign::Negative) => true,
            (Sign::Negative, Sign::NonNegative) => true,
            _ => false,
        };
        proof {
            let t = signs@.take(i + 1);
            assert(t.drop_last() =~= signs@.take(i as int));
            assert(t[t.len() - 2] == a && t[t.len() - 1] == b);
        }
        if opposite {
            count += 1;
        }
        i += 1;
    }
    assert(signs@.take(i as int) =~= signs@);
    count
}

} // verus!
