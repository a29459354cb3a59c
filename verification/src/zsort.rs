//! Sorting a queue of nodes by their places on the z-order curve.
use vstd::prelude::*;

verus! {

/// Queues of at least this many items are sorted by radix passes, shorter ones by insertion.
pub const RADIX_MIN_LEN: usize = 512;

/// The key by which an item of a queue of `n` items is ordered: the z-order value itself in a
/// short queue, its bit pattern read as an unsigned number in a long one. Both agree on every
/// value that is not negative.
pub open spec fn z_key(n: nat, z: i32) -> int {
    if n < RADIX_MIN_LEN {
        z as int
    } else {
        (z as u32) as int
    }
}

/// The keys of a queue, in queue order.
pub open spec fn z_keys<T>(s: Seq<(i32, T)>) -> Seq<int> {
    Seq::new(s.len(), |i: int| z_key(s.len(), s[i].0))
}

/// Item `a` comes before item `b`: by key, and by place in the queue where the keys tie.
pub open spec fn precedes(keys: Seq<int>, a: int, b: int) -> bool {
    keys[a] < keys[b] || (keys[a] == keys[b] && a < b)
}

/// `perm` lists every place of `keys` once, each before the next.
pub open spec fn is_stable_order(keys: Seq<int>, perm: Seq<int>) -> bool {
    &&& perm.len() == keys.len()
    &&& forall|j: int| 0 <= j < perm.len() ==> 0 <= #[trigger] perm[j] < keys.len()
    &&& forall|j: int, k: int|
        0 <= j < k < perm.len() ==> precedes(keys, #[trigger] perm[j], #[trigger] perm[k])
}

/// The places of `keys` in stable ascending order.
pub open spec fn stable_order(keys: Seq<int>) -> Seq<int> {
    choose|perm: Seq<int>| is_stable_order(keys, perm)
}

/// The items of `s` taken in the order that `perm` gives.
pub open spec fn permuted<T>(s: Seq<T>, perm: Seq<int>) -> Seq<T> {
    Seq::new(perm.len(), |j: int| s[perm[j]])
}

/// A z-order queue in stable ascending order of its keys.
pub open spec fn z_sorted<T>(s: Seq<(i32, T)>) -> Seq<(i32, T)> {
    permuted(s, stable_order(z_keys(s)))
}

/// A sequence of `n` distinct numbers below `n` holds every number below `n`.
pub proof fn lemma_distinct_is_onto(perm: Seq<int>, i: int)
    requires
        forall|j: int| 0 <= j < perm.len() ==> 0 <= #[trigger] perm[j] < perm.len(),
        perm.no_duplicates(),
        0 <= i < perm.len(),
    ensures
        perm.contains(i),
{
    let n = perm.len() as int;
    perm.unique_seq_to_set();
    vstd::set_lib::lemma_int_range(0, n);
    let all = vstd::set_lib::set_int_range(0, n);
    assert(perm.to_set().subset_of(all)) by {
        assert forall|x: int| perm.to_set().contains(x) implies all.contains(x) by {
            let j = choose|j: int| 0 <= j < perm.len() && perm[j] == x;
            assert(0 <= perm[j] < perm.len());
        }
    }
    vstd::set_lib::lemma_subset_equality(perm.to_set(), all);
    assert(all.contains(i));
}

/// There is only one stable order.
pub proof fn lemma_stable_order_unique(keys: Seq<int>, p: Seq<int>, q: Seq<int>)
    requires
        is_stable_order(keys, p),
        is_stable_order(keys, q),
    ensures
        p == q,
{
    if p != q {
        assert(exists|j: int| 0 <= j < p.len() && p[j] != q[j]) by {
            if forall|j: int| 0 <= j < p.len() ==> p[j] == q[j] {
                assert(p =~= q);
            }
        }
        let j = lemma_first_difference(p, q, 0);
        lemma_order_step(keys, p, q, j);
        lemma_order_step(keys, q, p, j);
    }
}

/// The first place from `from` on at which two sequences of one length differ.
proof fn lemma_first_difference(p: Seq<int>, q: Seq<int>, from: int) -> (j: int)
    requires
        p.len() == q.len(),
        0 <= from,
        exists|j: int| from <= j < p.len() && p[j] != q[j],
        forall|i: int| 0 <= i < from ==> p[i] == q[i],
    ensures
        0 <= j < p.len(),
        p[j] != q[j],
        forall|i: int| 0 <= i < j ==> p[i] == q[i],
    decreases p.len() - from,
{
    if p[from] != q[from] {
        from
    } else {
        lemma_first_difference(p, q, from + 1)
    }
}

/// Where two stable orders agree up to `j`, the `j`-th of one cannot come after that of the
/// other.
proof fn lemma_order_step(keys: Seq<int>, p: Seq<int>, q: Seq<int>, j: int)
    requires
        is_stable_order(keys, p),
        is_stable_order(keys, q),
        0 <= j < p.len(),
        forall|i: int| 0 <= i < j ==> p[i] == q[i],
    ensures
        p[j] == q[j] || precedes(keys, q[j], p[j]),
{
    assert(q.no_duplicates());
    assert(p.no_duplicates());
    lemma_distinct_is_onto(q, p[j]);
    let m = choose|m: int| 0 <= m < q.len() && q[m] == p[j];
    if m < j {
        assert(p[m] == q[m]);
    }
}

/// How many of the first `m` places of the order `p` hold a key of at most `key`, counted from
/// the top down: the place at which an item of that key is inserted.
proof fn lemma_insertion_point(keys: Seq<int>, p: Seq<int>, key: int, m: int) -> (at: int)
    requires
        is_stable_order(keys, p),
        0 <= m <= p.len(),
        forall|j: int| m <= j < p.len() ==> keys[#[trigger] p[j]] > key,
    ensures
        0 <= at <= p.len(),
        forall|j: int| 0 <= j < at ==> keys[#[trigger] p[j]] <= key,
        forall|j: int| at <= j < p.len() ==> keys[#[trigger] p[j]] > key,
    decreases m,
{
    if m == 0 {
        m
    } else if keys[p[m - 1]] <= key {
        assert forall|j: int| 0 <= j < m implies keys[#[trigger] p[j]] <= key by {
            if j < m - 1 {
                assert(precedes(keys, p[j], p[m - 1]));
            }
        }
        m
    } else {
        lemma_insertion_point(keys, p, key, m - 1)
    }
}

/// Every sequence of keys has a stable order.
pub proof fn lemma_stable_order_exists(keys: Seq<int>)
    ensures
        is_stable_order(keys, stable_order(keys)),
    decreases keys.len(),
{
    if keys.len() == 0 {
        assert(is_stable_order(keys, Seq::empty()));
    } else {
        let n = keys.len() - 1;
        let front = keys.drop_last();
        lemma_stable_order_exists(front);
        let p = stable_order(front);
        let at = lemma_insertion_point(front, p, keys[n], n as int);
        let q = p.insert(at, n as int);
        assert forall|j: int| 0 <= j < q.len() implies 0 <= #[trigger] q[j] < keys.len() by {
            if j < at {
                assert(q[j] == p[j]);
            } else if j > at {
                assert(q[j] == p[j - 1]);
            }
        }
        assert forall|j: int, k: int| 0 <= j < k < q.len() implies precedes(
            keys,
            #[trigger] q[j],
            #[trigger] q[k],
        ) by {
            let a = if j < at {
                j
            } else {
                j - 1
            };
            let b = if k < at {
                k
            } else {
                k - 1
            };
            if j != at {
                assert(q[j] == p[a]);
            }
            if k != at {
                assert(q[k] == p[b]);
            }
            if j != at && k != at {
                assert(precedes(front, p[a], p[b]));
            }
        }
        assert(is_stable_order(keys, q));
    }
}

/// Once an order is known to be stable, it is the one that `stable_order` names.
pub proof fn lemma_stable_order_is(keys: Seq<int>, p: Seq<int>)
    requires
        is_stable_order(keys, p),
    ensures
        stable_order(keys) == p,
{
    lemma_stable_order_unique(keys, p, stable_order(keys));
}

/// Number of items among the first `j` whose byte at `shift` is `b`.
spec fn count_eq(keys: Seq<u32>, shift: u32, b: int, j: int) -> int
    decreases j,
{
    if j <= 0 {
        0
    } else {
        count_eq(keys, shift, b, j - 1) + if byte_at(keys[j - 1], shift) == b {
            1int
        } else {
            0int
        }
    }
}

/// Number of items among the first `j` whose byte at `shift` is below `b`.
spec fn count_below(keys: Seq<u32>, shift: u32, b: int, j: int) -> int
    decreases j,
{
    if j <= 0 {
        0
    } else {
        count_below(keys, shift, b, j - 1) + if byte_at(keys[j - 1], shift) < b {
            1int
        } else {
            0int
        }
    }
}

/// The byte of `k` that starts at bit `shift`.
spec fn byte_at(k: u32, shift: u32) -> int {
    ((k >> shift) & 0xff) as int
}

/// The bits of `k` below bit `shift`.
spec fn low_bits(k: u32, shift: u32) -> int {
    if shift == 0 {
        0
    } else if shift == 8 {
        (k & 0xff) as int
    } else if shift == 16 {
        (k & 0xffff) as int
    } else if shift == 24 {
        (k & 0xff_ffff) as int
    } else {
        k as int
    }
}

/// The weight of the byte that starts at bit `shift`.
spec fn weight(shift: u32) -> int {
    if shift == 0 {
        1
    } else if shift == 8 {
        0x100
    } else if shift == 16 {
        0x1_0000
    } else {
        0x100_0000
    }
}

proof fn lemma_low_bits(k: u32, shift: u32)
    requires
        shift == 0 || shift == 8 || shift == 16 || shift == 24,
    ensures
        0 <= byte_at(k, shift) < 256,
        0 <= low_bits(k, shift) < weight(shift),
        low_bits(k, (shift + 8) as u32) == byte_at(k, shift) * weight(shift) + low_bits(k, shift),
{
    assert(((k >> shift) & 0xff) < 256) by (bit_vector);
    assert(k & 0xff < 0x100 && k & 0xffff < 0x1_0000 && k & 0xff_ffff < 0x100_0000) by (bit_vector);
    assert(k >> 0u32 == k) by (bit_vector);
    assert(k & 0xffff == ((k >> 8u32) & 0xff) * 0x100 + (k & 0xff)) by (bit_vector);
    assert(k & 0xff_ffff == ((k >> 16u32) & 0xff) * 0x1_0000 + (k & 0xffff)) by (bit_vector);
    assert(k == ((k >> 24u32) & 0xff) * 0x100_0000 + (k & 0xff_ffff)) by (bit_vector);
}

proof fn lemma_counts(keys: Seq<u32>, shift: u32, b: int, j: int)
    requires
        0 <= j <= keys.len(),
    ensures
        0 <= count_eq(keys, shift, b, j) <= j,
        0 <= count_below(keys, shift, b, j) <= j,
        count_below(keys, shift, b + 1, j) == count_below(keys, shift, b, j) + count_eq(
            keys,
            shift,
            b,
            j,
        ),
    decreases j,
{
    if j > 0 {
        lemma_counts(keys, shift, b, j - 1);
    }
}

proof fn lemma_count_monotone(keys: Seq<u32>, shift: u32, b: int, i: int, j: int)
    requires
        0 <= i <= j <= keys.len(),
    ensures
        count_eq(keys, shift, b, i) <= count_eq(keys, shift, b, j),
        i < j && byte_at(keys[i], shift) == b ==> count_eq(keys, shift, b, i) < count_eq(
            keys,
            shift,
            b,
            j,
        ),
    decreases j,
{
    if i < j {
        lemma_count_monotone(keys, shift, b, i, j - 1);
    }
}

proof fn lemma_below_monotone(keys: Seq<u32>, shift: u32, b: int, c: int, j: int)
    requires
        0 <= j <= keys.len(),
        b <= c,
    ensures
        count_below(keys, shift, b, j) <= count_below(keys, shift, c, j),
    decreases j,
{
    if j > 0 {
        lemma_below_monotone(keys, shift, b, c, j - 1);
    }
}

proof fn lemma_below_none(keys: Seq<u32>, shift: u32, j: int)
    requires
        0 <= j <= keys.len(),
    ensures
        count_below(keys, shift, 0, j) == 0,
    decreases j,
{
    if j > 0 {
        lemma_below_none(keys, shift, j - 1);
        let k = keys[j - 1];
        assert(((k >> shift) & 0xff) >= 0);
    }
}

/// Where the `j`-th item goes: behind all items of a smaller byte and the earlier ones of the
/// same byte.
spec fn slot(keys: Seq<u32>, shift: u32, j: int) -> int {
    count_below(keys, shift, byte_at(keys[j], shift), keys.len() as int) + count_eq(
        keys,
        shift,
        byte_at(keys[j], shift),
        j,
    )
}

proof fn lemma_slot(keys: Seq<u32>, shift: u32, i: int, j: int)
    requires
        0 <= i < keys.len(),
        0 <= j < keys.len(),
        byte_at(keys[i], shift) < byte_at(keys[j], shift) || (byte_at(keys[i], shift) == byte_at(
            keys[j],
            shift,
        ) && i < j),
    ensures
        0 <= slot(keys, shift, i) < slot(keys, shift, j) < keys.len(),
{
    let n = keys.len() as int;
    let b = byte_at(keys[i], shift);
    let c = byte_at(keys[j], shift);
    lemma_counts(keys, shift, b, n);
    lemma_counts(keys, shift, c, n);
    lemma_counts(keys, shift, b, i);
    lemma_counts(keys, shift, c, j);
    lemma_count_monotone(keys, shift, b, i, n);
    lemma_count_monotone(keys, shift, c, j, n);
    lemma_counts(keys, shift, c + 1, n);
    if b < c {
        lemma_below_monotone(keys, shift, b + 1, c, n);
    } else {
        lemma_count_monotone(keys, shift, b, i, j);
    }
}

proof fn lemma_slot_bounds(keys: Seq<u32>, shift: u32, j: int)
    requires
        0 <= j < keys.len(),
    ensures
        0 <= slot(keys, shift, j) < keys.len(),
{
    let n = keys.len() as int;
    let c = byte_at(keys[j], shift);
    lemma_counts(keys, shift, c, n);
    lemma_counts(keys, shift, c, j);
    lemma_count_monotone(keys, shift, c, j, n);
    lemma_counts(keys, shift, c + 1, n);
}

/// The keys of a queue as the bit patterns that the radix passes read.
spec fn patterns<T>(s: Seq<(i32, T)>) -> Seq<u32> {
    Seq::new(s.len(), |i: int| s[i].0 as u32)
}

/// `cur` holds the items of `s` in stable order of the key bits below `shift`.
spec fn ordered_below<T>(s: Seq<(i32, T)>, cur: Seq<(i32, T)>, shift: u32, perm: Seq<int>) -> bool {
    &&& is_stable_order(Seq::new(s.len(), |i: int| low_bits(s[i].0 as u32, shift)), perm)
    &&& cur == permuted(s, perm)
}

/// One counting pass takes the order by the bits below `shift` to that by the bits below the
/// next byte.
proof fn lemma_pass<T>(
    s: Seq<(i32, T)>,
    cur: Seq<(i32, T)>,
    nxt: Seq<(i32, T)>,
    shift: u32,
    perm: Seq<int>,
) -> (next: Seq<int>)
    requires
        shift == 0 || shift == 8 || shift == 16 || shift == 24,
        ordered_below(s, cur, shift, perm),
        nxt.len() == cur.len(),
        forall|j: int|
            0 <= j < cur.len() ==> nxt[#[trigger] slot(patterns(cur), shift, j)] == cur[j],
    ensures
        ordered_below(s, nxt, (shift + 8) as u32, next),
{
    let n = s.len() as int;
    let keys = patterns(cur);
    let slots = Seq::new(cur.len(), |j: int| slot(keys, shift, j));
    assert forall|j: int| 0 <= j < n implies 0 <= #[trigger] slots[j] < n by {
        lemma_slot_bounds(keys, shift, j);
    }
    assert(slots.no_duplicates()) by {
        assert forall|i: int, j: int| 0 <= i < n && 0 <= j < n && i != j implies slots[i]
            != slots[j] by {
            let b = byte_at(keys[i], shift);
            let c = byte_at(keys[j], shift);
            if b < c || (b == c && i < j) {
                lemma_slot(keys, shift, i, j);
            } else {
                lemma_slot(keys, shift, j, i);
            }
        }
    }
    let from = Seq::new(cur.len(), |t: int| slots.index_of(t));
    assert forall|t: int| 0 <= t < n implies 0 <= #[trigger] from[t] < n && slots[from[t]] == t by {
        lemma_distinct_is_onto(slots, t);
    }
    let next = Seq::new(cur.len(), |t: int| perm[from[t]]);
    let low = Seq::new(s.len(), |i: int| low_bits(s[i].0 as u32, shift));
    let high = Seq::new(s.len(), |i: int| low_bits(s[i].0 as u32, (shift + 8) as u32));
    assert forall|t: int, u: int| 0 <= t < u < n implies precedes(
        high,
        #[trigger] next[t],
        #[trigger] next[u],
    ) by {
        let i = from[t];
        let j = from[u];
        assert(slots[i] == t && slots[j] == u);
        let b = byte_at(keys[i], shift);
        let c = byte_at(keys[j], shift);
        assert(keys[i] == s[perm[i]].0 as u32);
        assert(keys[j] == s[perm[j]].0 as u32);
        lemma_low_bits(keys[i], shift);
        lemma_low_bits(keys[j], shift);
        let w = weight(shift);
        if c < b || (b == c && j < i) {
            lemma_slot(keys, shift, j, i);
            assert(false);
        }
        if b < c {
            assert(b * w + w <= c * w) by (nonlinear_arith)
                requires
                    b < c,
                    w > 0,
            ;
        } else {
            assert(b == c && i < j);
            assert(precedes(low, perm[i], perm[j]));
        }
    }
    assert forall|t: int| 0 <= t < n implies #[trigger] nxt[t] == s[next[t]] by {
        let i = from[t];
        assert(nxt[slot(keys, shift, i)] == cur[i]);
    }
    assert(nxt =~= permuted(s, next));
    next
}

/// A pass in which all items share one byte leaves them in order.
proof fn lemma_skip<T>(s: Seq<(i32, T)>, cur: Seq<(i32, T)>, shift: u32, perm: Seq<int>, b: int)
    requires
        shift == 0 || shift == 8 || shift == 16 || shift == 24,
        ordered_below(s, cur, shift, perm),
        count_eq(patterns(cur), shift, b, cur.len() as int) == cur.len(),
    ensures
        ordered_below(s, cur, (shift + 8) as u32, perm),
{
    let n = s.len() as int;
    let keys = patterns(cur);
    let low = Seq::new(s.len(), |i: int| low_bits(s[i].0 as u32, shift));
    let high = Seq::new(s.len(), |i: int| low_bits(s[i].0 as u32, (shift + 8) as u32));
    assert forall|j: int| 0 <= j < n implies byte_at(#[trigger] keys[j], shift) == b by {
        lemma_all_counted(keys, shift, b, n, j);
    }
    assert forall|j: int, k: int| 0 <= j < k < n implies precedes(
        high,
        #[trigger] perm[j],
        #[trigger] perm[k],
    ) by {
        assert(keys[j] == s[perm[j]].0 as u32);
        assert(keys[k] == s[perm[k]].0 as u32);
        lemma_low_bits(keys[j], shift);
        lemma_low_bits(keys[k], shift);
        assert(precedes(low, perm[j], perm[k]));
    }
}

proof fn lemma_all_counted(keys: Seq<u32>, shift: u32, b: int, n: int, j: int)
    requires
        0 <= j < n <= keys.len(),
        count_eq(keys, shift, b, n) == n,
    ensures
        byte_at(keys[j], shift) == b,
    decreases n,
{
    lemma_counts(keys, shift, b, n - 1);
    if j < n - 1 {
        lemma_all_counted(keys, shift, b, n - 1, j);
    }
}

/// The byte of a z-order value that starts at bit `shift`.
fn bucket_of(z: i32, shift: u32) -> (b: usize)
    requires
        shift == 0 || shift == 8 || shift == 16 || shift == 24,
    ensures
        b == byte_at(z as u32, shift),
        b < 256,
{
    let k = z as u32;
    assert(((k >> shift) & 0xff) < 256) by (bit_vector);
    ((k >> shift) & 0xff) as usize
}

/// How often each byte value occurs at `shift`.
fn histogram<T: Copy>(src: &[(i32, T)], shift: u32) -> (counts: [usize; 256])
    requires
        shift == 0 || shift == 8 || shift == 16 || shift == 24,
    ensures
        forall|b: int|
            0 <= b < 256 ==> #[trigger] counts[b] == count_eq(
                patterns(src@),
                shift,
                b,
                src@.len() as int,
            ),
{
    let mut counts: [usize; 256] = [0usize; 256];
    let n: usize = src.len();
    let ghost keys = patterns(src@);
    let mut j: usize = 0;
    while j < n
        invariant
            shift == 0 || shift == 8 || shift == 16 || shift == 24,
            n == src@.len(),
            keys == patterns(src@),
            0 <= j <= n,
                forall|b: int|
                0 <= b < 256 ==> #[trigger] counts[b] == count_eq(keys, shift, b, j as int),
        decreases n - j,
    {
        let bucket: usize = bucket_of(src[j].0, shift);
        proof {
            lemma_counts(keys, shift, bucket as int, j as int);
        }
        counts[bucket] = counts[bucket] + 1;
        j = j + 1;
    }
    counts
}

/// Places every item of `src` in `dst` behind the items of smaller byte and the earlier ones of
/// the same byte.
fn scatter<T: Copy>(src: &[(i32, T)], dst: &mut [(i32, T)], shift: u32, counts: &[usize; 256])
    requires
        shift == 0 || shift == 8 || shift == 16 || shift == 24,
        old(dst)@.len() == src@.len(),
        forall|b: int|
            0 <= b < 256 ==> #[trigger] counts[b] == count_eq(
                patterns(src@),
                shift,
                b,
                src@.len() as int,
            ),
    ensures
        final(dst)@.len() == src@.len(),
        forall|j: int|
            0 <= j < src@.len() ==> final(dst)@[#[trigger] slot(patterns(src@), shift, j)]
                == src@[j],
{
    let n: usize = src.len();
    let ghost keys = patterns(src@);
    let mut offsets: [usize; 256] = [0usize; 256];
    let mut sum: usize = 0;
    let mut b: usize = 0;
    proof {
        lemma_below_none(keys, shift, n as int);
    }
    while b < 256
        invariant
            n == src@.len(),
            keys == patterns(src@),
                0 <= b <= 256,
            sum == count_below(keys, shift, b as int, n as int),
            forall|c: int|
                0 <= c < 256 ==> #[trigger] counts[c] == count_eq(keys, shift, c, n as int),
            forall|c: int|
                0 <= c < b ==> #[trigger] offsets[c] == count_below(keys, shift, c, n as int),
        decreases 256 - b,
    {
        proof {
            lemma_counts(keys, shift, b as int, n as int);
            lemma_counts(keys, shift, b + 1, n as int);
        }
        offsets[b] = sum;
        sum = sum + counts[b];
        b = b + 1;
    }
    let mut j: usize = 0;
    while j < n
        invariant
            shift == 0 || shift == 8 || shift == 16 || shift == 24,
            n == src@.len(),
            keys == patterns(src@),
            dst@.len() == n,
            0 <= j <= n,
            forall|c: int|
                0 <= c < 256 ==> #[trigger] offsets[c] == count_below(keys, shift, c, n as int)
                    + count_eq(keys, shift, c, j as int),
            forall|i: int| 0 <= i < j ==> dst@[#[trigger] slot(keys, shift, i)] == src@[i],
        decreases n - j,
    {
        let item = src[j];
        let bucket: usize = bucket_of(item.0, shift);
        proof {
            lemma_slot_bounds(keys, shift, j as int);
            assert(keys[j as int] == item.0 as u32);
            assert forall|i: int| 0 <= i < j implies 0 <= #[trigger] slot(keys, shift, i) < n
                && slot(keys, shift, i) != slot(keys, shift, j as int) by {
                lemma_slot_bounds(keys, shift, i);
                let x = byte_at(keys[i], shift);
                let y = byte_at(keys[j as int], shift);
                if x <= y {
                    lemma_slot(keys, shift, i, j as int);
                } else {
                    lemma_slot(keys, shift, j as int, i);
                }
            }
        }
        dst[offsets[bucket]] = item;
        offsets[bucket] = offsets[bucket] + 1;
        j = j + 1;
    }
}

/// Whether one byte value is shared by all of the `n` items counted.
fn one_bucket_holds_all(counts: &[usize; 256], n: usize) -> (r: Option<usize>)
    ensures
        r matches Some(b) ==> b < counts.len() && counts[b as int] == n,
        r is None ==> forall|b: int| 0 <= b < counts.len() ==> counts[b] != n,
{
    let mut b: usize = 0;
    while b < counts.len()
        invariant
            b <= counts.len(),
            forall|c: int| 0 <= c < b ==> counts[c] != n,
        decreases counts.len() - b,
    {
        if counts[b] == n {
            return Some(b);
        }
        b = b + 1;
    }
    None
}

/// Sorts a short queue by insertion.
fn insertion_sort<T: Copy>(order: &mut [(i32, T)])
    requires
        old(order)@.len() < RADIX_MIN_LEN,
    ensures
        final(order)@ == z_sorted(old(order)@),
{
    let n: usize = order.len();
    let ghost s = order@;
    let ghost keys = z_keys(s);
    let ghost mut perm: Seq<int> = Seq::new(n as nat, |i: int| i);
    assert(order@ =~= permuted(s, perm));
    let mut i: usize = 0;
    while i < n
        invariant
            n == s.len(),
            n < RADIX_MIN_LEN,
            keys == z_keys(s),
            0 <= i <= n,
            perm.len() == n,
            order@ == permuted(s, perm),
            forall|k: int| 0 <= k < i ==> 0 <= #[trigger] perm[k] < i,
            forall|k: int| i <= k < n ==> #[trigger] perm[k] == k,
            forall|j: int, k: int|
                0 <= j < k < i ==> precedes(keys, #[trigger] perm[j], #[trigger] perm[k]),
        decreases n - i,
    {
        let mut j: usize = i;
        while j > 0 && order[j - 1].0 > order[j].0
            invariant
                n == s.len(),
                n < RADIX_MIN_LEN,
                keys == z_keys(s),
                0 <= j <= i < n,
                perm.len() == n,
                order@ == permuted(s, perm),
                perm[j as int] == i,
                forall|k: int| 0 <= k <= i && k != j ==> 0 <= #[trigger] perm[k] < i,
                forall|k: int| i < k < n ==> #[trigger] perm[k] == k,
                forall|a: int, b: int|
                    0 <= a < b <= i && a != j && b != j ==> precedes(
                        keys,
                        #[trigger] perm[a],
                        #[trigger] perm[b],
                    ),
                forall|b: int| j < b <= i ==> keys[#[trigger] perm[b]] > keys[i as int],
            decreases j,
        {
            let hold = order[j - 1];
            let item = order[j];
            let ghost before = perm;
            order[j - 1] = item;
            order[j] = hold;
            proof {
                perm = perm.update(j - 1, before[j as int]).update(j as int, before[j - 1]);
                assert(order@ =~= permuted(s, perm));
                assert(keys[before[j - 1]] > keys[i as int]);
            }
            j = j - 1;
        }
        proof {
            if j > 0 {
                assert(keys[perm[j - 1]] <= keys[i as int]);
                assert(precedes(keys, perm[j - 1], perm[j as int]));
                assert forall|a: int| 0 <= a < j implies precedes(
                    keys,
                    #[trigger] perm[a],
                    perm[j as int],
                ) by {
                    if a < j - 1 {
                        assert(precedes(keys, perm[a], perm[j - 1]));
                    }
                }
            }
        }
        i = i + 1;
    }
    proof {
        lemma_stable_order_is(keys, perm);
    }
}

/// Sorts a long queue by four stable byte-wise counting passes.
fn radix_sort<T: Copy>(order: &mut [(i32, T)], scratch: &mut Vec<(i32, T)>)
    requires
        old(order)@.len() >= RADIX_MIN_LEN,
    ensures
        final(order)@ == z_sorted(old(order)@),
        final(scratch)@.len() == old(order)@.len(),
{
    let n: usize = order.len();
    let ghost s = order@;
    let first = order[0];
    scratch.clear();
    let mut f: usize = 0;
    while f < n
        invariant
            f <= n,
            scratch@.len() == f,
        decreases n - f,
    {
        scratch.push(first);
        f = f + 1;
    }
    let ghost mut perm: Seq<int> = Seq::new(n as nat, |i: int| i);
    assert(order@ =~= permuted(s, perm));
    let mut in_order: bool = true;
    let mut pass: u32 = 0;
    while pass < 4
        invariant
            n == s.len(),
            order@.len() == n,
            scratch@.len() == n,
            pass <= 4,
            in_order ==> ordered_below(s, order@, (pass * 8) as u32, perm),
            !in_order ==> ordered_below(s, scratch@, (pass * 8) as u32, perm),
        decreases 4 - pass,
    {
        let shift: u32 = pass * 8;
        assert(shift + 8 == (pass + 1) * 8);
        if in_order {
            let counts = histogram(order, shift);
            match one_bucket_holds_all(&counts, n) {
                Some(b) => {
                    proof {
                        lemma_skip(s, order@, shift, perm, b as int);
                    }
                },
                None => {
                    scatter(order, scratch.as_mut_slice(), shift, &counts);
                    proof {
                        perm = lemma_pass(s, order@, scratch@, shift, perm);
                    }
                    in_order = false;
                },
            }
        } else {
            let counts = histogram(scratch.as_slice(), shift);
            match one_bucket_holds_all(&counts, n) {
                Some(b) => {
                    proof {
                        lemma_skip(s, scratch@, shift, perm, b as int);
                    }
                },
                None => {
                    scatter(scratch.as_slice(), order, shift, &counts);
                    proof {
                        perm = lemma_pass(s, scratch@, order@, shift, perm);
                    }
                    in_order = true;
                },
            }
        }
        pass = pass + 1;
    }
    if !in_order {
        let mut i: usize = 0;
        while i < n
            invariant
                n == s.len(),
                order@.len() == n,
                scratch@.len() == n,
                i <= n,
                forall|k: int| 0 <= k < i ==> order@[k] == scratch@[k],
            decreases n - i,
        {
            order[i] = scratch[i];
            i = i + 1;
        }
        assert(order@ =~= scratch@);
    }
    proof {
        let low = Seq::new(s.len(), |i: int| low_bits(s[i].0 as u32, 32));
        assert(low =~= z_keys(s));
        lemma_stable_order_is(z_keys(s), perm);
    }
}

/// Sorts a z-order queue. Short queues are sorted by insertion; long ones (of at least
/// `RADIX_MIN_LEN` items) take four stable byte-wise radix passes, which is linear in the number
/// of items. `scratch` is working space for the long ones.
pub fn sort_by_z<T: Copy>(order: &mut [(i32, T)], scratch: &mut Vec<(i32, T)>)
    ensures
        final(order)@ == z_sorted(old(order)@),
        old(order)@.len() < RADIX_MIN_LEN ==> final(scratch)@ == old(scratch)@,
        old(order)@.len() >= RADIX_MIN_LEN ==> final(scratch)@.len() == old(order)@.len(),
{
    let n: usize = order.len();
    if n < RADIX_MIN_LEN {
        insertion_sort(order);
    } else {
        radix_sort(order, scratch);
    }
}

} // verus!
