//! Placement policies: how payload bytes are distributed over the
//! containers' capacities and gathered back.
//!
//! `SplitChunks` fills the containers in the order given, each to its
//! declared capacity, and is the capacity-efficient default. `SplitScrambled`
//! deals the payload round-robin, one byte per container per round, so that
//! losing one container corrupts every Nth byte instead of one contiguous
//! region; its usable total is `min(capacities) * container_count`. Either
//! way every fragment is zero-padded on the right up to its container's
//! declared capacity, and the padding is not part of the logical payload:
//! `join_bins` takes the true payload length and stops there.

use vstd::prelude::*;

use crate::errors::StegError;
use crate::lemma_bytes_deep_view;

verus! {

/// `count` zero bytes.
pub open spec fn zeros(count: nat) -> Seq<u8> {
    Seq::new(count, |i: int| 0u8)
}

/// `s` zero-padded on the right up to `cap` bytes; `s` itself if it is
/// already that long.
pub open spec fn pad_to(s: Seq<u8>, cap: nat) -> Seq<u8> {
    if s.len() >= cap {
        s
    } else {
        s + zeros((cap - s.len()) as nat)
    }
}

/// Padding to capacity is idempotent: a fragment already inflated to `cap`
/// bytes is left as it is.
pub proof fn lemma_pad_to_idempotent(s: Seq<u8>, cap: nat)
    ensures
        pad_to(pad_to(s, cap), cap) == pad_to(s, cap),
{
    if s.len() < cap {
        assert(pad_to(s, cap).len() == cap);
    }
}

/// Every bin of `bins`, padded to the matching capacity; capacities beyond
/// the last bin get fresh all-zero bins.
pub open spec fn inflated(bins: Seq<Seq<u8>>, caps: Seq<u64>) -> Seq<Seq<u8>> {
    Seq::new(
        caps.len(),
        |i: int|
            pad_to(
                if i < bins.len() {
                    bins[i]
                } else {
                    Seq::<u8>::empty()
                },
                caps[i] as nat,
            ),
    )
}

/// Fill the remaining space of each bin with zeros so that its length equals
/// the matching entry of `bin_capacities`; missing bins are added as
/// all-zero bins.
pub fn inflate_bins(bins: &mut Vec<Vec<u8>>, bin_capacities: &Vec<u64>)
    requires
        old(bins)@.len() <= bin_capacities@.len(),
        forall|i: int|
            0 <= i < old(bins)@.len() ==> (#[trigger] old(bins)@[i])@.len()
                <= bin_capacities@[i],
        forall|i: int| 0 <= i < bin_capacities@.len() ==> bin_capacities@[i] <= usize::MAX,
    ensures
        final(bins).deep_view() == inflated(old(bins).deep_view(), bin_capacities@),
{
    let ghost orig = bins.deep_view();
    while bins.len() < bin_capacities.len()
        invariant
            orig.len() <= bins@.len() <= bin_capacities@.len(),
            orig == old(bins).deep_view(),
            forall|j: int| 0 <= j < orig.len() ==> bins@[j] == old(bins)@[j],
            forall|j: int| orig.len() <= j < bins@.len() ==> (#[trigger] bins@[j])@.len() == 0,
        decreases bin_capacities@.len() - bins@.len(),
    {
        bins.push(Vec::new());
    }
    let ghost extended = bins@;
    proof {
        assert(forall|j: int|
            0 <= j < orig.len() ==> (#[trigger] extended[j]).deep_view() == orig[j]);
    }

    let mut index: usize = 0;
    while index < bin_capacities.len()
        invariant
            index <= bin_capacities@.len(),
            bins@.len() == bin_capacities@.len(),
            extended.len() == bin_capacities@.len(),
            orig.len() <= bin_capacities@.len(),
            forall|j: int|
                0 <= j < orig.len() ==> (#[trigger] extended[j]).deep_view() == orig[j],
            forall|j: int|
                orig.len() <= j < extended.len() ==> (#[trigger] extended[j])@.len() == 0,
            forall|j: int|
                0 <= j < orig.len() ==> (#[trigger] extended[j])@.len() <= bin_capacities@[j],
            forall|j: int| 0 <= j < bin_capacities@.len() ==> bin_capacities@[j] <= usize::MAX,
            forall|j: int| index <= j < bins@.len() ==> bins@[j] == extended[j],
            forall|j: int|
                0 <= j < index ==> (#[trigger] bins@[j])@ == pad_to(
                    extended[j]@,
                    bin_capacities@[j] as nat,
                ),
        decreases bin_capacities@.len() - index,
    {
        let cap = bin_capacities[index] as usize;
        let ghost base = bins@;
        proof {
            assert(bins@[index as int] == extended[index as int]);
            if index < orig.len() {
                assert(extended[index as int]@.len() <= bin_capacities@[index as int]);
            } else {
                assert(extended[index as int]@.len() == 0);
            }
            assert(bins@[index as int]@ =~= base[index as int]@ + zeros(0));
        }
        while bins[index].len() < cap
            invariant
                index < bins@.len(),
                bins@.len() == base.len(),
                base[index as int]@.len() <= bins@[index as int]@.len() <= cap,
                forall|j: int| 0 <= j < bins@.len() && j != index ==> bins@[j] == base[j],
                bins@[index as int]@ == base[index as int]@ + zeros(
                    (bins@[index as int]@.len() - base[index as int]@.len()) as nat,
                ),
            decreases cap - bins@[index as int]@.len(),
        {
            let ghost before = bins@[index as int]@;
            bins[index].push(0u8);
            assert(bins@[index as int]@ =~= base[index as int]@ + zeros(
                (bins@[index as int]@.len() - base[index as int]@.len()) as nat,
            ));
        }
        proof {
            assert(base[index as int] == extended[index as int]);
            assert(extended[index as int]@.len() <= cap);
            assert(bins@[index as int]@ =~= pad_to(
                extended[index as int]@,
                bin_capacities@[index as int] as nat,
            ));
            assert forall|j: int| 0 <= j < index + 1 implies (#[trigger] bins@[j])@ == pad_to(
                extended[j]@,
                bin_capacities@[j] as nat,
            ) by {
                if j < index {
                    assert(bins@[j] == base[j]);
                    assert((base[j])@ == pad_to(extended[j]@, bin_capacities@[j] as nat));
                }
            }
        }
        index = index + 1;
    }
    proof {
        assert forall|j: int| 0 <= j < bin_capacities@.len() implies bins.deep_view()[j]
            == inflated(orig, bin_capacities@)[j] by {
            assert(bins@[j]@ == pad_to(extended[j]@, bin_capacities@[j] as nat));
            if j < orig.len() {
                assert(extended[j]@ =~= orig[j]);
            } else {
                assert(extended[j]@ =~= Seq::<u8>::empty());
            }
        }
        assert(bins.deep_view() =~= inflated(orig, bin_capacities@));
    }
}

/// Total of a capacity list.
pub open spec fn sum_caps(caps: Seq<u64>) -> int
    decreases caps.len(),
{
    if caps.len() == 0 {
        0
    } else {
        sum_caps(caps.drop_last()) + caps.last()
    }
}

/// One more capacity adds onto the total.
pub proof fn lemma_sum_caps_take_succ(caps: Seq<u64>, i: int)
    requires
        0 <= i < caps.len(),
    ensures
        sum_caps(caps.take(i + 1)) == sum_caps(caps.take(i)) + caps[i],
{
    assert(caps.take(i + 1).drop_last() =~= caps.take(i));
    assert(caps.take(i + 1).last() == caps[i]);
}

/// A capacity total is never negative.
pub proof fn lemma_sum_caps_nonneg(caps: Seq<u64>)
    ensures
        sum_caps(caps) >= 0,
    decreases caps.len(),
{
    if caps.len() > 0 {
        lemma_sum_caps_nonneg(caps.drop_last());
    }
}

/// Smallest capacity in the list, or `u64::MAX` over an empty list.
pub open spec fn min_cap(caps: Seq<u64>) -> int
    decreases caps.len(),
{
    if caps.len() == 0 {
        u64::MAX as int
    } else {
        let rest = min_cap(caps.drop_last());
        if caps.last() < rest {
            caps.last() as int
        } else {
            rest
        }
    }
}

/// One more capacity lowers the minimum to it or keeps the minimum.
pub proof fn lemma_min_cap_take_succ(caps: Seq<u64>, i: int)
    requires
        0 <= i < caps.len(),
    ensures
        min_cap(caps.take(i + 1)) == if caps[i] < min_cap(caps.take(i)) {
            caps[i] as int
        } else {
            min_cap(caps.take(i))
        },
{
    assert(caps.take(i + 1).drop_last() =~= caps.take(i));
    assert(caps.take(i + 1).last() == caps[i]);
}

/// The minimum is a lower bound on every capacity in the list.
pub proof fn lemma_min_cap_le(caps: Seq<u64>, i: int)
    requires
        0 <= i < caps.len(),
    ensures
        min_cap(caps) <= caps[i],
    decreases caps.len(),
{
    if i < caps.len() - 1 {
        assert(caps.drop_last()[i] == caps[i]);
        lemma_min_cap_le(caps.drop_last(), i);
    }
}

/// All fragments, one after another.
pub open spec fn concat_frags(frags: Seq<Seq<u8>>) -> Seq<u8>
    decreases frags.len(),
{
    if frags.len() == 0 {
        Seq::empty()
    } else {
        concat_frags(frags.drop_last()) + frags.last()
    }
}

/// Concatenation distributes over appending fragment lists.
pub proof fn lemma_concat_frags_append(a: Seq<Seq<u8>>, b: Seq<Seq<u8>>)
    ensures
        concat_frags(a + b) == concat_frags(a) + concat_frags(b),
    decreases b.len(),
{
    if b.len() == 0 {
        assert(a + b =~= a);
        assert(concat_frags(a) + concat_frags(b) =~= concat_frags(a));
    } else {
        lemma_concat_frags_append(a, b.drop_last());
        assert((a + b).drop_last() =~= a + b.drop_last());
        assert((a + b).last() == b.last());
        assert(concat_frags(a) + concat_frags(b.drop_last()) + b.last() =~= concat_frags(a) + (
        concat_frags(b.drop_last()) + b.last()));
    }
}

/// Appending one fragment appends its bytes.
pub proof fn lemma_concat_frags_push(frags: Seq<Seq<u8>>, frag: Seq<u8>)
    ensures
        concat_frags(frags.push(frag)) == concat_frags(frags) + frag,
{
    assert(frags.push(frag).drop_last() =~= frags);
    assert(frags.push(frag).last() == frag);
}

/// The first `n` elements of `s`, or all of `s` where it is shorter.
spec fn take_at_most(s: Seq<u8>, n: int) -> Seq<u8> {
    s.take(vstd::math::min(n, s.len() as int))
}

/// Where fragment `i` of a chunked split begins in the payload: the payload
/// offset covered by the first `i` capacities, at most the payload length.
pub open spec fn chunk_lo(data_len: int, caps: Seq<u64>, i: int) -> int {
    vstd::math::min(data_len, sum_caps(caps.take(i)))
}

/// Chunk boundaries start at zero and never move backwards or past the end
/// of the payload.
pub proof fn lemma_chunk_lo_bounds(data_len: int, caps: Seq<u64>, i: int)
    requires
        0 <= i < caps.len(),
        0 <= data_len,
    ensures
        0 <= chunk_lo(data_len, caps, i) <= chunk_lo(data_len, caps, i + 1) <= data_len,
{
    lemma_sum_caps_nonneg(caps.take(i));
    lemma_sum_caps_take_succ(caps, i);
}

/// Fragment `i` of a chunked split: the payload slice between two chunk
/// boundaries, padded to capacity `i`.
pub open spec fn chunked_fragment(data: Seq<u8>, caps: Seq<u64>, i: int) -> Seq<u8>
    recommends
        0 <= i < caps.len(),
{
    pad_to(
        data.subrange(
            chunk_lo(data.len() as int, caps, i),
            chunk_lo(data.len() as int, caps, i + 1),
        ),
        caps[i] as nat,
    )
}

/// A chunked split: one fragment per capacity, walking the payload once.
pub open spec fn chunked_fragments(data: Seq<u8>, caps: Seq<u64>) -> Seq<Seq<u8>> {
    Seq::new(caps.len(), |i: int| chunked_fragment(data, caps, i))
}

/// How many payload bytes land in fragment `i` when a payload of
/// `data_len` bytes is dealt round-robin over `n` containers.
pub open spec fn stride_count(data_len: int, n: int, i: int) -> int
    recommends
        n > 0,
        0 <= i,
{
    if i < data_len {
        (data_len - 1 - i) / n + 1
    } else {
        0
    }
}

/// Fragment `i` of a scrambled split before padding: every `n`th payload
/// byte, starting at offset `i`.
pub open spec fn scrambled_content(data: Seq<u8>, n: int, i: int) -> Seq<u8>
    recommends
        n > 0,
        0 <= i < n,
{
    Seq::new(stride_count(data.len() as int, n, i) as nat, |j: int| data[j * n + i])
}

/// A scrambled split: one round-robin fragment per capacity, each padded to
/// its capacity.
pub open spec fn scrambled_fragments(data: Seq<u8>, caps: Seq<u64>) -> Seq<Seq<u8>> {
    Seq::new(
        caps.len(),
        |i: int| pad_to(scrambled_content(data, caps.len() as int, i), caps[i] as nat),
    )
}

/// The inverse stride placement: byte `k` of the payload comes from
/// fragment `k % n`, position `k / n`.
pub open spec fn unstride(frags: Seq<Seq<u8>>, payload_len: int) -> Seq<u8>
    recommends
        frags.len() > 0,
        payload_len >= 0,
{
    Seq::new(
        payload_len as nat,
        |k: int| frags[k % (frags.len() as int)][k / (frags.len() as int)],
    )
}

/// Round-robin balance: the number of payload bytes any two fragments
/// receive differs by at most one.
pub proof fn lemma_stride_count_balanced(data_len: int, n: int, i: int, j: int)
    requires
        n > 0,
        0 <= i < n,
        0 <= j < n,
        0 <= data_len,
    ensures
        stride_count(data_len, n, i) - stride_count(data_len, n, j) <= 1,
{
    if i < data_len && j < data_len && i != j {
        let a = data_len - 1 - i;
        let b = data_len - 1 - j;
        if a > b {
            // a - b < n, so the quotients differ by at most one.
            vstd::arithmetic::div_mod::lemma_fundamental_div_mod(b, n);
            vstd::arithmetic::div_mod::lemma_mod_bound(b, n);
            let q = b / n;
            assert(a <= b + n - 1);
            assert(a < n * (q + 2)) by (nonlinear_arith)
                requires
                    a <= n * q + (b % n) + n - 1,
                    b % n < n,
            ;
            lemma_div_below(a, n, q + 2);
        } else {
            vstd::arithmetic::div_mod::lemma_div_is_ordered(a, b, n);
        }
    } else if j >= data_len && i < data_len {
        // Fragment j gets nothing only when the payload ends before it:
        // then every earlier fragment gets at most one byte.
        assert(data_len - 1 - i < n);
        vstd::arithmetic::div_mod::lemma_basic_div(data_len - 1 - i, n);
    }
}

/// The payload bytes the first `i` fragments of a scrambled split receive,
/// in all.
pub open spec fn stride_total(data_len: int, n: int, i: int) -> int
    decreases i,
{
    if i <= 0 {
        0
    } else {
        stride_total(data_len, n, i - 1) + stride_count(data_len, n, i - 1)
    }
}

/// One more payload byte lands in exactly one fragment: the one at the
/// payload's last offset modulo `n`.
proof fn lemma_stride_count_step(data_len: int, n: int, k: int)
    requires
        n > 0,
        1 <= data_len,
        0 <= k < n,
    ensures
        stride_count(data_len, n, k) == stride_count(data_len - 1, n, k) + (if k == (data_len - 1)
            % n {
            1int
        } else {
            0int
        }),
{
    let last = data_len - 1;
    vstd::arithmetic::div_mod::lemma_mod_bound(last, n);
    if k > last {
        // The payload ends before fragment k: nothing lands anywhere here.
        vstd::arithmetic::div_mod::lemma_small_mod(last as nat, n as nat);
    } else if k == last {
        vstd::arithmetic::div_mod::lemma_small_mod(last as nat, n as nat);
        vstd::arithmetic::div_mod::lemma_basic_div(0, n);
    } else {
        let b = data_len - 2 - k;
        let a = last - k;
        vstd::arithmetic::div_mod::lemma_fundamental_div_mod(b, n);
        vstd::arithmetic::div_mod::lemma_mod_bound(b, n);
        let qb = b / n;
        let rb = b % n;
        if rb + 1 < n {
            vstd::arithmetic::div_mod::lemma_fundamental_div_mod_converse_div(a, n, qb, rb + 1);
            vstd::arithmetic::div_mod::lemma_fundamental_div_mod_converse_mod(a, n, qb, rb + 1);
            // a % n != 0, so k is not the last offset's residue.
            if k == last % n {
                vstd::arithmetic::div_mod::lemma_fundamental_div_mod(last, n);
                vstd::arithmetic::div_mod::lemma_fundamental_div_mod_converse_mod(
                    a,
                    n,
                    last / n,
                    0,
                );
                assert(false);
            }
        } else {
            assert((qb + 1) * n == n * qb + n) by (nonlinear_arith);
            vstd::arithmetic::div_mod::lemma_fundamental_div_mod_converse_div(a, n, qb + 1, 0);
            vstd::arithmetic::div_mod::lemma_fundamental_div_mod_converse_mod(a, n, qb + 1, 0);
            // a % n == 0, so k is exactly the last offset's residue.
            vstd::arithmetic::div_mod::lemma_fundamental_div_mod_converse_mod(
                last,
                n,
                qb + 1,
                k,
            );
        }
    }
}

/// Adding one payload byte adds one to the first `i` totals exactly when
/// the fragment it lands in is among them.
proof fn lemma_stride_total_step(data_len: int, n: int, i: int)
    requires
        n > 0,
        1 <= data_len,
        0 <= i <= n,
    ensures
        stride_total(data_len, n, i) == stride_total(data_len - 1, n, i) + (if (data_len - 1) % n
            < i {
            1int
        } else {
            0int
        }),
    decreases i,
{
    vstd::arithmetic::div_mod::lemma_mod_bound(data_len - 1, n);
    if i > 0 {
        lemma_stride_total_step(data_len, n, i - 1);
        lemma_stride_count_step(data_len, n, i - 1);
    }
}

/// Nothing lands anywhere when the payload is empty.
proof fn lemma_stride_total_zero(n: int, i: int)
    requires
        0 <= i,
    ensures
        stride_total(0, n, i) == 0,
    decreases i,
{
    if i > 0 {
        lemma_stride_total_zero(n, i - 1);
    }
}

/// Round-robin completeness: over all `n` fragments, the used lengths sum
/// to exactly the payload length — every payload byte is dealt out once.
pub proof fn lemma_stride_total(data_len: int, n: int)
    requires
        n > 0,
        0 <= data_len,
    ensures
        stride_total(data_len, n, n) == data_len,
    decreases data_len,
{
    if data_len == 0 {
        lemma_stride_total_zero(n, n);
    } else {
        lemma_stride_total(data_len - 1, n);
        lemma_stride_total_step(data_len, n, n);
        vstd::arithmetic::div_mod::lemma_mod_bound(data_len - 1, n);
    }
}

/// A quotient is below `len` as soon as the dividend is below `len * n`.
proof fn lemma_div_below(k: int, n: int, len: int)
    requires
        n > 0,
        0 <= k,
        k < len * n,
    ensures
        k / n < len,
{
    vstd::arithmetic::div_mod::lemma_fundamental_div_mod(k, n);
    vstd::arithmetic::div_mod::lemma_mod_bound(k, n);
    if k / n >= len {
        vstd::arithmetic::mul::lemma_mul_inequality(len, k / n, n);
        vstd::arithmetic::mul::lemma_mul_is_commutative(n, k / n);
        assert(false);
    }
}

/// A quotient is at least `j` as soon as the dividend is at least `n * j`.
proof fn lemma_div_at_least(x: int, n: int, j: int)
    requires
        n > 0,
        0 <= j,
        n * j <= x,
    ensures
        j <= x / n,
{
    vstd::arithmetic::div_mod::lemma_fundamental_div_mod(x, n);
    vstd::arithmetic::div_mod::lemma_mod_bound(x, n);
    let q = x / n;
    if j > q {
        assert(n * (q + 1) <= n * j) by (nonlinear_arith)
            requires
                n > 0,
                q + 1 <= j,
        ;
        assert(n * (q + 1) == n * q + n) by (nonlinear_arith);
        assert(false);
    }
}

/// Round-robin respects the capacity bound: when the payload fits in
/// `m * n` bytes, no fragment gets more than `m` of them.
proof fn lemma_stride_count_le(data_len: int, n: int, i: int, m: int)
    requires
        n > 0,
        0 <= i < n,
        0 <= data_len,
        0 <= m,
        data_len <= m * n,
    ensures
        stride_count(data_len, n, i) <= m,
{
    if i < data_len {
        let q = (data_len - 1 - i) / n;
        vstd::arithmetic::div_mod::lemma_fundamental_div_mod(data_len - 1 - i, n);
        vstd::arithmetic::div_mod::lemma_mod_bound(data_len - 1 - i, n);
        if q + 1 > m {
            assert(n * m <= n * q) by (nonlinear_arith)
                requires
                    n > 0,
                    m <= q,
            ;
            vstd::arithmetic::mul::lemma_mul_is_commutative(n, m);
            assert(false);
        }
    }
}

/// The payload offset a round-robin fragment position stands for is inside
/// the payload.
proof fn lemma_stride_index(data_len: int, n: int, i: int, j: int)
    requires
        n > 0,
        0 <= i < n,
        i < data_len,
        0 <= j < stride_count(data_len, n, i),
    ensures
        0 <= j * n + i < data_len,
{
    let q = (data_len - 1 - i) / n;
    vstd::arithmetic::div_mod::lemma_fundamental_div_mod(data_len - 1 - i, n);
    vstd::arithmetic::div_mod::lemma_mod_bound(data_len - 1 - i, n);
    assert(j * n >= 0) by (nonlinear_arith)
        requires
            j >= 0,
            n > 0,
    ;
    vstd::arithmetic::mul::lemma_mul_inequality(j, q, n);
    vstd::arithmetic::mul::lemma_mul_is_commutative(q, n);
    vstd::arithmetic::mul::lemma_mul_is_commutative(n, q);
}

/// A placement policy: how payload bytes map to per-container fragments and
/// back. The split owes fragments exactly on the inputs `split_ok` admits,
/// and refuses all others with `split_err`; the join, handed fragments and
/// the true payload length, returns the payload `joined` names.
pub trait Split {
    /// Machine limits under which the split runs (each capacity must
    /// describe a fragment that fits in memory).
    spec fn split_req(data: Seq<u8>, caps: Seq<u64>) -> bool;

    /// The inputs on which the split succeeds.
    spec fn split_ok(data: Seq<u8>, caps: Seq<u64>) -> bool;

    /// The fragments of a successful split, one per capacity, each padded to
    /// its capacity.
    spec fn fragments(data: Seq<u8>, caps: Seq<u64>) -> Seq<Seq<u8>>;

    /// The error reported when the split is refused.
    spec fn split_err(data: Seq<u8>, caps: Seq<u64>) -> StegError;

    /// What the join needs of its fragments and of the true payload length.
    spec fn join_req(frags: Seq<Seq<u8>>, payload_len: int) -> bool;

    /// The payload the join rebuilds.
    spec fn joined(frags: Seq<Seq<u8>>, payload_len: int) -> Seq<u8>;

    /// Split `data` into one fragment per entry of `bin_capacities`, each
    /// fragment zero-padded up to its capacity, or refuse the whole request;
    /// no partial fragment list is ever returned. `data` is not modified.
    fn split_to_bins(data: &Vec<u8>, bin_capacities: &Vec<u64>) -> (r: Result<
        Vec<Vec<u8>>,
        StegError,
    >)
        requires
            Self::split_req(data@, bin_capacities@),
        ensures
            match r {
                Ok(bins) => Self::split_ok(data@, bin_capacities@) && bins.deep_view()
                    == Self::fragments(data@, bin_capacities@),
                Err(e) => !Self::split_ok(data@, bin_capacities@) && e == Self::split_err(
                    data@,
                    bin_capacities@,
                ),
            },
    ;

    /// Undo `split_to_bins`: rebuild the first `payload_len` payload bytes
    /// from fragments in container order, ignoring the padding. `data` is
    /// not modified.
    fn join_bins(data: &[Vec<u8>], payload_len: usize) -> (r: Vec<u8>)
        requires
            Self::join_req(data.deep_view(), payload_len as int),
        ensures
            r@ == Self::joined(data.deep_view(), payload_len as int),
    ;
}

/// Scrambled placement: deal the payload round-robin, one byte per
/// container per round, so that losing one container corrupts every Nth
/// byte instead of one contiguous region. The usable total is
/// `min(capacities) * container_count`; payloads over that bound are
/// refused before any fragment is produced.
pub struct SplitScrambled;

impl Split for SplitScrambled {
    open spec fn split_req(data: Seq<u8>, caps: Seq<u64>) -> bool {
        forall|i: int| 0 <= i < caps.len() ==> #[trigger] caps[i] <= usize::MAX
    }

    open spec fn split_ok(data: Seq<u8>, caps: Seq<u64>) -> bool {
        caps.len() > 0 && data.len() <= min_cap(caps) * caps.len()
    }

    open spec fn fragments(data: Seq<u8>, caps: Seq<u64>) -> Seq<Seq<u8>> {
        scrambled_fragments(data, caps)
    }

    open spec fn split_err(data: Seq<u8>, caps: Seq<u64>) -> StegError {
        if caps.len() == 0 {
            StegError::NoContainers
        } else {
            StegError::InsufficientCapacity
        }
    }

    open spec fn join_req(frags: Seq<Seq<u8>>, payload_len: int) -> bool {
        &&& frags.len() > 0
        &&& 0 <= payload_len
        &&& forall|i: int|
            0 <= i < frags.len() ==> payload_len <= (#[trigger] frags[i]).len() * frags.len()
    }

    open spec fn joined(frags: Seq<Seq<u8>>, payload_len: int) -> Seq<u8> {
        unstride(frags, payload_len)
    }

    #[verifier::loop_isolation(false)]
    fn split_to_bins(data: &Vec<u8>, bin_capacities: &Vec<u64>) -> (r: Result<
        Vec<Vec<u8>>,
        StegError,
    >) {
        let n = bin_capacities.len();
        let ghost caps = bin_capacities@;
        if n == 0 {
            return Err(StegError::NoContainers);
        }
        let len = data.len();

        let mut m: u64 = u64::MAX;
        let mut i: usize = 0;
        while i < n
            invariant
                i <= n,
                m == min_cap(caps.take(i as int)),
            decreases n - i,
        {
            if bin_capacities[i] < m {
                m = bin_capacities[i];
            }
            proof {
                lemma_min_cap_take_succ(caps, i as int);
            }
            i = i + 1;
        }
        proof {
            assert(caps.take(n as int) =~= caps);
        }

        proof {
            let mm = m as u128;
            let nn = n as u128;
            assert(mm * nn <= u128::MAX) by (nonlinear_arith)
                requires
                    mm < 0x1_0000_0000_0000_0000,
                    nn < 0x1_0000_0000_0000_0000,
            ;
        }
        if (len as u128) > (m as u128) * (n as u128) {
            return Err(StegError::InsufficientCapacity);
        }
        assert(len <= min_cap(caps) * caps.len());

        let mut bins: Vec<Vec<u8>> = Vec::new();
        let mut i: usize = 0;
        while i < n
            invariant
                i <= n,
                bins.deep_view() =~= scrambled_fragments(data@, caps).take(i as int),
            decreases n - i,
        {
            let cap = bin_capacities[i] as usize;
            let used = if i < len {
                (len - 1 - i) / n + 1
            } else {
                0
            };
            proof {
                assert(used == stride_count(len as int, n as int, i as int));
                lemma_min_cap_le(caps, i as int);
                lemma_stride_count_le(len as int, n as int, i as int, m as int);
                vstd::arithmetic::mul::lemma_mul_inequality(m as int, cap as int, n as int);
                assert(used <= cap);
            }
            let ghost content = scrambled_content(data@, n as int, i as int);
            let mut frag: Vec<u8> = Vec::new();
            let mut j: usize = 0;
            while j < used
                invariant
                    j <= used,
                    frag@ == content.take(j as int),
                decreases used - j,
            {
                proof {
                    lemma_stride_index(len as int, n as int, i as int, j as int);
                }
                frag.push(data[j * n + i]);
                assert(frag@ =~= content.take(j + 1 as int));
                j = j + 1;
            }
            assert(frag@ =~= content);
            while frag.len() < cap
                invariant
                    used <= frag@.len() <= cap,
                    frag@ == content + zeros((frag@.len() - used) as nat),
                decreases cap - frag@.len(),
            {
                frag.push(0u8);
                assert(frag@ =~= content + zeros((frag@.len() - used) as nat));
            }
            proof {
                lemma_bytes_deep_view(frag);
                assert(frag@ =~= pad_to(content, caps[i as int] as nat));
            }
            bins.push(frag);
            proof {
                assert(bins.deep_view() =~= scrambled_fragments(data@, caps).take(i + 1 as int));
            }
            i = i + 1;
        }
        proof {
            assert(scrambled_fragments(data@, caps).take(n as int) =~= scrambled_fragments(
                data@,
                caps,
            ));
        }
        Ok(bins)
    }

    #[verifier::loop_isolation(false)]
    fn join_bins(data: &[Vec<u8>], payload_len: usize) -> (r: Vec<u8>) {
        let ghost frags = data.deep_view();
        let n = data.len();
        let mut out: Vec<u8> = Vec::new();
        let mut k: usize = 0;
        while k < payload_len
            invariant
                k <= payload_len,
                out@ == unstride(frags, k as int),
            decreases payload_len - k,
        {
            let i = k % n;
            let j = k / n;
            let piece = &data[i];
            proof {
                lemma_bytes_deep_view(data@[i as int]);
                vstd::arithmetic::div_mod::lemma_mod_bound(k as int, n as int);
                lemma_div_below(k as int, n as int, frags[i as int].len() as int);
            }
            out.push(piece[j]);
            assert(out@ =~= unstride(frags, k + 1 as int));
            k = k + 1;
        }
        assert(out@ =~= unstride(frags, payload_len as int));
        out
    }
}

/// Chunked placement: fill the containers in the order given, each to its
/// capacity, until the payload is exhausted; the capacity-efficient policy.
pub struct SplitChunks;

impl Split for SplitChunks {
    open spec fn split_req(data: Seq<u8>, caps: Seq<u64>) -> bool {
        forall|i: int| 0 <= i < caps.len() ==> #[trigger] caps[i] <= usize::MAX
    }

    open spec fn split_ok(data: Seq<u8>, caps: Seq<u64>) -> bool {
        data.len() <= sum_caps(caps)
    }

    open spec fn fragments(data: Seq<u8>, caps: Seq<u64>) -> Seq<Seq<u8>> {
        chunked_fragments(data, caps)
    }

    open spec fn split_err(data: Seq<u8>, caps: Seq<u64>) -> StegError {
        StegError::InsufficientCapacity
    }

    open spec fn join_req(frags: Seq<Seq<u8>>, payload_len: int) -> bool {
        0 <= payload_len <= concat_frags(frags).len()
    }

    open spec fn joined(frags: Seq<Seq<u8>>, payload_len: int) -> Seq<u8> {
        concat_frags(frags).take(payload_len)
    }

    #[verifier::loop_isolation(false)]
    fn split_to_bins(data: &Vec<u8>, bin_capacities: &Vec<u64>) -> (r: Result<
        Vec<Vec<u8>>,
        StegError,
    >) {
        let n = bin_capacities.len();
        let len = data.len();
        let ghost caps = bin_capacities@;

        let mut covered: usize = 0;
        let mut i: usize = 0;
        while i < n
            invariant
                i <= n,
                covered == chunk_lo(len as int, caps, i as int),
            decreases n - i,
        {
            let cap = bin_capacities[i];
            let room = len - covered;
            let step = if (cap as u128) < (room as u128) {
                cap as usize
            } else {
                room
            };
            proof {
                lemma_chunk_lo_bounds(len as int, caps, i as int);
                lemma_sum_caps_take_succ(caps, i as int);
                lemma_sum_caps_nonneg(caps.take(i as int));
            }
            covered = covered + step;
            i = i + 1;
        }
        proof {
            assert(caps.take(n as int) =~= caps);
        }
        if covered < len {
            return Err(StegError::InsufficientCapacity);
        }

        let mut bins: Vec<Vec<u8>> = Vec::new();
        let mut pos: usize = 0;
        let mut i: usize = 0;
        while i < n
            invariant
                i <= n,
                pos == chunk_lo(len as int, caps, i as int),
                bins.deep_view() =~= chunked_fragments(data@, caps).take(i as int),
            decreases n - i,
        {
            let cap = bin_capacities[i] as usize;
            let room = len - pos;
            let take_n = if cap < room {
                cap
            } else {
                room
            };
            proof {
                lemma_chunk_lo_bounds(len as int, caps, i as int);
                lemma_sum_caps_take_succ(caps, i as int);
                lemma_sum_caps_nonneg(caps.take(i as int));
                assert(pos + take_n == chunk_lo(len as int, caps, i + 1 as int));
            }
            let mut frag: Vec<u8> = Vec::new();
            let mut k: usize = 0;
            while k < take_n
                invariant
                    k <= take_n,
                    pos + take_n <= len,
                    frag@ == data@.subrange(pos as int, pos + k as int),
                decreases take_n - k,
            {
                frag.push(data[pos + k]);
                assert(frag@ =~= data@.subrange(pos as int, pos + (k + 1) as int));
                k = k + 1;
            }
            while frag.len() < cap
                invariant
                    take_n <= frag@.len() <= cap,
                    frag@ == data@.subrange(pos as int, pos + take_n as int) + zeros(
                        (frag@.len() - take_n) as nat,
                    ),
                decreases cap - frag@.len(),
            {
                frag.push(0u8);
                assert(frag@ =~= data@.subrange(pos as int, pos + take_n as int) + zeros(
                    (frag@.len() - take_n) as nat,
                ));
            }
            proof {
                lemma_bytes_deep_view(frag);
                assert(frag@ =~= chunked_fragment(data@, caps, i as int));
            }
            bins.push(frag);
            proof {
                assert(bins.deep_view() =~= chunked_fragments(data@, caps).take(i + 1 as int));
            }
            pos = pos + take_n;
            i = i + 1;
        }
        proof {
            assert(chunked_fragments(data@, caps).take(n as int) =~= chunked_fragments(
                data@,
                caps,
            ));
        }
        Ok(bins)
    }

    #[verifier::loop_isolation(false)]
    fn join_bins(data: &[Vec<u8>], payload_len: usize) -> (r: Vec<u8>) {
        let ghost frags = data.deep_view();
        let mut out: Vec<u8> = Vec::new();
        let mut i: usize = 0;
        while i < data.len() && out.len() < payload_len
            invariant
                i <= frags.len(),
                out@.len() <= payload_len,
                out@ == take_at_most(concat_frags(frags.take(i as int)), payload_len as int),
            decreases frags.len() - i,
        {
            let piece = &data[i];
            proof {
                lemma_bytes_deep_view(data@[i as int]);
            }
            let mut k: usize = 0;
            while k < piece.len() && out.len() < payload_len
                invariant
                    k <= piece@.len(),
                    out@.len() <= payload_len,
                    out@ == take_at_most(
                        concat_frags(frags.take(i as int)) + piece@.take(k as int),
                        payload_len as int,
                    ),
                decreases piece@.len() - k,
            {
                proof {
                    let prev = concat_frags(frags.take(i as int)) + piece@.take(k as int);
                    assert(out@.len() < payload_len);
                    assert(take_at_most(prev, payload_len as int) == out@);
                    assert(prev.len() < payload_len) by {
                        if prev.len() >= payload_len {
                            assert(take_at_most(prev, payload_len as int).len() == payload_len);
                        }
                    }
                    assert(take_at_most(prev, payload_len as int) =~= prev);
                }
                out.push(piece[k]);
                proof {
                    let prev = concat_frags(frags.take(i as int)) + piece@.take(k as int);
                    let next = concat_frags(frags.take(i as int)) + piece@.take(k + 1 as int);
                    assert(next =~= prev.push(piece@[k as int]));
                    assert(take_at_most(next, payload_len as int) =~= next);
                    assert(out@ =~= next);
                }
                k = k + 1;
            }
            proof {
                lemma_concat_frags_push(frags.take(i as int), frags[i as int]);
                assert(frags.take(i as int).push(frags[i as int]) =~= frags.take(i + 1 as int));
                let whole = concat_frags(frags.take(i as int)) + piece@;
                let part = concat_frags(frags.take(i as int)) + piece@.take(k as int);
                if k < piece.len() {
                    assert(out@.len() == payload_len);
                    assert(part.len() >= payload_len);
                    assert(whole.len() >= payload_len);
                    assert(take_at_most(whole, payload_len as int) =~= take_at_most(
                        part,
                        payload_len as int,
                    ));
                } else {
                    assert(piece@.take(k as int) =~= piece@);
                }
                assert(out@ == take_at_most(
                    concat_frags(frags.take(i + 1 as int)),
                    payload_len as int,
                ));
            }
            i = i + 1;
        }
        proof {
            if i < data.len() {
                assert(out@.len() == payload_len);
                lemma_concat_frags_append(frags.take(i as int), frags.skip(i as int));
                assert(frags.take(i as int) + frags.skip(i as int) =~= frags);
                let part = concat_frags(frags.take(i as int));
                assert(part.len() >= payload_len);
                assert(concat_frags(frags).take(payload_len as int) =~= take_at_most(
                    part,
                    payload_len as int,
                ));
            } else {
                assert(frags.take(i as int) =~= frags);
                assert(take_at_most(concat_frags(frags), payload_len as int) =~= concat_frags(
                    frags,
                ).take(payload_len as int));
            }
        }
        out
    }
}

/// Concatenating the fragments of a chunked split gives the covered prefix
/// of the payload, followed by all the padding zeros.
proof fn lemma_chunked_concat(data: Seq<u8>, caps: Seq<u64>)
    ensures
        concat_frags(chunked_fragments(data, caps)) == data.take(
            chunk_lo(data.len() as int, caps, caps.len() as int),
        ) + zeros(
            (sum_caps(caps) - chunk_lo(data.len() as int, caps, caps.len() as int)) as nat,
        ),
    decreases caps.len(),
{
    let len = data.len() as int;
    let n = caps.len() as int;
    let b = chunk_lo(len, caps, n);
    if n == 0 {
        assert(caps.take(0) =~= caps);
        assert(chunked_fragments(data, caps) =~= Seq::<Seq<u8>>::empty());
        assert(data.take(0) + zeros(0) =~= Seq::<u8>::empty());
    } else {
        let shorter = caps.drop_last();
        lemma_chunked_concat(data, shorter);
        lemma_sum_caps_nonneg(shorter);
        assert(caps.take(n - 1) =~= shorter);
        assert(caps.take(n) =~= caps);
        assert(shorter.take(n - 1) =~= shorter);
        assert forall|i: int| 0 <= i < n - 1 implies chunked_fragment(data, caps, i)
            == chunked_fragment(data, shorter, i) by {
            assert(caps.take(i) =~= shorter.take(i));
            assert(caps.take(i + 1) =~= shorter.take(i + 1));
            assert(caps[i] == shorter[i]);
        }
        assert(chunked_fragments(data, caps).drop_last() =~= chunked_fragments(data, shorter));
        assert(chunked_fragments(data, caps).last() == chunked_fragment(data, caps, n - 1));

        let a = chunk_lo(len, caps, n - 1);
        let sum_rest = sum_caps(shorter);
        let last_cap = caps[n - 1] as int;
        assert(sum_caps(caps) == sum_rest + last_cap);
        lemma_chunk_lo_bounds(len, caps, n - 1);
        lemma_sum_caps_take_succ(caps, n - 1);
        assert(chunk_lo(len, shorter, n - 1) == a);

        assert(concat_frags(chunked_fragments(data, caps)) == (data.take(a) + zeros(
            (sum_rest - a) as nat,
        )) + chunked_fragment(data, caps, n - 1));
        assert(chunked_fragment(data, caps, n - 1) == pad_to(
            data.subrange(a, b),
            last_cap as nat,
        ));
        assert((data.take(a) + zeros((sum_rest - a) as nat)) + pad_to(
            data.subrange(a, b),
            last_cap as nat,
        ) =~= data.take(b) + zeros((sum_rest + last_cap - b) as nat));
    }
}

/// Round trip for the chunked policy: whenever the capacities together can
/// hold the payload, joining the fragments of a split at the payload's true
/// length gives back the payload, byte for byte.
pub proof fn lemma_chunked_round_trip(data: Seq<u8>, caps: Seq<u64>)
    requires
        data.len() <= sum_caps(caps),
    ensures
        <SplitChunks as Split>::join_req(chunked_fragments(data, caps), data.len() as int),
        <SplitChunks as Split>::joined(chunked_fragments(data, caps), data.len() as int) == data,
{
    let len = data.len() as int;
    let n = caps.len() as int;
    lemma_chunked_concat(data, caps);
    assert(caps.take(n) =~= caps);
    assert(chunk_lo(len, caps, n) == len);
    assert(data.take(len) =~= data);
    assert(concat_frags(chunked_fragments(data, caps)).take(len) =~= data);
}

/// Round trip for the scrambled policy: whenever the payload fits in
/// `min(capacities) * container_count` bytes, the inverse stride placement
/// over the fragments of a split gives back the payload, byte for byte.
pub proof fn lemma_scrambled_round_trip(data: Seq<u8>, caps: Seq<u64>)
    requires
        caps.len() > 0,
        data.len() <= min_cap(caps) * caps.len(),
    ensures
        <SplitScrambled as Split>::join_req(scrambled_fragments(data, caps), data.len() as int),
        <SplitScrambled as Split>::joined(scrambled_fragments(data, caps), data.len() as int)
            == data,
{
    let n = caps.len() as int;
    let len = data.len() as int;
    let frags = scrambled_fragments(data, caps);
    assert forall|i: int| 0 <= i < frags.len() implies len <= (#[trigger] frags[i]).len()
        * frags.len() by {
        lemma_min_cap_le(caps, i);
        assert(frags[i].len() >= caps[i]);
        vstd::arithmetic::mul::lemma_mul_inequality(min_cap(caps), frags[i].len() as int, n);
    }
    assert forall|k: int| 0 <= k < len implies unstride(frags, len)[k] == data[k] by {
        let i = k % n;
        let j = k / n;
        vstd::arithmetic::div_mod::lemma_mod_bound(k, n);
        vstd::arithmetic::div_mod::lemma_fundamental_div_mod(k, n);
        assert(n * j <= len - 1 - i);
        lemma_div_at_least(len - 1 - i, n, j);
        assert(i < len);
        assert(j < stride_count(len, n, i));
        let content = scrambled_content(data, n, i);
        assert(content.len() == stride_count(len, n, i));
        assert(frags[i] == pad_to(content, caps[i] as nat));
        assert(frags[i][j] == content[j]);
        assert(content[j] == data[j * n + i]);
        vstd::arithmetic::mul::lemma_mul_is_commutative(n, j);
        assert(j * n + i == k);
    }
    assert(unstride(frags, len) =~= data);
}

} // verus!
