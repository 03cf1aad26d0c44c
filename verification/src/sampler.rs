//! Uniform windowed sampling.
//!
//! The sampler reduces a large read-only byte view to a bounded-size
//! representative subset: it either returns the whole view (when the view is
//! no larger than the target) or concatenates `windows_count` disjoint
//! windows of `window_size = max(1, floor(sqrt(target)))` bytes whose start
//! positions are sorted random offsets spread over the whole view.

use vstd::prelude::*;

verus! {

use vstd::multiset::Multiset;

/// Floor of the square root, defined incrementally.
pub open spec fn spec_isqrt(n: nat) -> nat
    decreases n,
{
    if n == 0 {
        0
    } else {
        let r = spec_isqrt((n - 1) as nat);
        if (r + 1) * (r + 1) <= n {
            r + 1
        } else {
            r
        }
    }
}

/// `spec_isqrt(n)` is the unique `r` with `r*r <= n < (r+1)*(r+1)`.
pub proof fn lemma_isqrt_bounds(n: nat)
    ensures
        spec_isqrt(n) * spec_isqrt(n) <= n,
        n < (spec_isqrt(n) + 1) * (spec_isqrt(n) + 1),
    decreases n,
{
    if n == 0 {
        assert(spec_isqrt(n) == 0);
        assert((spec_isqrt(n) + 1) * (spec_isqrt(n) + 1) == 1) by (nonlinear_arith)
            requires
                spec_isqrt(n) == 0,
        ;
        assert(n < (spec_isqrt(n) + 1) * (spec_isqrt(n) + 1));
    } else {
        lemma_isqrt_bounds((n - 1) as nat);
        let r = spec_isqrt((n - 1) as nat);
        if (r + 1) * (r + 1) <= n {
            assert(spec_isqrt(n) == r + 1);
            assert(n < (r + 2) * (r + 2)) by (nonlinear_arith)
                requires
                    n - 1 < (r + 1) * (r + 1),
            ;
            assert(n < (spec_isqrt(n) + 1) * (spec_isqrt(n) + 1));
        } else {
            assert(spec_isqrt(n) == r);
            assert(r * r <= n - 1 < n);
            assert(n < (spec_isqrt(n) + 1) * (spec_isqrt(n) + 1));
        }
    }
}

proof fn lemma_isqrt_unique(n: nat, r: nat)
    requires
        r * r <= n,
        n < (r + 1) * (r + 1),
    ensures
        r == spec_isqrt(n),
{
    lemma_isqrt_bounds(n);
    let s = spec_isqrt(n);
    if r < s {
        assert((r + 1) * (r + 1) <= s * s) by (nonlinear_arith)
            requires
                r + 1 <= s,
        ;
    }
    if s < r {
        assert((s + 1) * (s + 1) <= r * r) by (nonlinear_arith)
            requires
                s + 1 <= r,
        ;
    }
}

/// Floor of the square root, by binary search over `u128`.
pub fn isqrt(n: usize) -> (r: usize)
    ensures
        r as nat == spec_isqrt(n as nat),
        r * r <= n,
{
    let n128 = n as u128;
    let mut lo: u128 = 0;
    let mut hi: u128 = n128 + 1;
    proof {
        assert(n128 < (n128 + 1) * (n128 + 1)) by (nonlinear_arith)
            requires
                n128 >= 0,
        ;
    }
    while lo + 1 < hi
        invariant
            lo < hi <= n128 + 1,
            n128 == n as u128,
            lo * lo <= n128,
            n128 < hi * hi,
        decreases hi - lo,
    {
        let mid = lo + (hi - lo) / 2;
        proof {
            assert(lo < mid < hi);
            assert(mid * mid < u128::MAX) by (nonlinear_arith)
                requires
                    mid <= 0xffff_ffff_ffff_ffffu128,
            ;
        }
        if mid * mid <= n128 {
            lo = mid;
        } else {
            hi = mid;
        }
    }
    proof {
        lemma_isqrt_unique(n as nat, lo as nat);
        assert(lo * lo <= n128);
        assert((lo as nat) * (lo as nat) <= n as nat) by (nonlinear_arith)
            requires
                lo * lo <= n128,
                n128 == n as u128,
        ;
    }
    lo as usize
}

/// Non-decreasing order.
pub open spec fn is_sorted(s: Seq<usize>) -> bool {
    forall|i: int, j: int| 0 <= i <= j < s.len() ==> s[i] <= s[j]
}

/// Sort offsets ascending; the result is a permutation of the input.
pub fn sort_offsets(v: Vec<usize>) -> (r: Vec<usize>)
    ensures
        r@.len() == v@.len(),
        r@.to_multiset() == v@.to_multiset(),
        is_sorted(r@),
{
    broadcast use vstd::seq_lib::group_to_multiset_ensures;

    let mut work = v;
    let mut out: Vec<usize> = Vec::new();
    let ghost all = work@.to_multiset();
    proof {
        assert(out@.to_multiset().add(work@.to_multiset()) =~= all);
    }
    while work.len() > 0
        invariant
            out@.to_multiset().add(work@.to_multiset()) =~= all,
            out@.len() + work@.len() == all.len(),
            is_sorted(out@),
            forall|i: int, j: int|
                0 <= i < out@.len() && 0 <= j < work@.len() ==> out@[i] <= work@[j],
        decreases work.len(),
    {
        // Position of the least remaining offset.
        let mut m: usize = 0;
        let mut i: usize = 1;
        while i < work.len()
            invariant
                0 <= m < i <= work@.len(),
                forall|j: int| 0 <= j < i ==> work@[m as int] <= work@[j],
            decreases work.len() - i,
        {
            if work[i] < work[m] {
                m = i;
            }
            i = i + 1;
        }
        let ghost w0 = work@;
        let x = work.remove(m);
        proof {
            broadcast use vstd::seq_lib::group_to_multiset_ensures;
            broadcast use vstd::multiset::group_multiset_axioms;

            assert(w0[m as int] == x);
            assert(w0.contains(x));
            assert(w0.to_multiset().count(x) > 0);
            assert(work@ == w0.remove(m as int));
            assert(work@.to_multiset() =~= w0.to_multiset().remove(x));
            assert(out@.push(x).to_multiset() =~= out@.to_multiset().insert(x));
            assert(out@.push(x).to_multiset().add(work@.to_multiset()) =~= all);
            assert forall|j: int| 0 <= j < work@.len() implies x <= work@[j] by {
                if j < m {
                    assert(work@[j] == w0[j]);
                } else {
                    assert(work@[j] == w0[j + 1]);
                }
            }
        }
        out.push(x);
    }
    proof {
        broadcast use vstd::seq_lib::group_to_multiset_ensures;
        broadcast use vstd::multiset::group_multiset_axioms;

        assert(work@ =~= Seq::<usize>::empty());
        assert(work@.to_multiset() =~= Multiset::<usize>::empty());
        assert(out@.to_multiset().add(work@.to_multiset()) =~= out@.to_multiset());
        assert(out@.to_multiset() =~= all);
        assert(out@.len() == out@.to_multiset().len());
        assert(v@.len() == all.len());
    }
    out
}

/// A sample: the selected bytes plus descriptive metadata.
pub struct SampleResult {
    pub data: Vec<u8>,
    pub metadata: SampleMetadata,
}

/// How a sample was produced: sizes and method (`"full"` or `"uniform"`).
pub struct SampleMetadata {
    pub original_size: usize,
    pub sample_size: usize,
    pub method: String,
}

/// Window size for a target: `max(1, floor(sqrt(target)))`.
pub open spec fn spec_window_size(target: nat) -> nat {
    if spec_isqrt(target) < 1 {
        1
    } else {
        spec_isqrt(target)
    }
}

/// Number of windows for a target: `target / window_size`.
pub open spec fn spec_windows_count(target: nat) -> nat {
    target / spec_window_size(target)
}

/// Bytes covered by all windows together.
pub open spec fn spec_coverage(target: nat) -> nat {
    spec_windows_count(target) * spec_window_size(target)
}

/// Largest raw offset a window may be drawn at.
pub open spec fn spec_max_offset(data_len: nat, target: nat) -> nat {
    if data_len >= spec_coverage(target) {
        (data_len - spec_coverage(target)) as nat
    } else {
        0
    }
}

/// When the whole view is returned verbatim instead of sub-windowed: the view
/// already fits the target, the target is too small to sub-window, or the
/// window coverage equals the view exactly.
pub open spec fn takes_full_path(data_len: nat, target: nat) -> bool {
    ||| data_len <= target
    ||| spec_windows_count(target) == 0
    ||| (spec_max_offset(data_len, target) == 0 && spec_coverage(target) == data_len)
}

/// The result returns the whole view with method `"full"`.
pub open spec fn is_full_result(r: SampleResult, data: Seq<u8>) -> bool {
    &&& r.data@ == data
    &&& r.metadata.original_size == data.len()
    &&& r.metadata.sample_size == data.len()
    &&& r.metadata.method@ == "full"@
}

/// Start positions of the windows: the i-th sorted offset advanced by
/// `i * window_size`, which keeps positions increasing and spaced by at
/// least one window.
pub open spec fn window_positions(sorted: Seq<usize>, ws: nat) -> Seq<int> {
    Seq::new(sorted.len(), |i: int| sorted[i] + i * ws)
}

/// One window: `ws` bytes starting at `pos`, truncated at the view's end.
pub open spec fn window_at(data: Seq<u8>, pos: int, ws: nat) -> Seq<u8> {
    data.subrange(
        pos,
        if pos + ws <= data.len() {
            pos + ws
        } else {
            data.len() as int
        },
    )
}

/// All windows concatenated in position order.
pub open spec fn windows_concat(data: Seq<u8>, positions: Seq<int>, ws: nat) -> Seq<u8>
    decreases positions.len(),
{
    if positions.len() == 0 {
        Seq::empty()
    } else {
        window_at(data, positions[0], ws) + windows_concat(data, positions.drop_first(), ws)
    }
}

/// The uniform sample drawn from `data` at the given sorted offsets.
pub open spec fn spec_uniform_sample(data: Seq<u8>, sorted: Seq<usize>, ws: nat) -> Seq<u8> {
    windows_concat(data, window_positions(sorted, ws), ws)
}

proof fn lemma_windows_concat_push(data: Seq<u8>, ps: Seq<int>, p: int, ws: nat)
    ensures
        windows_concat(data, ps.push(p), ws) == windows_concat(data, ps, ws) + window_at(
            data,
            p,
            ws,
        ),
    decreases ps.len(),
{
    if ps.len() == 0 {
        assert(ps.push(p).drop_first() =~= Seq::<int>::empty());
        assert(ps.push(p)[0] == p);
        assert(windows_concat(data, Seq::<int>::empty(), ws) == Seq::<u8>::empty());
        assert(windows_concat(data, ps.push(p), ws) == window_at(data, p, ws) + Seq::<u8>::empty());
        assert(window_at(data, p, ws) + Seq::<u8>::empty() =~= window_at(data, p, ws));
        assert(windows_concat(data, ps, ws) + window_at(data, p, ws) =~= window_at(data, p, ws));
    } else {
        assert(ps.push(p).drop_first() =~= ps.drop_first().push(p));
        lemma_windows_concat_push(data, ps.drop_first(), p, ws);
        assert(ps.push(p)[0] == ps[0]);
        assert(windows_concat(data, ps.push(p), ws) == window_at(data, ps[0], ws)
            + windows_concat(data, ps.drop_first().push(p), ws));
        assert(window_at(data, ps[0], ws) + (windows_concat(data, ps.drop_first(), ws)
            + window_at(data, p, ws)) =~= (window_at(data, ps[0], ws) + windows_concat(
            data,
            ps.drop_first(),
            ws,
        )) + window_at(data, p, ws));
    }
}

proof fn lemma_windows_concat_full(data: Seq<u8>, ps: Seq<int>, ws: nat)
    requires
        ws >= 1,
        forall|k: int| 0 <= k < ps.len() ==> 0 <= ps[k] && ps[k] + ws <= data.len(),
    ensures
        windows_concat(data, ps, ws).len() == ps.len() * ws,
        forall|i: int|
            0 <= i < ps.len() ==> #[trigger] windows_concat(data, ps, ws).subrange(
                i * ws,
                i * ws + ws,
            ) == data.subrange(ps[i], ps[i] + ws),
    decreases ps.len(),
{
    let out = windows_concat(data, ps, ws);
    if ps.len() == 0 {
        assert(out.len() == 0);
    } else {
        let w = window_at(data, ps[0], ws);
        let rest = windows_concat(data, ps.drop_first(), ws);
        assert(w =~= data.subrange(ps[0], ps[0] + ws));
        assert(w.len() == ws);
        assert forall|k: int|
            0 <= k < ps.drop_first().len() implies 0 <= #[trigger] ps.drop_first()[k]
            && ps.drop_first()[k] + ws <= data.len() by {
            assert(ps.drop_first()[k] == ps[k + 1]);
        }
        lemma_windows_concat_full(data, ps.drop_first(), ws);
        assert(out.len() == ws + (ps.len() - 1) * ws);
        assert(ws + (ps.len() - 1) * ws == ps.len() * ws) by (nonlinear_arith)
            requires
                ps.len() >= 1,
        ;
        assert forall|i: int|
            0 <= i < ps.len() implies #[trigger] out.subrange(i * ws, i * ws + ws)
            == data.subrange(ps[i], ps[i] + ws) by {
            assert(out == w + rest);
            if i == 0 {
                assert(out.subrange(0, ws as int) =~= w);
            } else {
                assert(0 <= (i - 1) * ws && (i - 1) * ws + ws == i * ws && i * ws + ws <= (ps.len()
                    - 1) * ws + ws) by (nonlinear_arith)
                    requires
                        1 <= i < ps.len(),
                        ws >= 1,
                ;
                assert(ps.drop_first()[i - 1] == ps[i]);
                assert(rest.subrange((i - 1) * ws, (i - 1) * ws + ws) == data.subrange(
                    ps[i],
                    ps[i] + ws,
                ));
                assert forall|k: int|
                    0 <= k < ws implies #[trigger] out.subrange(i * ws, i * ws + ws)[k]
                    == rest.subrange((i - 1) * ws, (i - 1) * ws + ws)[k] by {
                    assert(out.subrange(i * ws, i * ws + ws)[k] == out[i * ws + k]);
                    assert(out[i * ws + k] == rest[i * ws + k - ws]);
                    assert(rest.subrange((i - 1) * ws, (i - 1) * ws + ws)[k] == rest[(i - 1) * ws
                        + k]);
                }
                assert(out.subrange(i * ws, i * ws + ws) =~= rest.subrange(
                    (i - 1) * ws,
                    (i - 1) * ws + ws,
                ));
            }
        }
    }
}

/// Shape of a uniform sample: with sorted offsets that leave room for every
/// window, each window in the output has exactly `window_size` bytes, the
/// i-th window is the slice of the view starting at `sorted[i] + i * ws`,
/// and window start positions strictly increase, spaced at least one window
/// apart, so windows never overlap and appear in position order.
pub proof fn lemma_uniform_window_shape(data: Seq<u8>, sorted: Seq<usize>, ws: nat)
    requires
        ws >= 1,
        is_sorted(sorted),
        forall|k: int| 0 <= k < sorted.len() ==> sorted[k] + sorted.len() * ws <= data.len(),
    ensures
        spec_uniform_sample(data, sorted, ws).len() == sorted.len() * ws,
        forall|i: int|
            0 <= i < sorted.len() ==> #[trigger] spec_uniform_sample(data, sorted, ws).subrange(
                i * ws,
                i * ws + ws,
            ) == data.subrange(sorted[i] + i * ws, sorted[i] + i * ws + ws),
        forall|i: int, j: int|
            0 <= i < j < sorted.len() ==> sorted[i] + i * ws + ws <= sorted[j] + j * ws,
{
    let ps = window_positions(sorted, ws);
    assert forall|k: int|
        0 <= k < ps.len() implies 0 <= #[trigger] ps[k] && ps[k] + ws <= data.len() by {
        assert((k + 1) * ws <= sorted.len() * ws) by (nonlinear_arith)
            requires
                k + 1 <= sorted.len(),
                ws >= 0,
        ;
        assert((k + 1) * ws == k * ws + ws) by (nonlinear_arith);
    }
    lemma_windows_concat_full(data, ps, ws);
    assert forall|i: int, j: int|
        0 <= i < j < sorted.len() implies sorted[i] + i * ws + ws <= sorted[j] + j * ws by {
        assert(sorted[i] <= sorted[j]);
        assert(i * ws + ws <= j * ws) by (nonlinear_arith)
            requires
                i + 1 <= j,
                ws >= 1,
        ;
    }
}

/// A permutation of offsets that are all at most `bound` stays at most `bound`.
proof fn lemma_perm_bound(a: Seq<usize>, b: Seq<usize>, bound: usize)
    requires
        a.to_multiset() == b.to_multiset(),
        forall|k: int| 0 <= k < b.len() ==> b[k] <= bound,
    ensures
        forall|k: int| 0 <= k < a.len() ==> a[k] <= bound,
{
    broadcast use vstd::seq_lib::group_to_multiset_ensures;
    broadcast use vstd::multiset::group_multiset_axioms;

    assert forall|k: int| 0 <= k < a.len() implies a[k] <= bound by {
        assert(a.contains(a[k]));
        assert(a.to_multiset().count(a[k]) > 0);
        assert(b.to_multiset().count(a[k]) > 0);
        assert(b.contains(a[k]));
        let j = choose|j: int| 0 <= j < b.len() && b[j] == a[k];
        assert(b[j] <= bound);
    }
}

/// Relies on `rand::random_range` over `0..=max_offset`: the draw lies in
/// that inclusive range. Uniformity is not stated; nothing here depends on it.
#[verifier::external_body]
fn draw_offset(max_offset: usize) -> (r: usize)
    ensures
        r <= max_offset,
{
    rand::random_range(0..=max_offset)
}

/// The whole view verbatim, with method `"full"`.
fn full_sample(data: &[u8]) -> (r: SampleResult)
    ensures
        is_full_result(r, data@),
{
    let copied = vstd::slice::slice_to_vec(data);
    let n = data.len();
    SampleResult {
        data: copied,
        metadata: SampleMetadata {
            original_size: n,
            sample_size: n,
            method: String::from_str("full"),
        },
    }
}

/// Uniform windowed sampling with the raw window offsets passed in, so the
/// whole reduction is deterministic in its arguments: offsets are sorted,
/// advanced by one window each to eliminate overlap, and the windows are
/// concatenated in position order.
pub fn sample_with_offsets(data: &[u8], target_size: usize, raw_offsets: Vec<usize>) -> (r:
    SampleResult)
    requires
        raw_offsets@.len() == spec_windows_count(target_size as nat),
        forall|k: int|
            0 <= k < raw_offsets@.len() ==> raw_offsets@[k] <= spec_max_offset(
                data@.len(),
                target_size as nat,
            ),
    ensures
        r.metadata.original_size == data@.len(),
        r.metadata.sample_size == r.data@.len(),
        r.data@.len() <= if target_size as int >= data@.len() {
            target_size as int
        } else {
            data@.len() as int
        },
        takes_full_path(data@.len(), target_size as nat) ==> is_full_result(r, data@),
        !takes_full_path(data@.len(), target_size as nat) ==> {
            &&& r.metadata.method@ == "uniform"@
            &&& r.data@.len() == spec_coverage(target_size as nat)
            &&& exists|sorted: Seq<usize>|
                {
                    &&& sorted.to_multiset() == raw_offsets@.to_multiset()
                    &&& is_sorted(sorted)
                    &&& r.data@ == spec_uniform_sample(
                        data@,
                        sorted,
                        spec_window_size(target_size as nat),
                    )
                }
        },
{
    let ghost t = target_size as nat;
    let data_size = data.len();
    if data_size <= target_size {
        return full_sample(data);
    }
    let ws0 = isqrt(target_size);
    let ws = if ws0 < 1 {
        1
    } else {
        ws0
    };
    proof {
        assert(ws as nat == spec_window_size(t));
    }
    let wc = target_size / ws;
    proof {
        assert(wc as nat == spec_windows_count(t));
    }
    if wc == 0 {
        return full_sample(data);
    }
    proof {
        assert(wc * ws <= target_size) by (nonlinear_arith)
            requires
                wc == target_size as int / ws as int,
                1 <= ws,
                0 <= target_size,
        ;
    }
    let cov = wc * ws;
    proof {
        assert(cov as nat == spec_coverage(t));
    }
    let max_off = if data_size >= cov {
        data_size - cov
    } else {
        0
    };
    proof {
        assert(max_off as nat == spec_max_offset(data@.len(), t));
    }
    if max_off == 0 && cov == data_size {
        return full_sample(data);
    }
    proof {
        assert(!takes_full_path(data@.len(), t));
    }
    let sorted = sort_offsets(raw_offsets);
    proof {
        lemma_perm_bound(
            sorted@,
            raw_offsets@,
            (spec_max_offset(data@.len(), t)) as usize,
        );
    }
    let ghost positions = window_positions(sorted@, ws as nat);
    let mut out: Vec<u8> = Vec::with_capacity(target_size);
    let mut i: usize = 0;
    proof {
        assert(positions.subrange(0, 0) =~= Seq::<int>::empty());
    }
    while i < wc
        invariant
            data_size == data@.len(),
            ws >= 1,
            wc == sorted@.len(),
            cov == wc * ws,
            cov <= data_size,
            max_off == data_size - cov,
            is_sorted(sorted@),
            forall|k: int| 0 <= k < sorted@.len() ==> sorted@[k] <= max_off,
            positions == window_positions(sorted@, ws as nat),
            0 <= i <= wc,
            out@.len() == i * ws,
            out@ == windows_concat(data@, positions.subrange(0, i as int), ws as nat),
        decreases wc - i,
    {
        let gi = Ghost(i as int);
        proof {
            assert(i * ws + ws <= wc * ws) by (nonlinear_arith)
                requires
                    i + 1 <= wc,
                    ws >= 1,
            ;
        }
        let pos = sorted[i] + i * ws;
        let end = if pos + ws <= data_size {
            pos + ws
        } else {
            data_size
        };
        proof {
            assert(pos + ws <= data_size);
            assert(positions[i as int] == pos as int);
        }
        let ghost out0 = out@;
        let mut j = pos;
        while j < end
            invariant
                pos <= j <= end,
                end == pos + ws,
                end <= data_size == data@.len(),
                out@ == out0 + data@.subrange(pos as int, j as int),
            decreases end - j,
        {
            let b = *vstd::slice::slice_index_get(data, j);
            out.push(b);
            proof {
                assert(out@ =~= out0 + data@.subrange(pos as int, j as int + 1));
            }
            j = j + 1;
        }
        proof {
            assert(out@ == out0 + window_at(data@, pos as int, ws as nat));
            lemma_windows_concat_push(
                data@,
                positions.subrange(0, gi@),
                pos as int,
                ws as nat,
            );
            assert(positions.subrange(0, gi@ + 1) =~= positions.subrange(0, gi@).push(
                pos as int,
            ));
            assert(out@ == windows_concat(
                data@,
                positions.subrange(0, gi@ + 1),
                ws as nat,
            ));
            assert((gi@ + 1) * ws == gi@ * ws + ws) by (nonlinear_arith);
        }
        i = i + 1;
    }
    proof {
        assert(positions.subrange(0, wc as int) =~= positions);
        assert(out@ == spec_uniform_sample(data@, sorted@, spec_window_size(t)));
    }
    let sample_len = out.len();
    SampleResult {
        data: out,
        metadata: SampleMetadata {
            original_size: data_size,
            sample_size: sample_len,
            method: String::from_str("uniform"),
        },
    }
}

/// A single unit: the uniform windowed sampler.
pub struct UniformSampler;

impl UniformSampler {
    /// Sample `data` down to roughly `target_size` bytes: the whole view when
    /// it already fits, else `windows_count` windows at sorted random offsets.
    /// The exact shape of the uniform result, as a function of the drawn
    /// offsets, is stated on [`sample_with_offsets`].
    pub fn sample(&self, data: &[u8], target_size: usize) -> (r: SampleResult)
        ensures
            r.metadata.original_size == data@.len(),
            r.metadata.sample_size == r.data@.len(),
            r.data@.len() <= if target_size as int >= data@.len() {
                target_size as int
            } else {
                data@.len() as int
            },
            takes_full_path(data@.len(), target_size as nat) ==> is_full_result(r, data@),
            !takes_full_path(data@.len(), target_size as nat) ==> {
                &&& r.metadata.method@ == "uniform"@
                &&& r.data@.len() == spec_coverage(target_size as nat)
                &&& exists|sorted: Seq<usize>|
                    {
                        &&& is_sorted(sorted)
                        &&& sorted.len() == spec_windows_count(target_size as nat)
                        &&& (forall|k: int|
                            0 <= k < sorted.len() ==> sorted[k] <= spec_max_offset(
                                data@.len(),
                                target_size as nat,
                            ))
                        &&& r.data@ == spec_uniform_sample(
                            data@,
                            sorted,
                            spec_window_size(target_size as nat),
                        )
                    }
            },
    {
        let ghost t = target_size as nat;
        let ws0 = isqrt(target_size);
        let ws = if ws0 < 1 {
            1
        } else {
            ws0
        };
        let wc = target_size / ws;
        proof {
            assert(wc as nat == spec_windows_count(t));
            assert(wc * ws <= target_size) by (nonlinear_arith)
                requires
                    wc == target_size as int / ws as int,
                    1 <= ws,
                    0 <= target_size,
            ;
        }
        let cov = wc * ws;
        let data_size = data.len();
        let max_off = if data_size >= cov {
            data_size - cov
        } else {
            0
        };
        proof {
            assert(max_off as nat == spec_max_offset(data@.len(), t));
        }
        let mut raw: Vec<usize> = Vec::new();
        let mut i: usize = 0;
        while i < wc
            invariant
                0 <= i <= wc,
                raw@.len() == i,
                forall|k: int| 0 <= k < raw@.len() ==> raw@[k] <= max_off,
            decreases wc - i,
        {
            let o = draw_offset(max_off);
            raw.push(o);
            i = i + 1;
        }
        let r = sample_with_offsets(data, target_size, raw);
        proof {
            if !takes_full_path(data@.len(), t) {
                let sorted = choose|sorted: Seq<usize>|
                    {
                        &&& sorted.to_multiset() == raw@.to_multiset()
                        &&& is_sorted(sorted)
                        &&& r.data@ == spec_uniform_sample(data@, sorted, spec_window_size(t))
                    };
                broadcast use vstd::seq_lib::group_to_multiset_ensures;

                lemma_perm_bound(sorted, raw@, max_off);
                assert(sorted.len() == sorted.to_multiset().len());
                assert(raw@.len() == raw@.to_multiset().len());
                assert(sorted.len() == spec_windows_count(t));
            }
        }
        r
    }
}

} // verus!
