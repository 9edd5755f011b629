use vstd::prelude::*;
use vstd::arithmetic::div_mod::lemma_fundamental_div_mod;

verus! {

// ---------------------------------------------------------------------------
// Slot partitioning: equal-width, edge-trimmed start offsets
// ---------------------------------------------------------------------------

/// The first usable second of a clip `duration_ms` milliseconds long: the
/// edge trim reserves a fifth of the clip (half of the trim fraction 2/5)
/// at its start, truncated to whole seconds as the transcoder's seek wants.
pub open spec fn start_offset_spec(duration_ms: int) -> int {
    duration_ms / 5000
}

/// The whole-second step between successive slots when the usable three
/// fifths of the clip are divided into `k` slots.
pub open spec fn slot_interval_spec(duration_ms: int, k: int) -> int {
    (3 * duration_ms) / (5000 * k)
}

/// Slot `i`'s start offset, in whole seconds.
pub open spec fn offset_spec(duration_ms: int, k: int, i: int) -> int {
    start_offset_spec(duration_ms) + i * slot_interval_spec(duration_ms, k)
}

/// The `k` start offsets (whole seconds) carved from a clip of
/// `duration_ms` milliseconds: the first at a fifth of the clip, each
/// following one a fixed interval later.
#[verifier::loop_isolation(false)]
pub fn compute_start_offsets(duration_ms: u64, k: usize) -> (r: Vec<u64>)
    requires
        k >= 1,
        duration_ms <= u64::MAX / 3,
        5000 * (k as int) <= u64::MAX,
    ensures
        r@.len() == k,
        forall|i: int| 0 <= i < k ==> r@[i] == offset_spec(duration_ms as int, k as int, i),
{
    let d = duration_ms;
    let start: u64 = d / 5000;
    let interval: u64 = (3 * d) / (5000 * (k as u64));
    proof {
        lemma_fundamental_div_mod(d as int, 5000);
        lemma_fundamental_div_mod(3 * d as int, 5000 * k as int);
        assert(5000 * (start as int) <= d);
        assert((5000 * k as int) * (interval as int) <= 3 * d);
        assert(start as int + k as int * interval as int <= d) by (nonlinear_arith)
            requires
                5000 * (start as int) <= d,
                (5000 * (k as int)) * (interval as int) <= 3 * (d as int),
                d >= 0,
                k >= 1,
                start >= 0,
                interval >= 0,
        ;
    }
    let mut r: Vec<u64> = Vec::new();
    let mut val: u64 = start;
    let mut i: usize = 0;
    while i < k
        invariant
            i <= k,
            r@.len() == i,
            val == start as int + i as int * interval as int,
            forall|j: int| 0 <= j < i ==> r@[j] == offset_spec(d as int, k as int, j),
        decreases k - i,
    {
        r.push(val);
        proof {
            assert((i as int + 1) * interval as int == i as int * interval as int
                + interval as int) by (nonlinear_arith);
            assert(start as int + (i as int + 1) * interval as int <= start as int + k as int
                * interval as int) by (nonlinear_arith)
                requires
                    i as int + 1 <= k as int,
                    interval >= 0,
                    start >= 0,
            ;
        }
        val = val + interval;
        i = i + 1;
    }
    r
}

/// Partitioner bounds: every slot offset lies inside the trimmed window —
/// at or after the truncated start second `duration/5000`, and never past
/// four fifths of the clip.
pub proof fn lemma_offsets_within_bounds(duration_ms: int, k: int, i: int)
    requires
        0 <= duration_ms,
        1 <= k,
        0 <= i < k,
    ensures
        offset_spec(duration_ms, k, i) >= start_offset_spec(duration_ms),
        5000 * offset_spec(duration_ms, k, i) <= 4 * duration_ms,
{
    let d = duration_ms;
    let start = start_offset_spec(d);
    let q = slot_interval_spec(d, k);
    lemma_fundamental_div_mod(d, 5000);
    lemma_fundamental_div_mod(3 * d, 5000 * k);
    assert(5000 * start <= d);
    assert((5000 * k) * q <= 3 * d);
    assert(q >= 0) by (nonlinear_arith)
        requires
            (5000 * k) * q <= 3 * d,
            0 <= 3 * d - (5000 * k) * q < 5000 * k,
            k >= 1,
            d >= 0,
    ;
    assert(i * q >= 0) by (nonlinear_arith)
        requires
            i >= 0,
            q >= 0,
    ;
    assert(5000 * (start + i * q) <= 4 * d) by (nonlinear_arith)
        requires
            5000 * start <= d,
            (5000 * k) * q <= 3 * d,
            0 <= i < k,
            q >= 0,
    ;
}

} // verus!
