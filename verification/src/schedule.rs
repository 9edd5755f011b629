use vstd::prelude::*;
use vstd::seq_lib::lemma_multiset_commutative;

use rand::seq::SliceRandom;

verus! {

broadcast use vstd::seq_lib::group_to_multiset_ensures, vstd::multiset::group_multiset_axioms;

// ---------------------------------------------------------------------------
// The randomness source, taken on trust
// ---------------------------------------------------------------------------

/// Relies on rand's `SliceRandom::shuffle` with `rand::thread_rng`: it
/// reorders the slice's elements in place, so the length and the multiset
/// of entries are unchanged; which order comes back is arbitrary.
#[verifier::external_body]
fn shuffle_clip_order(v: &mut Vec<usize>)
    ensures
        final(v)@.len() == old(v)@.len(),
        final(v)@.to_multiset() == old(v)@.to_multiset(),
{
    let mut rng = rand::thread_rng();
    v.shuffle(&mut rng);
}

// ---------------------------------------------------------------------------
// Permutation facts
// ---------------------------------------------------------------------------

proof fn lemma_permutation_no_duplicates(a: Seq<usize>, b: Seq<usize>)
    requires
        a.to_multiset() == b.to_multiset(),
        a.no_duplicates(),
    ensures
        b.no_duplicates(),
{
    a.lemma_multiset_has_no_duplicates();
    b.lemma_multiset_has_no_duplicates_conv();
}

/// A reordering of `0, 1, .., n-1` has no duplicates, stays below `n`, and
/// still holds every index below `n`.
proof fn lemma_perm_of_identity(id: Seq<usize>, s: Seq<usize>, n: usize)
    requires
        id.len() == n,
        forall|k: int| 0 <= k < n ==> id[k] == k,
        s.to_multiset() == id.to_multiset(),
        s.len() == n,
    ensures
        s.no_duplicates(),
        forall|k: int| 0 <= k < n ==> s[k] < n,
        forall|c: usize| c < n ==> s.contains(c),
{
    assert(id.no_duplicates());
    lemma_permutation_no_duplicates(id, s);
    assert forall|k: int| 0 <= k < n implies s[k] < n by {
        assert(s.contains(s[k]));
        assert(s.to_multiset().count(s[k]) > 0);
        assert(id.contains(s[k]));
        let j = choose|j: int| 0 <= j < id.len() && id[j] == s[k];
        assert(s[k] == j);
    }
    assert forall|c: usize| c < n implies s.contains(c) by {
        assert(id[c as int] == c);
        assert(id.contains(c));
        assert(id.to_multiset().count(c) > 0);
    }
}

/// Swapping the first two entries of a sequence keeps its multiset.
proof fn lemma_swap_first_two_multiset(s: Seq<usize>)
    requires
        s.len() >= 2,
    ensures
        s.update(0, s[1]).update(1, s[0]).to_multiset() == s.to_multiset(),
{
    let a = s[0];
    let b = s[1];
    let t = s.update(0, b).update(1, a);
    let tail = s.skip(2);
    assert(s =~= seq![a, b] + tail);
    assert(t =~= seq![b, a] + tail);
    lemma_multiset_commutative(seq![a, b], tail);
    lemma_multiset_commutative(seq![b, a], tail);
    assert(seq![a, b] =~= Seq::<usize>::empty().push(a).push(b));
    assert(seq![b, a] =~= Seq::<usize>::empty().push(b).push(a));
    assert(Seq::<usize>::empty().push(a).push(b).to_multiset() =~= Seq::<
        usize,
    >::empty().push(b).push(a).to_multiset());
}

// ---------------------------------------------------------------------------
// The clip order
// ---------------------------------------------------------------------------

/// The clip indices `0, 1, .., n-1` in order.
fn identity_order(n: usize) -> (r: Vec<usize>)
    ensures
        r@.len() == n,
        forall|k: int| 0 <= k < n ==> r@[k] == k,
{
    let mut r: Vec<usize> = Vec::new();
    let mut j: usize = 0;
    while j < n
        invariant
            j <= n,
            r@.len() == j,
            forall|k: int| 0 <= k < j ==> r@[k] == k,
        decreases n - j,
    {
        r.push(j);
        j = j + 1;
    }
    r
}

/// Reorders `video_part` at random so that it does not begin with
/// `last_val`. The retry of the rejected shuffles is bounded; if the bound
/// is spent, a deterministic swap of the first two entries settles it, so
/// the call always terminates — also for a single clip, where no order can
/// avoid the repeat and the constraint is waived.
#[verifier::loop_isolation(false)]
pub fn random_not_same_last_order(last_val: usize, video_part: Vec<usize>) -> (r: Vec<usize>)
    requires
        video_part@.len() >= 1,
    ensures
        r@.len() == video_part@.len(),
        r@.to_multiset() == video_part@.to_multiset(),
        video_part@.no_duplicates() ==> r@.no_duplicates(),
        video_part@.len() >= 2 && video_part@.no_duplicates() ==> r@[0] != last_val,
{
    let ghost orig = video_part@;
    let mut v = video_part;
    let mut tries: usize = 0;
    while tries < 16
        invariant
            v@.len() == orig.len(),
            v@.to_multiset() == orig.to_multiset(),
            orig.len() >= 1,
        decreases 16 - tries,
    {
        shuffle_clip_order(&mut v);
        if v[0] != last_val {
            proof {
                if orig.no_duplicates() {
                    lemma_permutation_no_duplicates(orig, v@);
                }
            }
            return v;
        }
        tries = tries + 1;
    }
    proof {
        if orig.no_duplicates() {
            lemma_permutation_no_duplicates(orig, v@);
        }
    }
    if v.len() >= 2 && v[0] == last_val {
        let a = v[0];
        let b = v[1];
        proof {
            lemma_swap_first_two_multiset(v@);
            if orig.no_duplicates() {
                assert(v@[0] != v@[1]);
            }
        }
        v.set(0, b);
        v.set(1, a);
        proof {
            if orig.no_duplicates() {
                lemma_permutation_no_duplicates(orig, v@);
            }
        }
    }
    v
}

/// Block `b` of a schedule over `n` clips: its `b`-th run of `n` entries,
/// the last one clipped to the schedule's end.
pub open spec fn scheduled_block(r: Seq<usize>, n: int, b: int) -> Seq<usize> {
    r.subrange(b * n, if (b + 1) * n <= r.len() { (b + 1) * n } else { r.len() as int })
}

proof fn lemma_subrange_no_duplicates(s: Seq<usize>, a: int, b: int)
    requires
        s.no_duplicates(),
        0 <= a <= b <= s.len(),
    ensures
        s.subrange(a, b).no_duplicates(),
{
    let t = s.subrange(a, b);
    assert forall|i: int, j: int|
        0 <= i < t.len() && 0 <= j < t.len() && i != j implies t[i] != t[j] by {
        assert(t[i] == s[a + i]);
        assert(t[j] == s[a + j]);
    }
}

/// Appending a fresh block leaves the earlier blocks as they were and makes
/// the new block the last one.
proof fn lemma_block_carries_over(pre: Seq<usize>, blk: Seq<usize>, nb: int, nv: int, b: int)
    requires
        nv >= 1,
        nb >= 1,
        0 <= b <= nb,
        pre.len() == nb * nv,
        blk.len() == nv,
    ensures
        b < nb ==> scheduled_block(pre + blk, nv, b) == scheduled_block(pre, nv, b),
        b == nb ==> scheduled_block(pre + blk, nv, b) == blk,
{
    let cat = pre + blk;
    assert((nb + 1) * nv == nb * nv + nv) by (nonlinear_arith);
    assert(0 <= b * nv && b * nv <= (b + 1) * nv) by (nonlinear_arith)
        requires
            b >= 0,
            nv >= 1,
    ;
    if b < nb {
        assert((b + 1) * nv <= nb * nv) by (nonlinear_arith)
            requires
                b + 1 <= nb,
                nv >= 1,
        ;
        assert(cat.subrange(b * nv, (b + 1) * nv) =~= pre.subrange(b * nv, (b + 1) * nv));
    } else {
        assert(b * nv == nb * nv);
        assert(cat.subrange(nb * nv, nb * nv + nv) =~= blk);
    }
}

/// Truncating the schedule keeps each surviving block a prefix of the full
/// block it came from: still duplicate-free, and unchanged if it survives
/// whole.
proof fn lemma_truncated_block(fullpo: Seq<usize>, nb: int, nv: int, ns: int, b: int)
    requires
        nv >= 1,
        nb >= 1,
        fullpo.len() == nb * nv,
        0 <= ns <= fullpo.len(),
        0 <= b,
        b * nv < ns,
        forall|x: int| 0 <= x < nb
            ==> (#[trigger] scheduled_block(fullpo, nv, x)).no_duplicates(),
    ensures
        scheduled_block(fullpo.subrange(0, ns), nv, b).no_duplicates(),
        (b + 1) * nv <= ns ==> scheduled_block(fullpo.subrange(0, ns), nv, b)
            == scheduled_block(fullpo, nv, b),
{
    assert(b < nb) by (nonlinear_arith)
        requires
            b * nv < ns,
            ns <= nb * nv,
            nv >= 1,
            b >= 0,
    ;
    assert((b + 1) * nv <= nb * nv) by (nonlinear_arith)
        requires
            b + 1 <= nb,
            nv >= 1,
    ;
    assert(0 <= b * nv && b * nv + nv == (b + 1) * nv) by (nonlinear_arith)
        requires
            b >= 0,
            nv >= 1,
    ;
    let full_block = scheduled_block(fullpo, nv, b);
    assert(full_block == fullpo.subrange(b * nv, (b + 1) * nv));
    let trunc = fullpo.subrange(0, ns);
    let end = if (b + 1) * nv <= ns { (b + 1) * nv } else { ns };
    assert(scheduled_block(trunc, nv, b) == trunc.subrange(b * nv, end));
    assert(trunc.subrange(b * nv, end) =~= full_block.subrange(0, end - b * nv));
    assert(full_block.no_duplicates());
    lemma_subrange_no_duplicates(full_block, 0, end - b * nv);
    if (b + 1) * nv <= ns {
        assert(full_block.subrange(0, end - b * nv) =~= full_block);
    }
}

/// Builds the clip order for `n_section` sections over `n_videos` clips:
/// a shuffled full block of every clip first, then further shuffled full
/// blocks whose first entry never repeats the previous block's last entry,
/// truncated to exactly `n_section` entries. With at least two clips no two
/// adjacent entries are ever equal, within or across blocks; with at least
/// as many sections as clips, every clip appears in the first full block.
#[verifier::loop_isolation(false)]
pub fn build_part_orders(n_videos: usize, n_section: usize) -> (r: Vec<usize>)
    requires
        n_videos >= 1,
    ensures
        r@.len() == n_section,
        forall|k: int| 0 <= k < n_section ==> r@[k] < n_videos,
        n_videos >= 2 ==> forall|k: int| 0 <= k < n_section - 1 ==> #[trigger] r@[k] != r@[k + 1],
        n_section >= n_videos ==> forall|c: usize| c < n_videos
            ==> r@.subrange(0, n_videos as int).contains(c),
        forall|b: int| 0 <= b && b * n_videos < n_section
            ==> (#[trigger] scheduled_block(r@, n_videos as int, b)).no_duplicates(),
        forall|b: int, c: usize| 0 <= b && (b + 1) * n_videos <= n_section && c < n_videos
            ==> #[trigger] scheduled_block(r@, n_videos as int, b).contains(c),
{
    let base = identity_order(n_videos);
    let ghost id = base@;
    let mut first = base;
    shuffle_clip_order(&mut first);
    proof {
        lemma_perm_of_identity(id, first@, n_videos);
    }
    let ghost head = first@;
    let mut po = first;
    let ghost mut nb: int = 1;
    proof {
        assert(scheduled_block(po@, n_videos as int, 0) =~= head);
    }
    while po.len() < n_section
        invariant
            n_videos >= 1,
            nb >= 1,
            po@.len() == nb * n_videos,
            forall|b: int| 0 <= b < nb
                ==> (#[trigger] scheduled_block(po@, n_videos as int, b)).no_duplicates(),
            forall|b: int, c: usize| 0 <= b < nb && c < n_videos
                ==> #[trigger] scheduled_block(po@, n_videos as int, b).contains(c),
            po@.len() >= n_videos,
            forall|k: int| 0 <= k < po@.len() ==> po@[k] < n_videos,
            n_videos >= 2 ==> forall|k: int| 0 <= k < po@.len() - 1 ==> #[trigger] po@[k] != po@[k + 1],
            po@.subrange(0, n_videos as int) == head,
        decreases n_section + n_videos - po@.len(),
    {
        let last_val = po[po.len() - 1];
        let fresh = identity_order(n_videos);
        proof {
            assert(fresh@ =~= id);
        }
        let block = random_not_same_last_order(last_val, fresh);
        proof {
            lemma_perm_of_identity(id, block@, n_videos);
        }
        let ghost pre = po@;
        let mut t: usize = 0;
        while t < block.len()
            invariant
                t <= block@.len(),
                block@.len() == n_videos >= 1,
                po@ == pre + block@.take(t as int),
                pre.len() >= n_videos,
                last_val == pre.last(),
                forall|k: int| 0 <= k < pre.len() ==> pre[k] < n_videos,
                forall|k: int| 0 <= k < block@.len() ==> block@[k] < n_videos,
                block@.no_duplicates(),
                n_videos >= 2 ==> block@[0] != last_val,
                n_videos >= 2 ==> forall|k: int| 0 <= k < pre.len() - 1 ==> #[trigger] pre[k] != pre[k + 1],
                n_videos >= 2 ==> forall|k: int| 0 <= k < po@.len() - 1 ==> #[trigger] po@[k] != po@[k + 1],
                pre.subrange(0, n_videos as int) == head,
            decreases block@.len() - t,
        {
            po.push(block[t]);
            proof {
                assert(po@ =~= pre + block@.take(t + 1));
            }
            t = t + 1;
        }
        proof {
            assert(block@.take(block@.len() as int) =~= block@);
            assert(po@.subrange(0, n_videos as int) =~= pre.subrange(0, n_videos as int));
            let nv = n_videos as int;
            assert((nb + 1) * nv == nb * nv + nv) by (nonlinear_arith);
            assert forall|b: int| 0 <= b < nb + 1 implies (#[trigger] scheduled_block(
                po@,
                nv,
                b,
            )).no_duplicates() by {
                lemma_block_carries_over(pre, block@, nb, nv, b);
                if b < nb {
                    assert(scheduled_block(pre, nv, b).no_duplicates());
                } else {
                    assert(block@.no_duplicates());
                }
            }
            assert forall|b: int, c: usize| 0 <= b < nb + 1 && c < n_videos implies
                #[trigger] scheduled_block(po@, nv, b).contains(c) by {
                lemma_block_carries_over(pre, block@, nb, nv, b);
                if b < nb {
                    assert(scheduled_block(pre, nv, b).contains(c));
                } else {
                    assert(block@.contains(c));
                }
            }
            nb = nb + 1;
        }
    }
    let ghost fullpo = po@;
    po.truncate(n_section);
    proof {
        let nv = n_videos as int;
        assert(po@ == fullpo.subrange(0, n_section as int));
        assert forall|b: int| 0 <= b && b * nv < n_section implies (#[trigger] scheduled_block(
            po@,
            nv,
            b,
        )).no_duplicates() by {
            lemma_truncated_block(fullpo, nb, nv, n_section as int, b);
        }
        assert forall|b: int, c: usize|
            0 <= b && (b + 1) * nv <= n_section && c < n_videos implies
            #[trigger] scheduled_block(po@, nv, b).contains(c) by {
            assert(b * nv < n_section) by (nonlinear_arith)
                requires
                    (b + 1) * nv <= n_section,
                    nv >= 1,
                    b >= 0,
            ;
            lemma_truncated_block(fullpo, nb, nv, n_section as int, b);
            assert(b < nb) by (nonlinear_arith)
                requires
                    b * nv < n_section,
                    n_section <= nb * nv,
                    nv >= 1,
                    b >= 0,
            ;
            assert(scheduled_block(po@, nv, b) =~= scheduled_block(fullpo, nv, b));
        }
    }
    proof {
        if n_section >= n_videos {
            assert(po@.subrange(0, n_videos as int) =~= head);
            assert forall|c: usize| c < n_videos implies po@.subrange(
                0,
                n_videos as int,
            ).contains(c) by {
                assert(head.contains(c));
            }
        }
    }
    po
}

// ---------------------------------------------------------------------------
// Per-clip usage counts
// ---------------------------------------------------------------------------

/// How many entries of `s` equal `v`.
pub open spec fn count_eq(s: Seq<usize>, v: int) -> int
    decreases s.len(),
{
    if s.len() == 0 {
        0
    } else {
        count_eq(s.drop_last(), v) + if s.last() == v {
            1int
        } else {
            0int
        }
    }
}

/// The counts over all clips below `n` together.
pub open spec fn total_assigned(s: Seq<usize>, n: int) -> int
    decreases n,
{
    if n <= 0 {
        0
    } else {
        total_assigned(s, n - 1) + count_eq(s, n - 1)
    }
}

proof fn lemma_count_eq_bounds(s: Seq<usize>, v: int)
    ensures
        0 <= count_eq(s, v) <= s.len(),
    decreases s.len(),
{
    if s.len() > 0 {
        lemma_count_eq_bounds(s.drop_last(), v);
    }
}

proof fn lemma_total_assigned_push(s: Seq<usize>, v: usize, n: int)
    ensures
        total_assigned(s.push(v), n) == total_assigned(s, n) + if (v as int) < n {
            1int
        } else {
            0int
        },
    decreases n,
{
    if n > 0 {
        lemma_total_assigned_push(s, v, n - 1);
        assert(s.push(v).drop_last() =~= s);
        assert(s.push(v).last() == v);
        assert(count_eq(s.push(v), n - 1) == count_eq(s, n - 1) + if v as int == n - 1 {
            1int
        } else {
            0int
        });
    }
}

proof fn lemma_total_assigned_empty(n: int)
    ensures
        total_assigned(Seq::<usize>::empty(), n) == 0,
    decreases n,
{
    if n > 0 {
        lemma_total_assigned_empty(n - 1);
    }
}

/// Scheduler coverage of the partitioner: when every scheduled entry names
/// a clip below `n`, the per-clip counts sum to exactly the number of
/// scheduled sections.
pub proof fn lemma_counts_cover_sections(s: Seq<usize>, n: usize)
    requires
        forall|k: int| 0 <= k < s.len() ==> s[k] < n,
    ensures
        total_assigned(s, n as int) == s.len(),
    decreases s.len(),
{
    if s.len() == 0 {
        assert(s =~= Seq::<usize>::empty());
        lemma_total_assigned_empty(n as int);
    } else {
        let s0 = s.drop_last();
        assert(forall|k: int| 0 <= k < s0.len() ==> s0[k] < n);
        lemma_counts_cover_sections(s0, n);
        lemma_total_assigned_push(s0, s.last(), n as int);
        assert(s.last() == s[s.len() - 1]);
        assert((s.last() as int) < n);
        assert(s0.push(s.last()) =~= s);
        assert(total_assigned(s0.push(s.last()), n as int) == total_assigned(s0, n as int) + 1);
        assert(total_assigned(s, n as int) == total_assigned(s0.push(s.last()), n as int));
    }
}

/// Counts how many sections each clip below `n_videos` was assigned.
#[verifier::loop_isolation(false)]
pub fn count_parts(part_orders: &Vec<usize>, n_videos: usize) -> (r: Vec<usize>)
    requires
        forall|k: int| 0 <= k < part_orders@.len() ==> part_orders@[k] < n_videos,
    ensures
        r@.len() == n_videos,
        forall|c: int| 0 <= c < n_videos ==> r@[c] == count_eq(part_orders@, c),
{
    let mut r: Vec<usize> = Vec::new();
    let mut j: usize = 0;
    while j < n_videos
        invariant
            j <= n_videos,
            r@.len() == j,
            forall|c: int| 0 <= c < j ==> r@[c] == 0,
        decreases n_videos - j,
    {
        r.push(0);
        j = j + 1;
    }
    let mut i: usize = 0;
    while i < part_orders.len()
        invariant
            i <= part_orders@.len(),
            r@.len() == n_videos,
            forall|k: int| 0 <= k < part_orders@.len() ==> part_orders@[k] < n_videos,
            forall|c: int| 0 <= c < n_videos
                ==> r@[c] == count_eq(part_orders@.take(i as int), c),
        decreases part_orders@.len() - i,
    {
        let x = part_orders[i];
        proof {
            lemma_count_eq_bounds(part_orders@.take(i as int), x as int);
            assert(part_orders@.take(i + 1).drop_last() =~= part_orders@.take(i as int));
            assert(part_orders@.take(i + 1).last() == part_orders@[i as int]);
        }
        let cur = r[x];
        r.set(x, cur + 1);
        proof {
            assert forall|c: int| 0 <= c < n_videos implies r@[c] == count_eq(
                part_orders@.take(i + 1),
                c,
            ) by {
                assert(part_orders@.take(i + 1).drop_last() =~= part_orders@.take(i as int));
            }
        }
        i = i + 1;
    }
    proof {
        assert(part_orders@.take(part_orders@.len() as int) =~= part_orders@);
    }
    r
}

} // verus!
