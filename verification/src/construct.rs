//! Euclidean rhythm distribution.
//!
//! The Bjorklund algorithm spreads `hits` pulses over `steps` slots as
//! evenly as it can; a rhythm may then be rotated to start elsewhere.

use vstd::prelude::*;

verus! {

/// Number of `true` entries.
pub open spec fn count_true(s: Seq<bool>) -> nat
    decreases s.len(),
{
    if s.len() == 0 {
        0
    } else {
        count_true(s.drop_last()) + if s.last() { 1nat } else { 0nat }
    }
}

/// Groups laid end to end.
pub open spec fn flatten(gs: Seq<Seq<bool>>) -> Seq<bool>
    decreases gs.len(),
{
    if gs.len() == 0 {
        Seq::empty()
    } else {
        flatten(gs.drop_last()) + gs.last()
    }
}

/// One round of the algorithm: each of the first `pairs` groups takes one of
/// the last `pairs` groups onto its end, in order; the groups in between
/// stay as they are.
pub open spec fn pair_up(gs: Seq<Seq<bool>>, pairs: int) -> Seq<Seq<bool>> {
    let n = gs.len() as int;
    Seq::new((n - pairs) as nat, |i: int| if i < pairs { gs[i] + gs[n - pairs + i] } else { gs[i] })
}

/// Rounds of pairing, starting from `count` leading groups and `remainder`
/// trailing ones, until at most one trailing group is left.
pub open spec fn pair_rounds(gs: Seq<Seq<bool>>, count: nat, remainder: nat) -> Seq<Seq<bool>>
    decreases count + remainder,
{
    if remainder > 1 && count >= 1 {
        let pairs = if count <= remainder { count } else { remainder };
        let next = if count >= remainder { (count - remainder) as nat } else { (remainder - count) as nat };
        pair_rounds(pair_up(gs, pairs as int), pairs, next)
    } else {
        gs
    }
}

/// `steps` one-slot groups: `hits` hits, then rests.
pub open spec fn start_groups(hits: nat, steps: nat) -> Seq<Seq<bool>> {
    Seq::new(steps, |i: int| seq![i < hits])
}

/// The Bjorklund rhythm of `hits` pulses over `steps` slots.
pub open spec fn bjorklund_spec(hits: nat, steps: nat) -> Seq<bool> {
    if hits == 0 {
        Seq::new(steps, |i: int| false)
    } else if hits >= steps {
        Seq::new(steps, |i: int| true)
    } else {
        flatten(pair_rounds(start_groups(hits, steps), hits, (steps - hits) as nat))
    }
}

/// `s` rotated left by `k`: it starts at index `k` and wraps round.
pub open spec fn rotate_left(s: Seq<bool>, k: int) -> Seq<bool> {
    s.subrange(k, s.len() as int) + s.subrange(0, k)
}

/// The slot pattern of a Euclidean rhythm: hits capped at the number of
/// steps, spread by Bjorklund, rotated left by `rotation` (taken modulo the
/// number of steps). No slots when there are no steps.
pub open spec fn euclidean_spec(hits: nat, steps: nat, rotation: nat) -> Seq<bool> {
    if steps == 0 {
        Seq::empty()
    } else {
        let h = if hits <= steps { hits } else { steps };
        rotate_left(bjorklund_spec(h, steps), (rotation % steps) as int)
    }
}

// ─── Counting lemmas ────────────────────────────────────────────────────────

proof fn lemma_count_true_concat(x: Seq<bool>, y: Seq<bool>)
    ensures
        count_true(x + y) == count_true(x) + count_true(y),
    decreases y.len(),
{
    if y.len() == 0 {
        assert(x + y =~= x);
    } else {
        lemma_count_true_concat(x, y.drop_last());
        assert((x + y).drop_last() =~= x + y.drop_last());
        assert((x + y).last() == y.last());
    }
}

proof fn lemma_count_true_const(n: nat, b: bool)
    ensures
        count_true(Seq::new(n, |i: int| b)) == if b { n } else { 0 },
    decreases n,
{
    if n > 0 {
        lemma_count_true_const((n - 1) as nat, b);
        assert(Seq::new(n, |i: int| b).drop_last() =~= Seq::new((n - 1) as nat, |i: int| b));
    }
}

/// What a group contributes: its hits, or its length.
pub open spec fn measure(g: Seq<bool>, hits_only: bool) -> int {
    if hits_only { count_true(g) as int } else { g.len() as int }
}

/// Sum of the measures of the groups.
pub open spec fn total(gs: Seq<Seq<bool>>, hits_only: bool) -> int
    decreases gs.len(),
{
    if gs.len() == 0 {
        0
    } else {
        total(gs.drop_last(), hits_only) + measure(gs.last(), hits_only)
    }
}

proof fn lemma_measure_concat(x: Seq<bool>, y: Seq<bool>, h: bool)
    ensures
        measure(x + y, h) == measure(x, h) + measure(y, h),
{
    lemma_count_true_concat(x, y);
}

proof fn lemma_total_flatten(gs: Seq<Seq<bool>>, h: bool)
    ensures
        total(gs, h) == measure(flatten(gs), h),
    decreases gs.len(),
{
    if gs.len() > 0 {
        lemma_total_flatten(gs.drop_last(), h);
        lemma_measure_concat(flatten(gs.drop_last()), gs.last(), h);
    } else {
        assert(flatten(gs) =~= Seq::<bool>::empty());
    }
}

proof fn lemma_total_concat(x: Seq<Seq<bool>>, y: Seq<Seq<bool>>, h: bool)
    ensures
        total(x + y, h) == total(x, h) + total(y, h),
    decreases y.len(),
{
    if y.len() == 0 {
        assert(x + y =~= x);
    } else {
        lemma_total_concat(x, y.drop_last(), h);
        assert((x + y).drop_last() =~= x + y.drop_last());
        assert((x + y).last() == y.last());
    }
}

proof fn lemma_total_zip(a: Seq<Seq<bool>>, b: Seq<Seq<bool>>, h: bool)
    requires
        a.len() == b.len(),
    ensures
        total(Seq::new(a.len(), |i: int| a[i] + b[i]), h) == total(a, h) + total(b, h),
    decreases a.len(),
{
    let z = Seq::new(a.len(), |i: int| a[i] + b[i]);
    if a.len() > 0 {
        let a1 = a.drop_last();
        let b1 = b.drop_last();
        lemma_total_zip(a1, b1, h);
        assert(z.drop_last() =~= Seq::new(a1.len(), |i: int| a1[i] + b1[i]));
        lemma_measure_concat(a.last(), b.last(), h);
    }
}

proof fn lemma_total_pair_up(gs: Seq<Seq<bool>>, p: int, h: bool)
    requires
        0 <= p,
        2 * p <= gs.len(),
    ensures
        total(pair_up(gs, p), h) == total(gs, h),
{
    let n = gs.len() as int;
    let a = gs.subrange(0, p);
    let m = gs.subrange(p, n - p);
    let b = gs.subrange(n - p, n);
    let z = Seq::new(a.len(), |i: int| a[i] + b[i]);
    assert(gs =~= a + m + b);
    assert(pair_up(gs, p) =~= z + m);
    lemma_total_zip(a, b, h);
    lemma_total_concat(z, m, h);
    lemma_total_concat(a + m, b, h);
    lemma_total_concat(a, m, h);
}

proof fn lemma_total_rounds(gs: Seq<Seq<bool>>, count: nat, remainder: nat, h: bool)
    requires
        gs.len() == count + remainder,
    ensures
        total(pair_rounds(gs, count, remainder), h) == total(gs, h),
    decreases count + remainder,
{
    if remainder > 1 && count >= 1 {
        let pairs = if count <= remainder { count } else { remainder };
        let next = if count >= remainder { (count - remainder) as nat } else { (remainder - count) as nat };
        lemma_total_pair_up(gs, pairs as int, h);
        lemma_total_rounds(pair_up(gs, pairs as int), pairs, next, h);
    }
}

proof fn lemma_total_start(hits: nat, steps: nat, h: bool)
    requires
        hits <= steps,
    ensures
        total(start_groups(hits, steps), h) == if h { hits as int } else { steps as int },
    decreases steps,
{
    let gs = start_groups(hits, steps);
    if steps > 0 {
        if hits == steps {
            lemma_total_start((hits - 1) as nat, (steps - 1) as nat, h);
            assert(gs.drop_last() =~= start_groups((hits - 1) as nat, (steps - 1) as nat));
        } else {
            lemma_total_start(hits, (steps - 1) as nat, h);
            assert(gs.drop_last() =~= start_groups(hits, (steps - 1) as nat));
        }
        let g = gs.last();
        assert(g.drop_last() =~= Seq::<bool>::empty());
        assert(count_true(g.drop_last()) == 0);
        assert(g.last() == ((steps - 1) < hits));
        assert(count_true(g) == if (steps - 1) < hits { 1nat } else { 0nat });
        assert(g.len() == 1);
    }
}

/// The Bjorklund rhythm has `steps` slots, of which `min(hits, steps)` are
/// hits.
pub proof fn law_bjorklund_counts(hits: nat, steps: nat)
    ensures
        bjorklund_spec(hits, steps).len() == steps,
        count_true(bjorklund_spec(hits, steps)) == if hits <= steps { hits } else { steps },
{
    if hits == 0 {
        lemma_count_true_const(steps, false);
    } else if hits >= steps {
        lemma_count_true_const(steps, true);
    } else {
        let gs = start_groups(hits, steps);
        let fin = pair_rounds(gs, hits, (steps - hits) as nat);
        lemma_total_rounds(gs, hits, (steps - hits) as nat, false);
        lemma_total_rounds(gs, hits, (steps - hits) as nat, true);
        lemma_total_start(hits, steps, false);
        lemma_total_start(hits, steps, true);
        lemma_total_flatten(fin, false);
        lemma_total_flatten(fin, true);
    }
}

/// Rotation keeps the number of slots and of hits.
pub proof fn law_rotation_keeps_hits(s: Seq<bool>, k: int)
    requires
        0 <= k <= s.len(),
    ensures
        rotate_left(s, k).len() == s.len(),
        count_true(rotate_left(s, k)) == count_true(s),
{
    lemma_count_true_concat(s.subrange(k, s.len() as int), s.subrange(0, k));
    lemma_count_true_concat(s.subrange(0, k), s.subrange(k, s.len() as int));
    assert(s =~= s.subrange(0, k) + s.subrange(k, s.len() as int));
}

/// A Euclidean rhythm has `steps` slots and `min(hits, steps)` hits,
/// whatever the rotation.
pub proof fn law_euclidean_counts(hits: nat, steps: nat, rotation: nat)
    ensures
        euclidean_spec(hits, steps, rotation).len() == steps,
        count_true(euclidean_spec(hits, steps, rotation)) == if hits <= steps { hits } else { steps },
{
    if steps > 0 {
        let h = if hits <= steps { hits } else { steps };
        law_bjorklund_counts(h, steps);
        law_rotation_keeps_hits(bjorklund_spec(h, steps), (rotation % steps) as int);
    } else {
        assert(count_true(Seq::<bool>::empty()) == 0);
    }
}

// ─── Evenness ───────────────────────────────────────────────────────────────

/// Lengths of the runs of rests after each hit, in order; rests before the
/// first hit are not counted.
pub open spec fn gaps(w: Seq<bool>) -> Seq<nat>
    decreases w.len(),
{
    if w.len() == 0 {
        Seq::empty()
    } else {
        let g = gaps(w.drop_last());
        if w.last() {
            g.push(0nat)
        } else if g.len() == 0 {
            g
        } else {
            g.update(g.len() - 1, g.last() + 1)
        }
    }
}

/// Every entry of `s` is `g` or `g + 1`.
pub open spec fn within_two(s: Seq<nat>, g: nat) -> bool {
    forall|i: int| 0 <= i < s.len() ==> #[trigger] s[i] == g || s[i] == g + 1
}

/// A hit followed by rests only.
pub open spec fn hit_then_rests(a: Seq<bool>) -> bool {
    &&& a.len() >= 1
    &&& a[0]
    &&& forall|i: int| 1 <= i < a.len() ==> !#[trigger] a[i]
}

/// `c` copies of `a` followed by `r` copies of `b`.
pub open spec fn blocks(a: Seq<bool>, c: nat, b: Seq<bool>, r: nat) -> Seq<Seq<bool>> {
    Seq::new(c + r, |i: int| if i < c { a } else { b })
}

proof fn lemma_gaps_nonempty(w: Seq<bool>)
    requires
        w.len() > 0,
        w[0],
    ensures
        gaps(w).len() > 0,
    decreases w.len(),
{
    if w.len() > 1 {
        lemma_gaps_nonempty(w.drop_last());
    }
}

/// Gaps of a word are those of its parts when the second part starts with a
/// hit.
proof fn lemma_gaps_concat(x: Seq<bool>, y: Seq<bool>)
    requires
        y.len() > 0,
        y[0],
    ensures
        gaps(x + y) == gaps(x) + gaps(y),
    decreases y.len(),
{
    if y.len() == 1 {
        assert((x + y).drop_last() =~= x);
        assert(y.drop_last() =~= Seq::<bool>::empty());
        assert(gaps(y.drop_last()) =~= Seq::<nat>::empty());
        assert(gaps(x + y) =~= gaps(x) + gaps(y));
    } else {
        let y1 = y.drop_last();
        lemma_gaps_concat(x, y1);
        lemma_gaps_nonempty(y1);
        assert((x + y).drop_last() =~= x + y1);
        assert((x + y).last() == y.last());
        let q = gaps(y1);
        let gx = gaps(x);
        if !y.last() {
            assert((gx + q).update((gx + q).len() - 1, (gx + q).last() + 1) =~= gx + q.update(q.len() - 1, q.last() + 1));
        } else {
            assert((gx + q).push(0nat) =~= gx + q.push(0nat));
        }
    }
}

/// A word starting with a hit has one gap per hit.
proof fn lemma_gaps_count(w: Seq<bool>)
    requires
        w.len() > 0,
        w[0],
    ensures
        gaps(w).len() == count_true(w),
    decreases w.len(),
{
    if w.len() == 1 {
        assert(w.drop_last() =~= Seq::<bool>::empty());
        assert(count_true(w.drop_last()) == 0);
        assert(gaps(w.drop_last()).len() == 0);
        assert(w.last() == w[0]);
    } else {
        lemma_gaps_count(w.drop_last());
        lemma_gaps_nonempty(w.drop_last());
        assert(w.drop_last()[0] == w[0]);
    }
}

/// A hit followed by `k` rests has the single gap `k`.
proof fn lemma_gaps_hit_then_rests(a: Seq<bool>)
    requires
        hit_then_rests(a),
    ensures
        gaps(a) == seq![(a.len() - 1) as nat],
    decreases a.len(),
{
    if a.len() == 1 {
        assert(a.drop_last() =~= Seq::<bool>::empty());
        assert(gaps(a.drop_last()).len() == 0);
        assert(a.last() == a[0]);
        assert(gaps(a) =~= seq![0nat]);
    } else {
        let a1 = a.drop_last();
        assert(hit_then_rests(a1)) by {
            assert forall|i: int| 1 <= i < a1.len() implies !#[trigger] a1[i] by {
                assert(a1[i] == a[i]);
            }
        }
        lemma_gaps_hit_then_rests(a1);
        assert(!a[a.len() - 1]);
        assert(gaps(a) =~= seq![(a.len() - 1) as nat]);
    }
}

/// Laying groups that each start with a hit and have gaps `g` or `g + 1`
/// end to end gives a word of the same kind.
proof fn lemma_flatten_even(gs: Seq<Seq<bool>>, g: nat)
    requires
        forall|i: int| 0 <= i < gs.len() ==> (#[trigger] gs[i]).len() > 0 && gs[i][0] && within_two(gaps(gs[i]), g),
    ensures
        within_two(gaps(flatten(gs)), g),
        gs.len() > 0 ==> flatten(gs).len() > 0 && flatten(gs)[0],
    decreases gs.len(),
{
    if gs.len() > 0 {
        let pre = gs.drop_last();
        assert forall|i: int| 0 <= i < pre.len() implies (#[trigger] pre[i]).len() > 0 && pre[i][0] && within_two(gaps(pre[i]), g) by {
            assert(pre[i] == gs[i]);
        }
        lemma_flatten_even(pre, g);
        let last = gs[gs.len() - 1];
        lemma_gaps_concat(flatten(pre), last);
        let all = gaps(flatten(pre)) + gaps(last);
        assert forall|i: int| 0 <= i < all.len() implies #[trigger] all[i] == g || all[i] == g + 1 by {
            if i < gaps(flatten(pre)).len() {
                assert(all[i] == gaps(flatten(pre))[i]);
            } else {
                assert(all[i] == gaps(last)[i - gaps(flatten(pre)).len()]);
            }
        }
        if pre.len() > 0 {
            assert(flatten(gs)[0] == flatten(pre)[0]);
        } else {
            assert(flatten(pre) =~= Seq::<bool>::empty());
            assert(flatten(gs) =~= last);
        }
    }
}

/// One round of pairing on `c` copies of `a` and `r` copies of `b`.
proof fn lemma_pair_up_blocks(a: Seq<bool>, c: nat, b: Seq<bool>, r: nat)
    ensures
        c <= r ==> pair_up(blocks(a, c, b, r), c as int) == blocks(a + b, c, b, (r - c) as nat),
        c > r ==> pair_up(blocks(a, c, b, r), r as int) == blocks(a + b, r, a, (c - r) as nat),
{
    if c <= r {
        assert(pair_up(blocks(a, c, b, r), c as int) =~= blocks(a + b, c, b, (r - c) as nat));
    } else {
        assert(pair_up(blocks(a, c, b, r), r as int) =~= blocks(a + b, r, a, (c - r) as nat));
    }
}

/// Rounds from groups that all start with a hit and have gaps `g` or
/// `g + 1` end in a word of the same kind.
proof fn lemma_rounds_even_two(a: Seq<bool>, b: Seq<bool>, c: nat, r: nat, g: nat)
    requires
        c >= 1,
        a.len() > 0 && a[0] && within_two(gaps(a), g),
        b.len() > 0 && b[0] && within_two(gaps(b), g),
    ensures
        within_two(gaps(flatten(pair_rounds(blocks(a, c, b, r), c, r))), g),
        flatten(pair_rounds(blocks(a, c, b, r), c, r)).len() > 0,
        flatten(pair_rounds(blocks(a, c, b, r), c, r))[0],
    decreases c + r,
{
    if r > 1 {
        lemma_pair_up_blocks(a, c, b, r);
        lemma_gaps_concat(a, b);
        let ab = a + b;
        assert(within_two(gaps(ab), g)) by {
            assert forall|i: int| 0 <= i < gaps(ab).len() implies #[trigger] gaps(ab)[i] == g || gaps(ab)[i] == g + 1 by {
                if i < gaps(a).len() {
                    assert(gaps(ab)[i] == gaps(a)[i]);
                } else {
                    assert(gaps(ab)[i] == gaps(b)[i - gaps(a).len()]);
                }
            }
        }
        assert(ab[0] == a[0]);
        if c <= r {
            lemma_rounds_even_two(ab, b, c, (r - c) as nat, g);
        } else {
            lemma_rounds_even_two(ab, a, r, (c - r) as nat, g);
        }
    } else {
        let gs = blocks(a, c, b, r);
        lemma_flatten_even(gs, g);
    }
}

/// Rounds from `c` copies of a hit followed by rests and `r` lone rests end
/// in a word starting with a hit whose gaps take two neighbouring values.
#[verifier::spinoff_prover]
#[verifier::rlimit(30)]
proof fn lemma_rounds_even_one(a: Seq<bool>, c: nat, r: nat)
    requires
        c >= 1,
        hit_then_rests(a),
    ensures
        ({
            let w = flatten(pair_rounds(blocks(a, c, seq![false], r), c, r));
            &&& w.len() > 0
            &&& w[0]
            &&& exists|g: nat| within_two(gaps(w), g)
        }),
    decreases c + r,
{
    let b = seq![false];
    let k = (a.len() - 1) as nat;
    lemma_gaps_hit_then_rests(a);
    if r > 1 {
        lemma_pair_up_blocks(a, c, b, r);
        let ab = a + b;
        assert(hit_then_rests(ab)) by {
            assert forall|i: int| 1 <= i < ab.len() implies !#[trigger] ab[i] by {
                if i < a.len() {
                    assert(ab[i] == a[i]);
                }
            }
        }
        if c <= r {
            lemma_rounds_even_one(ab, c, (r - c) as nat);
        } else {
            lemma_gaps_hit_then_rests(ab);
            assert(ab.len() - 1 == k + 1);
            assert(within_two(gaps(ab), k));
            assert(within_two(gaps(a), k));
            lemma_rounds_even_two(ab, a, r, (c - r) as nat, k);
        }
    } else {
        let w = flatten(pair_rounds(blocks(a, c, b, r), c, r));
        let front = blocks(a, c, b, 0);
        lemma_flatten_copies(a, c, k);
        let gf = gaps(flatten(front));
        if r == 0 {
            assert(blocks(a, c, b, r) =~= front);
            assert(within_two(gaps(w), k));
        } else {
            assert(blocks(a, c, b, r).drop_last() =~= front);
            assert(blocks(a, c, b, r).last() == b);
            assert(w =~= flatten(front) + b);
            assert(w.drop_last() =~= flatten(front));
            assert(gaps(w) == gf.update(gf.len() - 1, gf.last() + 1));
            assert(within_two(gaps(w), k));
        }
        assert(exists|g: nat| within_two(gaps(w), g));
    }
}

/// Gaps of `c` copies of a hit followed by `k` rests: `c` times `k`.
proof fn lemma_flatten_copies(a: Seq<bool>, c: nat, k: nat)
    requires
        c >= 1,
        hit_then_rests(a),
        a.len() == k + 1,
    ensures
        gaps(flatten(blocks(a, c, seq![false], 0))) == Seq::new(c, |i: int| k),
        flatten(blocks(a, c, seq![false], 0)).len() > 0,
        flatten(blocks(a, c, seq![false], 0))[0],
    decreases c,
{
    let gs = blocks(a, c, seq![false], 0);
    lemma_gaps_hit_then_rests(a);
    if c == 1 {
        assert(gs.drop_last() =~= Seq::<Seq<bool>>::empty());
        assert(flatten(gs.drop_last()) =~= Seq::<bool>::empty());
        assert(flatten(gs) =~= a);
        assert(gaps(a) =~= Seq::new(c, |i: int| k));
    } else {
        lemma_flatten_copies(a, (c - 1) as nat, k);
        assert(gs.drop_last() =~= blocks(a, (c - 1) as nat, seq![false], 0));
        lemma_gaps_concat(flatten(gs.drop_last()), a);
        assert(gaps(flatten(gs)) =~= Seq::new(c, |i: int| k));
        assert(flatten(gs)[0] == flatten(gs.drop_last())[0]);
    }
}

/// The hits of a Bjorklund rhythm are spread as evenly as possible: when
/// there is a hit, the rhythm starts with one, and the runs of rests after
/// the hits (the last one running to the end of the cycle) come in at most
/// two lengths, one apart.
pub proof fn law_bjorklund_even(hits: nat, steps: nat)
    requires
        0 < hits,
        0 < steps,
    ensures
        bjorklund_spec(hits, steps)[0],
        gaps(bjorklund_spec(hits, steps)).len() == if hits <= steps { hits } else { steps },
        exists|g: nat| within_two(gaps(bjorklund_spec(hits, steps)), g),
{
    let w = bjorklund_spec(hits, steps);
    law_bjorklund_counts(hits, steps);
    if hits >= steps {
        lemma_gaps_all_hits(steps);
        assert(within_two(gaps(w), 0));
    } else {
        let start = start_groups(hits, steps);
        assert(start =~= blocks(seq![true], hits, seq![false], (steps - hits) as nat));
        assert(hit_then_rests(seq![true]));
        lemma_rounds_even_one(seq![true], hits, (steps - hits) as nat);
    }
    lemma_gaps_count(w);
}

proof fn lemma_gaps_all_hits(n: nat)
    requires
        n > 0,
    ensures
        gaps(Seq::new(n, |i: int| true)) == Seq::new(n, |i: int| 0nat),
    decreases n,
{
    let w = Seq::new(n, |i: int| true);
    assert(w.last());
    if n == 1 {
        assert(w.drop_last() =~= Seq::<bool>::empty());
        assert(gaps(w.drop_last()).len() == 0);
        assert(gaps(w) =~= Seq::new(n, |i: int| 0nat));
    } else {
        lemma_gaps_all_hits((n - 1) as nat);
        assert(w.drop_last() =~= Seq::new((n - 1) as nat, |i: int| true));
        assert(gaps(w) =~= Seq::new(n, |i: int| 0nat));
    }
}

// ─── Executable ─────────────────────────────────────────────────────────────

/// The contents of each group.
pub open spec fn group_views(gs: Seq<Vec<bool>>) -> Seq<Seq<bool>> {
    gs.map_values(|g: Vec<bool>| g@)
}

fn filled(n: usize, b: bool) -> (r: Vec<bool>)
    ensures
        r@ == Seq::new(n as nat, |i: int| b),
{
    let mut r: Vec<bool> = Vec::new();
    let mut i: usize = 0;
    while i < n
        invariant
            0 <= i <= n,
            r@ =~= Seq::new(i as nat, |k: int| b),
        decreases n - i,
    {
        r.push(b);
        i += 1;
    }
    r
}

/// `a` followed by `b`.
fn joined(a: &Vec<bool>, b: &Vec<bool>) -> (r: Vec<bool>)
    ensures
        r@ == a@ + b@,
{
    let mut r: Vec<bool> = Vec::new();
    let mut i: usize = 0;
    while i < a.len()
        invariant
            0 <= i <= a.len(),
            r@ =~= a@.take(i as int),
        decreases a.len() - i,
    {
        r.push(a[i]);
        i += 1;
    }
    let mut j: usize = 0;
    while j < b.len()
        invariant
            0 <= j <= b.len(),
            r@ =~= a@ + b@.take(j as int),
        decreases b.len() - j,
    {
        r.push(b[j]);
        j += 1;
    }
    r
}

/// Bjorklund algorithm: distributes `hits` across `steps` as evenly as
/// possible. Returns `steps` slots, `min(hits, steps)` of them hits.
pub fn bjorklund(hits: usize, steps: usize) -> (r: Vec<bool>)
    ensures
        r@ == bjorklund_spec(hits as nat, steps as nat),
        r.len() == steps,
        count_true(r@) == if hits <= steps { hits } else { steps },
        hits > 0 && steps > 0 ==> r@[0] && exists|g: nat| within_two(gaps(r@), g),
{
    proof {
        law_bjorklund_counts(hits as nat, steps as nat);
        if hits > 0 && steps > 0 {
            law_bjorklund_even(hits as nat, steps as nat);
        }
    }
    if hits == 0 {
        return filled(steps, false);
    }
    if hits >= steps {
        return filled(steps, true);
    }
    let ghost start = start_groups(hits as nat, steps as nat);
    let mut groups: Vec<Vec<bool>> = Vec::new();
    let mut i: usize = 0;
    while i < steps
        invariant
            0 < hits < steps,
            start == start_groups(hits as nat, steps as nat),
            0 <= i <= steps,
            groups.len() == i,
            forall|k: int| 0 <= k < i ==> (#[trigger] groups@[k])@ == start[k],
        decreases steps - i,
    {
        let mut g: Vec<bool> = Vec::new();
        g.push(i < hits);
        assert(g@ =~= seq![i < hits]);
        groups.push(g);
        i += 1;
    }
    assert(group_views(groups@) =~= start);
    let mut count: usize = hits;
    let mut remainder: usize = steps - hits;
    while remainder > 1
        invariant
            count >= 1,
            groups.len() == count + remainder,
            pair_rounds(group_views(groups@), count as nat, remainder as nat)
                == pair_rounds(start, hits as nat, (steps - hits) as nat),
        decreases count + remainder,
    {
        let pairs = if count <= remainder { count } else { remainder };
        let n = groups.len();
        let ghost old_view = group_views(groups@);
        let mut new_groups: Vec<Vec<bool>> = Vec::new();
        let mut j: usize = 0;
        while j < pairs
            invariant
                pairs <= count,
                pairs <= remainder,
                n == groups.len(),
                n == count + remainder,
                old_view == group_views(groups@),
                0 <= j <= pairs,
                new_groups.len() == j,
                forall|k: int| 0 <= k < j ==> (#[trigger] new_groups@[k])@ == pair_up(old_view, pairs as int)[k],
            decreases pairs - j,
        {
            let merged = joined(&groups[j], &groups[n - pairs + j]);
            new_groups.push(merged);
            j += 1;
        }
        let mut j2: usize = pairs;
        while j2 < n - pairs
            invariant
                pairs <= count,
                pairs <= remainder,
                n == groups.len(),
                n == count + remainder,
                old_view == group_views(groups@),
                pairs <= j2 <= n - pairs,
                new_groups.len() == j2,
                forall|k: int| 0 <= k < j2 ==> (#[trigger] new_groups@[k])@ == pair_up(old_view, pairs as int)[k],
            decreases n - pairs - j2,
        {
            let copy = joined(&groups[j2], &Vec::new());
            assert(copy@ =~= groups@[j2 as int]@);
            new_groups.push(copy);
            j2 += 1;
        }
        assert(group_views(new_groups@) =~= pair_up(old_view, pairs as int));
        groups = new_groups;
        let new_remainder = if count >= remainder { count - remainder } else { remainder - count };
        count = pairs;
        remainder = new_remainder;
    }
    let ghost fin = group_views(groups@);
    let mut out: Vec<bool> = Vec::new();
    let mut k: usize = 0;
    while k < groups.len()
        invariant
            fin == group_views(groups@),
            0 <= k <= groups.len(),
            out@ == flatten(fin.take(k as int)),
        decreases groups.len() - k,
    {
        let ghost before = out@;
        let mut m: usize = 0;
        while m < groups[k].len()
            invariant
                k < groups.len(),
                0 <= m <= groups@[k as int].len(),
                out@ =~= before + groups@[k as int]@.take(m as int),
            decreases groups@[k as int].len() - m,
        {
            out.push(groups[k][m]);
            m += 1;
        }
        proof {
            assert(fin.take(k + 1).drop_last() =~= fin.take(k as int));
            assert(fin.take(k + 1).last() == groups@[k as int]@);
            assert(groups@[k as int]@.take(groups@[k as int]@.len() as int) =~= groups@[k as int]@);
        }
        k += 1;
    }
    proof {
        assert(fin.take(groups.len() as int) =~= fin);
    }
    out
}

/// The slots of a Euclidean rhythm: hits capped at `steps`, spread by
/// Bjorklund, then rotated left by `rotation` modulo `steps`. `euclidean`
/// is this with no rotation.
pub fn euclidean_rotated(hits: usize, steps: usize, rotation: usize) -> (r: Vec<bool>)
    ensures
        r@ == euclidean_spec(hits as nat, steps as nat, rotation as nat),
        r.len() == steps,
        count_true(r@) == if hits <= steps { hits } else { steps },
{
    proof {
        law_euclidean_counts(hits as nat, steps as nat, rotation as nat);
    }
    if steps == 0 {
        return Vec::new();
    }
    let h = if hits <= steps { hits } else { steps };
    let bools = bjorklund(h, steps);
    let rot = rotation % steps;
    let mut r: Vec<bool> = Vec::new();
    let mut i: usize = rot;
    while i < steps
        invariant
            bools.len() == steps,
            rot <= i <= steps,
            r@ =~= bools@.subrange(rot as int, i as int),
        decreases steps - i,
    {
        r.push(bools[i]);
        i += 1;
    }
    let mut j: usize = 0;
    while j < rot
        invariant
            bools.len() == steps,
            rot < steps,
            0 <= j <= rot,
            r@ =~= bools@.subrange(rot as int, steps as int) + bools@.subrange(0, j as int),
        decreases rot - j,
    {
        r.push(bools[j]);
        j += 1;
    }
    r
}


/// Intervals of a chord stacked from one interval: `0, step, 2·step, …`,
/// `count` of them, each kept to its low byte as a `u8` conversion does.
pub fn stacked_intervals(step: usize, count: usize) -> (r: Vec<u8>)
    requires
        count == 0 || (count - 1) * step <= usize::MAX,
    ensures
        r.len() == count,
        forall|i: int| 0 <= i < count ==> #[trigger] r@[i] == (i * step) % 256,
{
    let mut r: Vec<u8> = Vec::new();
    let mut i: usize = 0;
    while i < count
        invariant
            count == 0 || (count - 1) * step <= usize::MAX,
            0 <= i <= count,
            r.len() == i,
            forall|k: int| 0 <= k < i ==> #[trigger] r@[k] == (k * step) % 256,
        decreases count - i,
    {
        assert(i * step <= (count - 1) * step) by (nonlinear_arith)
            requires
                i < count,
        ;
        let v: usize = i * step;
        r.push((v % 256) as u8);
        i += 1;
    }
    r
}


// ─── Euclid's recursion ─────────────────────────────────────────────────────

/// `w` with each hit replaced by `on_hit` and each rest by `on_rest`.
pub open spec fn substitute(w: Seq<bool>, on_hit: Seq<bool>, on_rest: Seq<bool>) -> Seq<bool>
    decreases w.len(),
{
    if w.len() == 0 {
        Seq::empty()
    } else {
        substitute(w.drop_last(), on_hit, on_rest) + if w.last() { on_hit } else { on_rest }
    }
}

/// Each group substituted.
pub open spec fn substitute_groups(gs: Seq<Seq<bool>>, on_hit: Seq<bool>, on_rest: Seq<bool>) -> Seq<Seq<bool>> {
    Seq::new(gs.len(), |i: int| substitute(gs[i], on_hit, on_rest))
}

proof fn lemma_substitute_concat(x: Seq<bool>, y: Seq<bool>, h: Seq<bool>, r: Seq<bool>)
    ensures
        substitute(x + y, h, r) == substitute(x, h, r) + substitute(y, h, r),
    decreases y.len(),
{
    if y.len() == 0 {
        assert(x + y =~= x);
        assert(substitute(x, h, r) + substitute(y, h, r) =~= substitute(x, h, r));
    } else {
        lemma_substitute_concat(x, y.drop_last(), h, r);
        assert((x + y).drop_last() =~= x + y.drop_last());
        assert((x + y).last() == y.last());
        let t = if y.last() { h } else { r };
        assert(substitute(x, h, r) + substitute(y.drop_last(), h, r) + t
            =~= substitute(x, h, r) + (substitute(y.drop_last(), h, r) + t));
    }
}

proof fn lemma_substitute_pair_up(gs: Seq<Seq<bool>>, p: int, h: Seq<bool>, r: Seq<bool>)
    requires
        0 <= p,
        2 * p <= gs.len(),
    ensures
        pair_up(substitute_groups(gs, h, r), p) == substitute_groups(pair_up(gs, p), h, r),
{
    let n = gs.len() as int;
    assert forall|i: int| 0 <= i < p implies
        #[trigger] substitute(gs[i] + gs[n - p + i], h, r) == substitute(gs[i], h, r) + substitute(gs[n - p + i], h, r) by {
        lemma_substitute_concat(gs[i], gs[n - p + i], h, r);
    }
    assert(pair_up(substitute_groups(gs, h, r), p) =~= substitute_groups(pair_up(gs, p), h, r));
}

proof fn lemma_substitute_rounds(gs: Seq<Seq<bool>>, c: nat, rem: nat, h: Seq<bool>, r: Seq<bool>)
    requires
        gs.len() == c + rem,
    ensures
        pair_rounds(substitute_groups(gs, h, r), c, rem) == substitute_groups(pair_rounds(gs, c, rem), h, r),
    decreases c + rem,
{
    if rem > 1 && c >= 1 {
        let pairs = if c <= rem { c } else { rem };
        let next = if c >= rem { (c - rem) as nat } else { (rem - c) as nat };
        lemma_substitute_pair_up(gs, pairs as int, h, r);
        lemma_substitute_rounds(pair_up(gs, pairs as int), pairs, next, h, r);
    }
}

proof fn lemma_substitute_flatten(gs: Seq<Seq<bool>>, h: Seq<bool>, r: Seq<bool>)
    ensures
        flatten(substitute_groups(gs, h, r)) == substitute(flatten(gs), h, r),
    decreases gs.len(),
{
    if gs.len() == 0 {
        assert(flatten(gs) =~= Seq::<bool>::empty());
        assert(substitute_groups(gs, h, r) =~= Seq::<Seq<bool>>::empty());
    } else {
        lemma_substitute_flatten(gs.drop_last(), h, r);
        assert(substitute_groups(gs, h, r).drop_last() =~= substitute_groups(gs.drop_last(), h, r));
        lemma_substitute_concat(flatten(gs.drop_last()), gs.last(), h, r);
    }
}

proof fn lemma_substitute_one(b: bool, h: Seq<bool>, r: Seq<bool>)
    ensures
        substitute(seq![b], h, r) == if b { h } else { r },
{
    let one = seq![b];
    assert(one.drop_last() =~= Seq::<bool>::empty());
    assert(one.last() == b);
    assert(substitute(Seq::<bool>::empty(), h, r) == Seq::<bool>::empty());
    assert(substitute(one.drop_last(), h, r) == Seq::<bool>::empty());
    assert(Seq::<bool>::empty() + (if b { h } else { r }) =~= if b { h } else { r });
}

/// One-slot groups laid end to end: the hits, then the rests.
proof fn lemma_flatten_start(hits: nat, steps: nat)
    ensures
        flatten(start_groups(hits, steps)) == Seq::new(steps, |i: int| i < hits),
    decreases steps,
{
    if steps > 0 {
        lemma_flatten_start(hits, (steps - 1) as nat);
        assert(start_groups(hits, steps).drop_last() =~= start_groups(hits, (steps - 1) as nat));
        assert(Seq::new((steps - 1) as nat, |i: int| i < hits) + seq![(steps - 1) < hits]
            =~= Seq::new(steps, |i: int| i < hits));
    } else {
        assert(flatten(start_groups(hits, steps)) =~= Seq::<bool>::empty());
        assert(Seq::new(steps, |i: int| i < hits) =~= Seq::<bool>::empty());
    }
}

/// With at most one rest there is nothing to spread: the hits come first,
/// then the rest, if any.
pub proof fn law_bjorklund_at_most_one_rest(hits: nat, steps: nat)
    requires
        hits <= steps <= hits + 1,
    ensures
        bjorklund_spec(hits, steps) == Seq::new(steps, |i: int| i < hits),
{
    lemma_flatten_start(hits, steps);
    if hits == 0 {
        assert(Seq::new(steps, |i: int| false) =~= Seq::new(steps, |i: int| i < hits));
    } else if hits >= steps {
        assert(Seq::new(steps, |i: int| true) =~= Seq::new(steps, |i: int| i < hits));
    }
}

/// With at least two rests and no more hits than rests, each hit takes a
/// rest behind it and the rest of the spreading is the rhythm of the same
/// hits over the remaining slots: the rhythm of `hits` over `steps` is the
/// rhythm of `hits` over `steps - hits` with a rest inserted after each hit.
pub proof fn law_bjorklund_few_hits(hits: nat, steps: nat)
    requires
        1 <= hits,
        2 * hits <= steps,
        steps - hits >= 2,
    ensures
        bjorklund_spec(hits, steps)
            == substitute(bjorklund_spec(hits, (steps - hits) as nat), seq![true, false], seq![false]),
{
    let h = seq![true, false];
    let r = seq![false];
    let st = start_groups(hits, steps);
    let small = start_groups(hits, (steps - hits) as nat);
    let next = (steps - 2 * hits) as nat;
    assert(pair_up(st, hits as int) =~= substitute_groups(small, h, r)) by {
        assert forall|i: int| 0 <= i < small.len() implies #[trigger] substitute(small[i], h, r)
            == pair_up(st, hits as int)[i] by {
            lemma_substitute_one(i < hits, h, r);
            if i < hits {
                assert(st[i] + st[steps - hits + i] =~= h);
            }
        }
    }
    lemma_substitute_rounds(small, hits, next, h, r);
    lemma_substitute_flatten(pair_rounds(small, hits, next), h, r);
    if 2 * hits == steps {
        assert(pair_rounds(small, hits, next) == small);
        lemma_flatten_start(hits, hits);
        assert(Seq::new(hits, |i: int| i < hits) =~= Seq::new(hits, |i: int| true));
    }
}

/// With at least two rests and more hits than rests, each rest goes behind
/// a hit, and the rest of the spreading is the rhythm of the rests among the
/// hits: the rhythm of `hits` over `steps` is the rhythm of `steps - hits`
/// over `hits` with each hit written as a hit and a rest and each rest as a
/// lone hit.
pub proof fn law_bjorklund_many_hits(hits: nat, steps: nat)
    requires
        2 * hits > steps,
        steps - hits >= 2,
    ensures
        bjorklund_spec(hits, steps)
            == substitute(bjorklund_spec((steps - hits) as nat, hits), seq![true, false], seq![true]),
{
    let h = seq![true, false];
    let r = seq![true];
    let rests = (steps - hits) as nat;
    let st = start_groups(hits, steps);
    let small = start_groups(rests, hits);
    let next = (hits - rests) as nat;
    assert(pair_up(st, rests as int) =~= substitute_groups(small, h, r)) by {
        assert forall|i: int| 0 <= i < small.len() implies #[trigger] substitute(small[i], h, r)
            == pair_up(st, rests as int)[i] by {
            lemma_substitute_one(i < rests, h, r);
            if i < rests {
                assert(st[i] + st[steps - rests + i] =~= h);
            }
        }
    }
    lemma_substitute_rounds(small, rests, next, h, r);
    lemma_substitute_flatten(pair_rounds(small, rests, next), h, r);
}

} // verus!
