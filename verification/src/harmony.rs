//! Voice-leading graph for chord progressions.
//!
//! Builds a graph of chords connected by parsimonious voice leading and
//! offers pathfinding, random walks, PLR operations and orbit tracing.

use vstd::prelude::*;
use vstd::string::StrSliceExecFns;
use vstd::string::StringExecFns;
use rand::rngs::SmallRng;
use rand::{Rng, SeedableRng};

verus! {

/// The value a byte has when read as a two's-complement `i8`.
pub open spec fn as_signed(x: u8) -> int {
    if x < 128 { x as int } else { x as int - 256 }
}

/// Absolute value on mathematical integers.
pub open spec fn abs_int(x: int) -> int {
    if x < 0 { -x } else { x }
}

/// `pc_dist` is defined on these inputs: the signed difference fits in an `i8`.
pub open spec fn pc_dist_defined(a: u8, b: u8) -> bool {
    -128 <= as_signed(a) - as_signed(b) <= 127
}

/// Shortest distance on the chromatic circle between two pitch classes:
/// the signed difference reduced modulo 12, folded to the shorter way round.
pub open spec fn pc_distance(a: u8, b: u8) -> int {
    let d = abs_int(as_signed(a) - as_signed(b)) % 12;
    if d <= 12 - d { d } else { 12 - d }
}

/// Shortest distance between two pitch classes on the chromatic circle.
pub fn pc_dist(a: u8, b: u8) -> (r: u8)
    requires
        pc_dist_defined(a, b),
    ensures
        r == pc_distance(a, b),
        r <= 6,
{
    let sa: i16 = if a < 128 { a as i16 } else { a as i16 - 256 };
    let sb: i16 = if b < 128 { b as i16 } else { b as i16 - 256 };
    let diff: i16 = sa - sb;
    let ad: i16 = if diff < 0 { -diff } else { diff };
    let d: i16 = ad % 12;
    let r: i16 = if d <= 12 - d { d } else { 12 - d };
    r as u8
}


/// `p` is a permutation of `0..n`.
pub open spec fn is_perm(p: Seq<usize>, n: nat) -> bool {
    &&& p.len() == n
    &&& forall|i: int| 0 <= i < n ==> #[trigger] p[i] < n
    &&& forall|i: int, j: int| 0 <= i < j < n ==> p[i] != p[j]
}

/// Cost of moving the first `k` voices of `a` onto the voices of `b` chosen by `p`.
pub open spec fn cost_prefix(a: Seq<u8>, b: Seq<u8>, p: Seq<usize>, k: nat) -> int
    decreases k,
{
    if k == 0 {
        0
    } else {
        cost_prefix(a, b, p, (k - 1) as nat) + pc_distance(a[k - 1], b[p[k - 1] as int])
    }
}

/// Total voice movement when voice `i` of `a` goes to voice `p[i]` of `b`.
pub open spec fn assignment_cost(a: Seq<u8>, b: Seq<u8>, p: Seq<usize>) -> int {
    cost_prefix(a, b, p, a.len())
}

/// The inputs on which `voice_leading_distance` runs to completion: equal
/// cardinality, every pair of pitch classes comparable, and every assignment's
/// cost small enough for a byte.
pub open spec fn vl_defined(a: Seq<u8>, b: Seq<u8>) -> bool {
    &&& a.len() == b.len()
    &&& forall|i: int, j: int|
        0 <= i < a.len() && 0 <= j < b.len() ==> pc_dist_defined(#[trigger] a[i], #[trigger] b[j])
    &&& forall|p: Seq<usize>| is_perm(p, a.len()) ==> #[trigger] assignment_cost(a, b, p) <= 255
}

/// `d` is the least total voice movement over all assignments of voices.
pub open spec fn is_min_voice_leading(a: Seq<u8>, b: Seq<u8>, d: int) -> bool {
    &&& exists|p: Seq<usize>| is_perm(p, a.len()) && assignment_cost(a, b, p) == d
    &&& forall|p: Seq<usize>| is_perm(p, a.len()) ==> d <= #[trigger] assignment_cost(a, b, p)
}

proof fn lemma_cost_prefix_bounds(a: Seq<u8>, b: Seq<u8>, p: Seq<usize>, k: nat)
    ensures
        0 <= cost_prefix(a, b, p, k) <= 6 * k,
    decreases k,
{
    if k > 0 {
        lemma_cost_prefix_bounds(a, b, p, (k - 1) as nat);
    }
}

proof fn lemma_cost_prefix_mono(a: Seq<u8>, b: Seq<u8>, p: Seq<usize>, j: nat, k: nat)
    requires
        j <= k,
    ensures
        cost_prefix(a, b, p, j) <= cost_prefix(a, b, p, k),
    decreases k,
{
    if j < k {
        lemma_cost_prefix_mono(a, b, p, j, (k - 1) as nat);
    }
}

/// Chords of at most 42 voices never overflow a byte of voice movement.
pub proof fn lemma_small_chords_cost_fits(a: Seq<u8>, b: Seq<u8>)
    requires
        a.len() <= 42,
    ensures
        forall|p: Seq<usize>| is_perm(p, a.len()) ==> #[trigger] assignment_cost(a, b, p) <= 255,
{
    assert forall|p: Seq<usize>| is_perm(p, a.len()) implies #[trigger] assignment_cost(a, b, p) <= 255 by {
        lemma_cost_prefix_bounds(a, b, p, a.len());
    }
}

proof fn lemma_insert_top_is_perm(q: Seq<usize>, m: usize, pos: int)
    requires
        is_perm(q, m as nat),
        0 <= pos <= m,
    ensures
        is_perm(q.insert(pos, m), m as nat + 1),
{
    q.insert_ensures(pos, m);
    let r = q.insert(pos, m);
    assert forall|i: int| 0 <= i < m + 1 implies #[trigger] r[i] < m + 1 by {
        if i > pos {
            assert(r[i] == q[i - 1]);
        }
    }
    assert forall|i: int, j: int| 0 <= i < j < m + 1 implies r[i] != r[j] by {
        if i < pos && j < pos {
            assert(r[i] == q[i]);
            assert(r[j] == q[j]);
        } else if i < pos && j == pos {
            assert(r[i] == q[i]);
        } else if i < pos && j > pos {
            assert(r[i] == q[i]);
            assert(r[j] == q[j - 1]);
        } else if i == pos {
            assert(r[j] == q[j - 1]);
        } else {
            assert(r[j] == q[j - 1]);
            assert(r[i] == q[i - 1]);
        }
    }
}

proof fn lemma_remove_top_is_perm(p: Seq<usize>, n: nat, k: int)
    requires
        is_perm(p, n + 1),
        0 <= k <= n,
        p[k] == n,
    ensures
        is_perm(p.remove(k), n),
        p.remove(k).insert(k, p[k]) =~= p,
{
    p.remove_ensures(k);
    let q = p.remove(k);
    assert forall|i: int| 0 <= i < n implies #[trigger] q[i] < n by {
        if i < k {
            assert(q[i] == p[i]);
            assert(p[i] != p[k]);
        } else {
            assert(q[i] == p[i + 1]);
            assert(p[i + 1] != p[k]);
        }
    }
    assert forall|i: int, j: int| 0 <= i < j < n implies q[i] != q[j] by {
        let ii = if i < k { i } else { i + 1 };
        let jj = if j < k { j } else { j + 1 };
        assert(q[i] == p[ii]);
        assert(q[j] == p[jj]);
    }
    q.insert_ensures(k, p[k]);
}

/// Appends to `r` the permutation `q` of `0..m` with `m` inserted at each
/// position from `m` down to `0` in turn.
fn push_insertions(q: &Vec<usize>, m: usize, r: &mut Vec<Vec<usize>>)
    requires
        is_perm(q@, m as nat),
        m < usize::MAX,
    ensures
        final(r).len() == old(r).len() + m + 1,
        forall|k: int| 0 <= k < old(r).len() ==> #[trigger] final(r)@[k] == old(r)@[k],
        forall|j: int| 0 <= j <= m ==> #[trigger] final(r)@[old(r).len() + j]@ == q@.insert(m - j, m),
        forall|k: int| old(r).len() <= k < final(r).len() ==> is_perm(#[trigger] final(r)@[k]@, m as nat + 1),
{
    let ghost r0 = r@;
    let mut j: usize = 0;
    while j <= m
        invariant
            is_perm(q@, m as nat),
            m < usize::MAX,
            0 <= j <= m + 1,
            r.len() == r0.len() + j,
            forall|k: int| 0 <= k < r0.len() ==> #[trigger] r@[k] == r0[k],
            forall|i: int| 0 <= i < j ==> #[trigger] r@[r0.len() + i]@ == q@.insert(m - i, m),
            forall|k: int| r0.len() <= k < r.len() ==> is_perm(#[trigger] r@[k]@, m as nat + 1),
        decreases m + 1 - j,
    {
        let mut c: Vec<usize> = Vec::new();
        let mut t: usize = 0;
        while t < q.len()
            invariant
                0 <= t <= q.len(),
                c@ =~= q@.subrange(0, t as int),
            decreases q.len() - t,
        {
            c.push(q[t]);
            t += 1;
        }
        assert(c@ =~= q@);
        c.insert(m - j, m);
        proof {
            lemma_insert_top_is_perm(q@, m, m - j);
        }
        r.push(c);
        j += 1;
    }
}

/// Some entry of `rs` holds exactly the sequence `x`.
pub open spec fn appears(rs: Seq<Vec<usize>>, x: Seq<usize>) -> bool {
    exists|k: int| 0 <= k < rs.len() && #[trigger] rs[k]@ == x
}

/// `n!`.
pub open spec fn factorial(n: nat) -> nat
    decreases n,
{
    if n == 0 { 1 } else { n * factorial((n - 1) as nat) }
}

/// `0, 1, .., n - 1` in order.
pub open spec fn identity_perm(n: nat) -> Seq<usize> {
    Seq::new(n, |i: int| i as usize)
}

/// `m` sits in `q.insert(ps, m)` at position `ps` only, when `q` holds
/// values below `m`; taking it out gives `q` back.
proof fn lemma_insert_top_position(q: Seq<usize>, m: usize, ps: int, j: int)
    requires
        is_perm(q, m as nat),
        0 <= ps <= m,
        0 <= j <= m,
    ensures
        q.insert(ps, m)[j] == m <==> j == ps,
        q.insert(ps, m).remove(ps) =~= q,
{
    q.insert_ensures(ps, m);
    if j < ps {
        assert(q.insert(ps, m)[j] == q[j]);
    } else if j > ps {
        assert(q.insert(ps, m)[j] == q[j - 1]);
    }
}

/// Every permutation of `0..n`, each exactly once: `n!` of them, pairwise
/// distinct, the identity first.
#[verifier::spinoff_prover]
#[verifier::rlimit(40)]
fn permutations(n: usize) -> (r: Vec<Vec<usize>>)
    ensures
        forall|k: int| 0 <= k < r.len() ==> is_perm(#[trigger] r@[k]@, n as nat),
        forall|p: Seq<usize>| is_perm(p, n as nat) ==> appears(r@, p),
        r.len() == factorial(n as nat),
        forall|i: int, j: int| 0 <= i < j < r.len() ==> (#[trigger] r@[i])@ != (#[trigger] r@[j])@,
        r.len() > 0 && r@[0]@ == identity_perm(n as nat),
    decreases n,
{
    if n == 0 {
        let mut r: Vec<Vec<usize>> = Vec::new();
        r.push(Vec::new());
        proof {
            assert forall|p: Seq<usize>| is_perm(p, n as nat) implies appears(r@, p) by {
                assert(p =~= r@[0]@);
            }
            assert(r@[0]@ =~= identity_perm(0));
        }
        return r;
    }
    let m: usize = n - 1;
    let prev = permutations(m);
    let mut r: Vec<Vec<usize>> = Vec::new();
    let mut qi: usize = 0;
    while qi < prev.len()
        invariant
            m + 1 == n,
            0 <= qi <= prev.len(),
            prev.len() > 0,
            prev@[0]@ == identity_perm(m as nat),
            forall|k: int| 0 <= k < prev.len() ==> is_perm(#[trigger] prev@[k]@, m as nat),
            forall|i: int, j: int| 0 <= i < j < prev.len() ==> (#[trigger] prev@[i])@ != (#[trigger] prev@[j])@,
            forall|k: int| 0 <= k < r.len() ==> is_perm(#[trigger] r@[k]@, n as nat),
            forall|a: int, ps: int| 0 <= a < qi && 0 <= ps <= m ==>
                appears(r@, #[trigger] prev@[a]@.insert(ps, m)),
            r.len() == qi * n,
            r.len() >= qi,
            forall|k: int| 0 <= k < r.len() ==> exists|a: int, ps: int|
                0 <= a < qi && 0 <= ps <= m && #[trigger] r@[k]@ == prev@[a]@.insert(ps, m),
            forall|i: int, j: int| 0 <= i < j < r.len() ==> (#[trigger] r@[i])@ != (#[trigger] r@[j])@,
            qi > 0 ==> r@[0]@ == identity_perm(n as nat),
        decreases prev.len() - qi,
    {
        let ghost r0 = r@;
        let ghost q0 = qi as int;
        push_insertions(&prev[qi], m, &mut r);
        qi += 1;
        proof {
            assert(r.len() == qi * n) by (nonlinear_arith)
                requires
                    r.len() == r0.len() + n,
                    r0.len() == (qi - 1) * n,
            ;
            assert forall|a: int, ps: int| 0 <= a < qi && 0 <= ps <= m implies
                appears(r@, #[trigger] prev@[a]@.insert(ps, m)) by {
                if a == q0 {
                    assert(r@[r0.len() + (m - ps)]@ == prev@[a]@.insert(ps, m));
                } else {
                    assert(appears(r0, prev@[a]@.insert(ps, m)));
                    let k0 = choose|k: int| 0 <= k < r0.len() && #[trigger] r0[k]@ == prev@[a]@.insert(ps, m);
                    assert(r@[k0] == r0[k0]);
                }
            }
            assert forall|k: int| 0 <= k < r.len() implies exists|a: int, ps: int|
                0 <= a < qi && 0 <= ps <= m && #[trigger] r@[k]@ == prev@[a]@.insert(ps, m) by {
                if k < r0.len() {
                    assert(r@[k] == r0[k]);
                    let (a, ps) = choose|a: int, ps: int|
                        0 <= a < q0 && 0 <= ps <= m && #[trigger] r0[k]@ == prev@[a]@.insert(ps, m);
                    assert(r@[k]@ == prev@[a]@.insert(ps, m));
                } else {
                    let j = k - r0.len();
                    assert(r@[r0.len() + j]@ == prev@[q0]@.insert(m - j, m));
                }
            }
            assert forall|i: int, j: int| 0 <= i < j < r.len() implies (#[trigger] r@[i])@ != (#[trigger] r@[j])@ by {
                if j >= r0.len() {
                    let jj = j - r0.len();
                    let pj = m - jj;
                    assert(r@[r0.len() + jj]@ == prev@[q0]@.insert(pj, m));
                    if r@[i]@ == r@[j]@ {
                        if i >= r0.len() {
                            let ii = i - r0.len();
                            let pi = m - ii;
                            assert(r@[r0.len() + ii]@ == prev@[q0]@.insert(pi, m));
                            lemma_insert_top_position(prev@[q0]@, m, pj, pi);
                            lemma_insert_top_position(prev@[q0]@, m, pi, pi);
                        } else {
                            assert(r@[i] == r0[i]);
                            let (a, ps) = choose|a: int, ps: int|
                                0 <= a < q0 && 0 <= ps <= m && #[trigger] r0[i]@ == prev@[a]@.insert(ps, m);
                            lemma_insert_top_position(prev@[a]@, m, ps, ps);
                            lemma_insert_top_position(prev@[q0]@, m, pj, ps);
                            lemma_insert_top_position(prev@[q0]@, m, pj, pj);
                            assert(prev@[a]@ =~= prev@[q0]@);
                        }
                    }
                } else {
                    assert(r@[i] == r0[i] && r@[j] == r0[j]);
                }
            }
            if q0 == 0 {
                assert(r@[r0.len() + 0int]@ == prev@[q0]@.insert(m - 0int, m));
                assert(r@[0]@ == prev@[0]@.insert(m as int, m));
                assert(prev@[0]@.insert(m as int, m) =~= identity_perm(n as nat));
            } else {
                assert(r@[0] == r0[0]);
            }
        }
    }
    proof {
        assert forall|p: Seq<usize>| is_perm(p, n as nat) implies appears(r@, p) by {
            // the top element sits somewhere; take it out to find the smaller permutation
            lemma_top_present(p, m as nat);
            let k = choose|k: int| 0 <= k < m + 1 && p[k] == m;
            lemma_remove_top_is_perm(p, m as nat, k);
            assert(appears(prev@, p.remove(k)));
            let a = choose|a: int| 0 <= a < prev.len() && #[trigger] prev@[a]@ == p.remove(k);
            assert(prev@[a]@.insert(k, m) =~= p);
            assert(appears(r@, prev@[a]@.insert(k, m)));
        }
        assert(factorial(n as nat) == n * factorial(m as nat));
        assert(r.len() > 0);
        assert(r.len() == factorial(n as nat)) by (nonlinear_arith)
            requires
                r.len() == prev.len() * n,
                prev.len() == factorial(m as nat),
                factorial(n as nat) == n * factorial(m as nat),
        ;
    }
    r
}

proof fn lemma_top_present(p: Seq<usize>, m: nat)
    requires
        is_perm(p, m + 1),
    ensures
        exists|k: int| 0 <= k < m + 1 && p[k] == m,
{
    lemma_pigeonhole(p, m);
    let k = choose|k: int| 0 <= k < m + 1 && p[k] >= m;
    assert(p[k] < m + 1);
}

/// `m + 1` distinct naturals cannot all lie below `m`.
proof fn lemma_pigeonhole(p: Seq<usize>, m: nat)
    requires
        p.len() == m + 1,
        forall|i: int, j: int| 0 <= i < j < m + 1 ==> p[i] != p[j],
    ensures
        exists|i: int| 0 <= i < m + 1 && p[i] >= m,
    decreases m,
{
    if m == 0 {
        assert(p[0] >= 0);
    } else if !(exists|i: int| 0 <= i < m + 1 && p[i] >= m) {
        let top = (m - 1) as usize;
        if exists|k: int| 0 <= k < m + 1 && p[k] == top {
            let k = choose|k: int| 0 <= k < m + 1 && p[k] == top;
            p.remove_ensures(k);
            let q = p.remove(k);
            assert forall|i: int, j: int| 0 <= i < j < m implies q[i] != q[j] by {
                let ii = if i < k { i } else { i + 1 };
                let jj = if j < k { j } else { j + 1 };
                assert(q[i] == p[ii]);
                assert(q[j] == p[jj]);
            }
            lemma_pigeonhole(q, (m - 1) as nat);
            let i = choose|i: int| 0 <= i < m && q[i] >= (m - 1) as nat;
            let ii = if i < k { i } else { i + 1 };
            assert(q[i] == p[ii]);
            assert(p[ii] != p[k]);
        } else {
            let q = p.subrange(0, m as int);
            assert forall|i: int, j: int| 0 <= i < j < m implies q[i] != q[j] by {
                assert(q[i] == p[i]);
                assert(q[j] == p[j]);
            }
            lemma_pigeonhole(q, (m - 1) as nat);
            let i = choose|i: int| 0 <= i < m && q[i] >= (m - 1) as nat;
            assert(q[i] == p[i]);
        }
    }
}


/// Minimum total voice-leading distance between two chords of equal cardinality,
/// taken over every way of assigning the voices of `a` to the voices of `b`.
pub fn voice_leading_distance(a: &[u8], b: &[u8]) -> (d: u8)
    requires
        vl_defined(a@, b@),
    ensures
        is_min_voice_leading(a@, b@, d as int),
{
    let n = a.len();
    let perms = permutations(n);
    let mut best: u8 = u8::MAX;
    let mut pi: usize = 0;
    while pi < perms.len()
        invariant
            n == a@.len() == b@.len(),
            vl_defined(a@, b@),
            0 <= pi <= perms.len(),
            forall|k: int| 0 <= k < perms.len() ==> is_perm(#[trigger] perms@[k]@, n as nat),
            forall|k: int| 0 <= k < pi ==> best <= assignment_cost(a@, b@, #[trigger] perms@[k]@),
            pi > 0 ==> exists|k: int| 0 <= k < pi && assignment_cost(a@, b@, #[trigger] perms@[k]@) == best,
            pi == 0 ==> best == 255,
        decreases perms.len() - pi,
    {
        let perm = &perms[pi];
        assert(is_perm(perm@, n as nat));
        assert(assignment_cost(a@, b@, perm@) <= 255);
        let mut total: u8 = 0;
        let mut i: usize = 0;
        while i < n
            invariant
                n == a@.len() == b@.len(),
                vl_defined(a@, b@),
                is_perm(perm@, n as nat),
                assignment_cost(a@, b@, perm@) <= 255,
                0 <= i <= n,
                total == cost_prefix(a@, b@, perm@, i as nat),
            decreases n - i,
        {
            let j = perm[i];
            assert(j < n);
            assert(pc_dist_defined(a@[i as int], b@[j as int]));
            let step = pc_dist(a[i], b[j]);
            proof {
                lemma_cost_prefix_mono(a@, b@, perm@, (i + 1) as nat, n as nat);
            }
            total = total + step;
            i += 1;
        }
        assert(total == assignment_cost(a@, b@, perms@[pi as int]@));
        if total < best {
            best = total;
        }
        proof {
            if total == best {
                assert(assignment_cost(a@, b@, perms@[pi as int]@) == best);
            } else {
                assert(pi > 0);
            }
        }
        pi += 1;
    }
    proof {
        let id = Seq::new(n as nat, |i: int| i as usize);
        assert(is_perm(id, n as nat));
        assert(appears(perms@, id));
        assert(perms.len() > 0);
        assert forall|p: Seq<usize>| is_perm(p, a@.len()) implies best <= #[trigger] assignment_cost(a@, b@, p) by {
            assert(appears(perms@, p));
            let k = choose|k: int| 0 <= k < perms.len() && #[trigger] perms@[k]@ == p;
            assert(best <= assignment_cost(a@, b@, perms@[k]@));
        }
        let k = choose|k: int| 0 <= k < pi && assignment_cost(a@, b@, #[trigger] perms@[k]@) == best;
        assert(is_perm(perms@[k]@, n as nat));
    }
    best
}


// ─── Text helpers ────────────────────────────────────────────────────────────

/// Character-wise equality of two string slices.
pub(crate) fn text_eq(a: &str, b: &str) -> (r: bool)
    ensures
        r == (a@ == b@),
{
    let n = a.unicode_len();
    if n != b.unicode_len() {
        return false;
    }
    let mut i: usize = 0;
    while i < n
        invariant
            n == a@.len() == b@.len(),
            0 <= i <= n,
            forall|k: int| 0 <= k < i ==> a@[k] == b@[k],
        decreases n - i,
    {
        if a.get_char(i) != b.get_char(i) {
            return false;
        }
        i += 1;
    }
    assert(a@ =~= b@);
    true
}

/// `a` sorts strictly before `b`, comparing characters by code point (the order
/// of their UTF-8 bytes) and a proper prefix before its extensions.
pub open spec fn text_lt(a: Seq<char>, b: Seq<char>) -> bool
    decreases a.len(),
{
    if a.len() == 0 {
        b.len() > 0
    } else if b.len() == 0 {
        false
    } else if a[0] != b[0] {
        (a[0] as int) < (b[0] as int)
    } else {
        text_lt(a.drop_first(), b.drop_first())
    }
}

proof fn lemma_text_lt_total(a: Seq<char>, b: Seq<char>)
    ensures
        a =~= b || text_lt(a, b) || text_lt(b, a),
    decreases a.len(),
{
    if a.len() > 0 && b.len() > 0 && a[0] == b[0] {
        lemma_text_lt_total(a.drop_first(), b.drop_first());
        if a.drop_first() =~= b.drop_first() {
            assert(a =~= seq![a[0]] + a.drop_first());
            assert(b =~= seq![b[0]] + b.drop_first());
        }
    } else if a.len() > 0 && b.len() > 0 {
        assert((a[0] as int) != (b[0] as int));
    }
}

proof fn lemma_text_lt_trans(a: Seq<char>, b: Seq<char>, c: Seq<char>)
    requires
        text_lt(a, b),
        text_lt(b, c),
    ensures
        text_lt(a, c),
    decreases a.len(),
{
    if a.len() > 0 && b.len() > 0 && c.len() > 0 && a[0] == b[0] && b[0] == c[0] {
        lemma_text_lt_trans(a.drop_first(), b.drop_first(), c.drop_first());
    }
}

/// Strict text order on string slices, character by character.
fn text_less(a: &str, b: &str) -> (r: bool)
    ensures
        r == text_lt(a@, b@),
{
    let na = a.unicode_len();
    let nb = b.unicode_len();
    let mut i: usize = 0;
    assert(a@.skip(0) =~= a@);
    assert(b@.skip(0) =~= b@);
    while i < na && i < nb
        invariant
            na == a@.len(),
            nb == b@.len(),
            0 <= i <= na,
            i <= nb,
            text_lt(a@, b@) == text_lt(a@.skip(i as int), b@.skip(i as int)),
        decreases na - i,
    {
        let ca = a.get_char(i);
        let cb = b.get_char(i);
        assert(a@.skip(i as int)[0] == ca);
        assert(b@.skip(i as int)[0] == cb);
        if ca != cb {
            return ca < cb;
        }
        assert(a@.skip(i as int).drop_first() =~= a@.skip(i + 1));
        assert(b@.skip(i as int).drop_first() =~= b@.skip(i + 1));
        i += 1;
    }
    na < nb
}

// ─── Chord ───────────────────────────────────────────────────────────────────

/// Name of pitch class `r` (0 = C, ..., 11 = B).
pub open spec fn note_name(r: u8) -> Seq<char> {
    if r == 0 { "C"@ } else if r == 1 { "C#"@ } else if r == 2 { "D"@ } else if r == 3 { "Eb"@ }
    else if r == 4 { "E"@ } else if r == 5 { "F"@ } else if r == 6 { "F#"@ } else if r == 7 { "G"@ }
    else if r == 8 { "Ab"@ } else if r == 9 { "A"@ } else if r == 10 { "Bb"@ } else { "B"@ }
}

/// The suffix a chord type contributes to a chord label; unknown types are
/// spelled out in full.
pub open spec fn type_suffix(t: Seq<char>) -> Seq<char> {
    if t == "major"@ { ""@ } else if t == "minor"@ { "m"@ } else if t == "augmented"@ { "aug"@ }
    else if t == "diminished"@ { "dim"@ } else if t == "sus2"@ { "sus2"@ } else if t == "sus4"@ { "sus4"@ }
    else if t == "maj7"@ { "maj7"@ } else if t == "dom7"@ { "7"@ } else if t == "min7"@ { "m7"@ }
    else if t == "minmaj7"@ { "mM7"@ } else if t == "hdim7"@ { "ø7"@ } else if t == "dim7"@ { "°7"@ }
    else if t == "augmaj7"@ { "augM7"@ } else if t == "augdom7"@ { "aug7"@ } else { t }
}

/// A chord defined by root pitch class, type name, and pitch-class set.
#[derive(Clone, PartialEq, Eq, Hash, Debug)]
pub struct Chord {
    pub root: u8,
    pub kind_name: String,
    pub notes: Vec<u8>,
}

/// Two chords agree on root, type name and notes.
pub open spec fn same_chord(x: Chord, y: Chord) -> bool {
    x.root == y.root && x.kind_name@ == y.kind_name@ && x.notes@ == y.notes@
}

/// A copy of `c` with the same root, type name and notes.
fn copy_chord(c: &Chord) -> (r: Chord)
    ensures
        same_chord(r, *c),
{
    let mut notes: Vec<u8> = Vec::new();
    let mut i: usize = 0;
    while i < c.notes.len()
        invariant
            0 <= i <= c.notes.len(),
            notes@ =~= c.notes@.subrange(0, i as int),
        decreases c.notes.len() - i,
    {
        notes.push(c.notes[i]);
        i += 1;
    }
    assert(notes@ =~= c.notes@);
    Chord { root: c.root, kind_name: c.kind_name.clone(), notes }
}

/// The label of a chord: root name followed by the type's suffix.
pub open spec fn chord_label(c: Chord) -> Seq<char> {
    note_name(c.root) + type_suffix(c.kind_name@)
}

/// The type name of a chord, borrowed.
fn type_of(c: &Chord) -> (r: &str)
    ensures
        r@ == c.kind_name@,
{
    c.kind_name.as_str()
}

proof fn lemma_cycle_index(it: int, len: int, oi: int)
    requires
        0 <= it,
        0 <= oi < len,
    ensures
        (it * len + oi) % len == oi,
{
    vstd::arithmetic::div_mod::lemma_mod_multiples_vanish(it, oi, len);
    vstd::arithmetic::div_mod::lemma_small_mod(oi as nat, len as nat);
    vstd::arithmetic::mul::lemma_mul_is_commutative(it, len);
}

proof fn lemma_next_multiple(it: int, len: int)
    ensures
        (it + 1) * len == it * len + len,
{
    vstd::arithmetic::mul::lemma_mul_is_distributive_add_other_way(len, it, 1);
}

/// Whether two chords agree on root, type name and notes.
fn same_chord_exec(x: &Chord, y: &Chord) -> (r: bool)
    ensures
        r == same_chord(*x, *y),
{
    x.root == y.root && text_eq(x.kind_name.as_str(), y.kind_name.as_str()) && bytes_eq(&x.notes, &y.notes)
}

/// The label suffix for a chord type name.
fn suffix_of(t: &str) -> (r: &str)
    ensures
        r@ == type_suffix(t@),
{
    if text_eq(t, "major") { "" } else if text_eq(t, "minor") { "m" }
    else if text_eq(t, "augmented") { "aug" } else if text_eq(t, "diminished") { "dim" }
    else if text_eq(t, "sus2") { "sus2" } else if text_eq(t, "sus4") { "sus4" }
    else if text_eq(t, "maj7") { "maj7" } else if text_eq(t, "dom7") { "7" }
    else if text_eq(t, "min7") { "m7" } else if text_eq(t, "minmaj7") { "mM7" }
    else if text_eq(t, "hdim7") { "ø7" } else if text_eq(t, "dim7") { "°7" }
    else if text_eq(t, "augmaj7") { "augM7" } else if text_eq(t, "augdom7") { "aug7" }
    else { t }
}

impl Chord {
    /// Name of the chord's root pitch class.
    pub fn root_name(&self) -> (r: &'static str)
        requires
            self.root < 12,
        ensures
            r@ == note_name(self.root),
    {
        pc_name(self.root)
    }

    /// Root name followed by the type's suffix, e.g. `Cmaj7`, `C7`, `Cm7`.
    pub fn label(&self) -> (r: String)
        requires
            self.root < 12,
        ensures
            r@ == chord_label(*self),
    {
        let mut s = String::from_str(self.root_name());
        s.append(suffix_of(type_of(self)));
        s
    }

    /// The label followed by the note names in brackets, e.g. `Cmaj7 [C E G B]`.
    pub fn describe(&self) -> (r: String)
        requires
            self.root < 12,
            forall|i: int| 0 <= i < self.notes.len() ==> self.notes@[i] < 12,
        ensures
            r@ == chord_description(*self),
    {
        let mut s = self.label();
        s.append(" [");
        let mut i: usize = 0;
        while i < self.notes.len()
            invariant
                0 <= i <= self.notes.len(),
                forall|k: int| 0 <= k < self.notes.len() ==> self.notes@[k] < 12,
                s@ == chord_label(*self) + " ["@ + names_joined(self.notes@.take(i as int)),
            decreases self.notes.len() - i,
        {
            let ghost before = s@;
            if i > 0 {
                s.append(" ");
            }
            s.append(pc_name(self.notes[i]));
            proof {
                let t = self.notes@.take(i as int + 1);
                assert(t.drop_last() =~= self.notes@.take(i as int));
                assert(t.last() == self.notes@[i as int]);
                if i == 0 {
                    assert(s@ =~= chord_label(*self) + " ["@ + names_joined(t));
                } else {
                    assert(s@ =~= chord_label(*self) + " ["@ + names_joined(t));
                }
            }
            i += 1;
        }
        s.append("]");
        proof {
            assert(self.notes@.take(self.notes.len() as int) =~= self.notes@);
        }
        s
    }
}

/// The name of pitch class `pc`.
fn pc_name(pc: u8) -> (r: &'static str)
    requires
        pc < 12,
    ensures
        r@ == note_name(pc),
{
    match pc {
        0 => "C", 1 => "C#", 2 => "D", 3 => "Eb", 4 => "E", 5 => "F",
        6 => "F#", 7 => "G", 8 => "Ab", 9 => "A", 10 => "Bb", _ => "B",
    }
}

/// Note names of `notes`, separated by single spaces.
pub open spec fn names_joined(notes: Seq<u8>) -> Seq<char>
    decreases notes.len(),
{
    if notes.len() == 0 {
        Seq::empty()
    } else if notes.len() == 1 {
        note_name(notes[0])
    } else {
        names_joined(notes.drop_last()) + " "@ + note_name(notes.last())
    }
}

/// A chord as text: its label, then its note names in brackets.
pub open spec fn chord_description(c: Chord) -> Seq<char> {
    chord_label(c) + " ["@ + names_joined(c.notes@) + "]"@
}


// ─── Pitch-class sets ───────────────────────────────────────────────────────

/// The elements of `s` equal to `v`, in order.
pub open spec fn only(s: Seq<u8>, v: u8) -> Seq<u8>
    decreases s.len(),
{
    if s.len() == 0 {
        Seq::empty()
    } else {
        only(s.drop_last(), v) + (if s.last() == v { seq![v] } else { Seq::empty() })
    }
}

/// The elements of `s` below `v`, in ascending order.
pub open spec fn ascending_upto(s: Seq<u8>, v: nat) -> Seq<u8>
    decreases v,
{
    if v == 0 {
        Seq::empty()
    } else {
        ascending_upto(s, (v - 1) as nat) + only(s, (v - 1) as u8)
    }
}

/// The pitch classes of `s` (all below 12) in ascending order.
pub open spec fn ascending_pcs(s: Seq<u8>) -> Seq<u8> {
    ascending_upto(s, 12)
}

/// Each pitch class of `template` moved up by `t` semitones, modulo the octave.
pub open spec fn transposed(template: Seq<u8>, t: int) -> Seq<u8> {
    template.map_values(|pc: u8| ((pc + t) % 12) as u8)
}

/// The sorted pitch-class set of `template` transposed by `t`.
pub open spec fn chord_pcs(template: Seq<u8>, t: int) -> Seq<u8> {
    ascending_pcs(transposed(template, t))
}

/// Number of elements of `s` below `v`.
pub open spec fn count_below(s: Seq<u8>, v: nat) -> nat
    decreases s.len(),
{
    if s.len() == 0 {
        0
    } else {
        count_below(s.drop_last(), v) + (if s.last() < v { 1nat } else { 0nat })
    }
}

proof fn lemma_count_below_step(s: Seq<u8>, v: nat)
    requires
        v < 256,
    ensures
        count_below(s, v + 1) == count_below(s, v) + only(s, v as u8).len(),
    decreases s.len(),
{
    if s.len() > 0 {
        lemma_count_below_step(s.drop_last(), v);
    }
}

proof fn lemma_count_below_zero(s: Seq<u8>)
    ensures
        count_below(s, 0) == 0,
    decreases s.len(),
{
    if s.len() > 0 {
        lemma_count_below_zero(s.drop_last());
    }
}

proof fn lemma_count_below_all(s: Seq<u8>, v: nat)
    requires
        forall|i: int| 0 <= i < s.len() ==> s[i] < v,
    ensures
        count_below(s, v) == s.len(),
    decreases s.len(),
{
    if s.len() > 0 {
        lemma_count_below_all(s.drop_last(), v);
    }
}

proof fn lemma_only_values(s: Seq<u8>, v: u8)
    ensures
        forall|i: int| 0 <= i < only(s, v).len() ==> #[trigger] only(s, v)[i] == v,
    decreases s.len(),
{
    if s.len() > 0 {
        lemma_only_values(s.drop_last(), v);
        let p = only(s.drop_last(), v);
        assert forall|i: int| 0 <= i < only(s, v).len() implies #[trigger] only(s, v)[i] == v by {
            if i < p.len() {
                assert(only(s, v)[i] == p[i]);
            }
        }
    }
}

proof fn lemma_ascending_upto(s: Seq<u8>, v: nat)
    requires
        v <= 256,
    ensures
        ascending_upto(s, v).len() == count_below(s, v),
        forall|i: int| 0 <= i < ascending_upto(s, v).len() ==> #[trigger] ascending_upto(s, v)[i] < v,
    decreases v,
{
    if v == 0 {
        lemma_count_below_zero(s);
    } else {
        let w = (v - 1) as nat;
        lemma_ascending_upto(s, w);
        lemma_count_below_step(s, w);
        lemma_only_values(s, w as u8);
        let a = ascending_upto(s, w);
        let o = only(s, w as u8);
        assert forall|i: int| 0 <= i < ascending_upto(s, v).len() implies #[trigger] ascending_upto(s, v)[i] < v by {
            if i < a.len() {
                assert(ascending_upto(s, v)[i] == a[i]);
            } else {
                assert(ascending_upto(s, v)[i] == o[i - a.len()]);
            }
        }
    }
}

/// A sorted transposition keeps the template's size and stays within the octave.
proof fn lemma_chord_pcs(template: Seq<u8>, t: int)
    ensures
        chord_pcs(template, t).len() == template.len(),
        forall|i: int| 0 <= i < chord_pcs(template, t).len() ==> #[trigger] chord_pcs(template, t)[i] < 12,
{
    let tr = transposed(template, t);
    lemma_ascending_upto(tr, 12);
    lemma_count_below_all(tr, 12);
}

/// The pitch classes of `template` transposed by `t`, sorted ascending.
fn sorted_transposition(template: &Vec<u8>, t: u8) -> (r: Vec<u8>)
    requires
        forall|i: int| 0 <= i < template@.len() ==> template@[i] + t <= 255,
    ensures
        r@ == chord_pcs(template@, t as int),
        r@.len() == template@.len(),
        forall|i: int| 0 <= i < r@.len() ==> r@[i] < 12,
{
    let ghost tr = transposed(template@, t as int);
    let mut moved: Vec<u8> = Vec::new();
    let mut i: usize = 0;
    while i < template.len()
        invariant
            0 <= i <= template.len(),
            tr == transposed(template@, t as int),
            forall|k: int| 0 <= k < template@.len() ==> template@[k] + t <= 255,
            moved@ =~= tr.subrange(0, i as int),
        decreases template.len() - i,
    {
        moved.push((template[i] + t) % 12);
        i += 1;
    }
    assert(moved@ =~= tr);
    let mut out: Vec<u8> = Vec::new();
    let mut v: u8 = 0;
    while v < 12
        invariant
            0 <= v <= 12,
            moved@ == tr,
            out@ == ascending_upto(tr, v as nat),
        decreases 12 - v,
    {
        let mut j: usize = 0;
        while j < moved.len()
            invariant
                0 <= j <= moved.len(),
                moved@ == tr,
                v < 12,
                out@ == ascending_upto(tr, v as nat) + only(tr.subrange(0, j as int), v),
            decreases moved.len() - j,
        {
            proof {
                assert(tr.subrange(0, j + 1).drop_last() =~= tr.subrange(0, j as int));
            }
            if moved[j] == v {
                out.push(v);
            }
            j += 1;
        }
        assert(tr.subrange(0, moved.len() as int) =~= tr);
        v += 1;
    }
    proof {
        lemma_chord_pcs(template@, t as int);
    }
    out
}


/// The least total voice movement from `a` to `b`.
pub open spec fn vl_dist(a: Seq<u8>, b: Seq<u8>) -> int {
    if exists|d: int| is_min_voice_leading(a, b, d) {
        choose|d: int| is_min_voice_leading(a, b, d)
    } else {
        0
    }
}

proof fn lemma_vl_dist_nonneg(a: Seq<u8>, b: Seq<u8>)
    ensures
        vl_dist(a, b) >= 0,
{
    if exists|d: int| is_min_voice_leading(a, b, d) {
        let d = vl_dist(a, b);
        let p = choose|p: Seq<usize>| is_perm(p, a.len()) && assignment_cost(a, b, p) == d;
        lemma_cost_prefix_bounds(a, b, p, a.len());
    }
}

proof fn lemma_vl_dist_unique(a: Seq<u8>, b: Seq<u8>, d: int)
    requires
        is_min_voice_leading(a, b, d),
    ensures
        vl_dist(a, b) == d,
{
    let e = vl_dist(a, b);
    assert(is_min_voice_leading(a, b, e));
    let p = choose|p: Seq<usize>| is_perm(p, a.len()) && assignment_cost(a, b, p) == d;
    let q = choose|q: Seq<usize>| is_perm(q, a.len()) && assignment_cost(a, b, q) == e;
    assert(e <= assignment_cost(a, b, p));
    assert(d <= assignment_cost(a, b, q));
}

/// Pitch-class distance does not depend on the order of its arguments.
pub proof fn law_pc_dist_symmetric(a: u8, b: u8)
    ensures
        pc_distance(a, b) == pc_distance(b, a),
{
    assert(abs_int(as_signed(a) - as_signed(b)) == abs_int(as_signed(b) - as_signed(a)));
}

/// A pitch class is at distance 0 from itself.
pub proof fn law_pc_dist_self(a: u8)
    ensures
        pc_distance(a, a) == 0,
{
}

proof fn lemma_identity_cost(a: Seq<u8>, p: Seq<usize>, k: nat)
    requires
        k <= a.len(),
        forall|i: int| 0 <= i < k ==> #[trigger] p[i] == i,
    ensures
        cost_prefix(a, a, p, k) == 0,
    decreases k,
{
    if k > 0 {
        lemma_identity_cost(a, p, (k - 1) as nat);
        assert(p[k - 1] == k - 1);
    }
}

/// Voicing a chord to itself needs no movement: the least voice-leading
/// distance from a chord to itself is 0.
pub proof fn law_voice_leading_self(a: Seq<u8>)
    requires
        a.len() <= usize::MAX,
    ensures
        is_min_voice_leading(a, a, 0),
        vl_dist(a, a) == 0,
{
    let p = Seq::new(a.len(), |i: int| i as usize);
    assert(is_perm(p, a.len()));
    lemma_identity_cost(a, p, a.len());
    assert(assignment_cost(a, a, p) == 0);
    assert forall|q: Seq<usize>| is_perm(q, a.len()) implies 0 <= #[trigger] assignment_cost(a, a, q) by {
        lemma_cost_prefix_bounds(a, a, q, a.len());
    }
    lemma_vl_dist_unique(a, a, 0);
}

/// Chords of one size within the octave can always be compared.
proof fn lemma_vl_defined(a: Seq<u8>, b: Seq<u8>)
    requires
        a.len() == b.len(),
        a.len() <= 42,
        forall|i: int| 0 <= i < a.len() ==> a[i] < 12,
        forall|i: int| 0 <= i < b.len() ==> b[i] < 12,
    ensures
        vl_defined(a, b),
{
    lemma_small_chords_cost_fits(a, b);
}

// ─── Chord types ─────────────────────────────────────────────────────────────

/// A chord type as names and pitch classes.
pub open spec fn type_models(types: Seq<(String, Vec<u8>)>) -> Seq<(Seq<char>, Seq<u8>)> {
    types.map_values(|e: (String, Vec<u8>)| (e.0@, e.1@))
}

/// Chord types the graph can be built from: templates of one size (at most 42
/// voices, since every voice assignment is tried), whose transpositions by up to
/// 11 semitones fit in a byte.
pub open spec fn types_valid(ts: Seq<(Seq<char>, Seq<u8>)>) -> bool {
    &&& forall|k: int| 0 <= k < ts.len() ==> (#[trigger] ts[k]).1.len() == ts[0].1.len()
    &&& ts.len() > 0 ==> ts[0].1.len() <= 42
    &&& forall|k: int, i: int| 0 <= k < ts.len() && 0 <= i < ts[k].1.len() ==> #[trigger] ts[k].1[i] <= 244
}

/// Seventh chord types: name and interval set from the root.
pub open spec fn seventh_types_spec() -> Seq<(Seq<char>, Seq<u8>)> {
    seq![
        ("maj7"@, seq![0u8, 4, 7, 11]),
        ("dom7"@, seq![0u8, 4, 7, 10]),
        ("min7"@, seq![0u8, 3, 7, 10]),
        ("minmaj7"@, seq![0u8, 3, 7, 11]),
        ("hdim7"@, seq![0u8, 3, 6, 10]),
        ("dim7"@, seq![0u8, 3, 6, 9]),
        ("augmaj7"@, seq![0u8, 4, 8, 11]),
        ("augdom7"@, seq![0u8, 4, 8, 10]),
    ]
}

/// Triad types: name and interval set from the root.
pub open spec fn triad_types_spec() -> Seq<(Seq<char>, Seq<u8>)> {
    seq![
        ("major"@, seq![0u8, 4, 7]),
        ("minor"@, seq![0u8, 3, 7]),
        ("augmented"@, seq![0u8, 4, 8]),
        ("diminished"@, seq![0u8, 3, 6]),
        ("sus2"@, seq![0u8, 2, 7]),
        ("sus4"@, seq![0u8, 5, 7]),
    ]
}

fn entry(name: &str, template: Vec<u8>) -> (r: (String, Vec<u8>))
    ensures
        r.0@ == name@,
        r.1@ == template@,
{
    (String::from_str(name), template)
}

/// Seventh chord types: name → interval set from root.
pub fn seventh_types() -> (r: Vec<(String, Vec<u8>)>)
    ensures
        type_models(r@) == seventh_types_spec(),
{
    let mut r: Vec<(String, Vec<u8>)> = Vec::new();
    r.push(entry("maj7", vec![0, 4, 7, 11]));
    r.push(entry("dom7", vec![0, 4, 7, 10]));
    r.push(entry("min7", vec![0, 3, 7, 10]));
    r.push(entry("minmaj7", vec![0, 3, 7, 11]));
    r.push(entry("hdim7", vec![0, 3, 6, 10]));
    r.push(entry("dim7", vec![0, 3, 6, 9]));
    r.push(entry("augmaj7", vec![0, 4, 8, 11]));
    r.push(entry("augdom7", vec![0, 4, 8, 10]));
    assert(type_models(r@) =~= seventh_types_spec());
    r
}

/// Triad types: name → interval set from root.
pub fn triad_types() -> (r: Vec<(String, Vec<u8>)>)
    ensures
        type_models(r@) == triad_types_spec(),
{
    let mut r: Vec<(String, Vec<u8>)> = Vec::new();
    r.push(entry("major", vec![0, 4, 7]));
    r.push(entry("minor", vec![0, 3, 7]));
    r.push(entry("augmented", vec![0, 4, 8]));
    r.push(entry("diminished", vec![0, 3, 6]));
    r.push(entry("sus2", vec![0, 2, 7]));
    r.push(entry("sus4", vec![0, 5, 7]));
    assert(type_models(r@) =~= triad_types_spec());
    r
}


// ─── Chord space ─────────────────────────────────────────────────────────────

/// Root, type name and notes of a chord.
pub open spec fn chord_model(c: Chord) -> (u8, Seq<char>, Seq<u8>) {
    (c.root, c.kind_name@, c.notes@)
}

pub open spec fn chord_models(cs: Seq<Chord>) -> Seq<(u8, Seq<char>, Seq<u8>)> {
    cs.map_values(|c: Chord| chord_model(c))
}

/// The notes of each chord.
pub open spec fn notes_list(cs: Seq<Chord>) -> Seq<Seq<u8>> {
    cs.map_values(|c: Chord| c.notes@)
}

/// Some chord of `cs` has exactly the pitch-class set `notes`.
pub open spec fn has_notes(cs: Seq<(u8, Seq<char>, Seq<u8>)>, notes: Seq<u8>) -> bool {
    exists|i: int| 0 <= i < cs.len() && #[trigger] cs[i].2 == notes
}

/// The chords obtained from the first `m` (type, transposition) pairs, taken
/// type by type and transposition 0..12 within a type, keeping only the first
/// chord of each pitch-class set.
pub open spec fn generated(ts: Seq<(Seq<char>, Seq<u8>)>, m: nat) -> Seq<(u8, Seq<char>, Seq<u8>)>
    decreases m,
{
    if m == 0 {
        Seq::empty()
    } else {
        let prev = generated(ts, (m - 1) as nat);
        let k = (m - 1) as int / 12;
        let t = (m - 1) as int % 12;
        let notes = chord_pcs(ts[k].1, t);
        if has_notes(prev, notes) {
            prev
        } else {
            prev.push((t as u8, ts[k].0, notes))
        }
    }
}

/// Every transposition of every type, deduplicated by pitch-class set.
pub open spec fn all_chords(ts: Seq<(Seq<char>, Seq<u8>)>) -> Seq<(u8, Seq<char>, Seq<u8>)> {
    generated(ts, 12 * ts.len())
}

/// `s` is in non-decreasing order.
pub open spec fn sorted_u8(s: Seq<u8>) -> bool {
    forall|i: int, j: int| 0 <= i < j < s.len() ==> s[i] <= s[j]
}

proof fn lemma_ascending_sorted(s: Seq<u8>, v: nat)
    requires
        v <= 256,
    ensures
        sorted_u8(ascending_upto(s, v)),
    decreases v,
{
    if v > 0 {
        let w = (v - 1) as nat;
        lemma_ascending_sorted(s, w);
        lemma_ascending_upto(s, w);
        lemma_only_values(s, w as u8);
        let a = ascending_upto(s, w);
        let o = only(s, w as u8);
        let all = ascending_upto(s, v);
        assert(all == a + o);
        assert forall|i: int, j: int| 0 <= i < j < all.len() implies all[i] <= all[j] by {
            if j < a.len() {
                assert(all[i] == a[i] && all[j] == a[j]);
            } else if i < a.len() {
                assert(all[i] == a[i] && all[j] == o[j - a.len()]);
            } else {
                assert(all[i] == o[i - a.len()] && all[j] == o[j - a.len()]);
            }
        }
    }
}

/// The chord of the `m`-th (type, transposition) pair: type `m / 12` moved
/// up by `m % 12` semitones, with that root and type name.
pub open spec fn pair_chord(ts: Seq<(Seq<char>, Seq<u8>)>, m: int) -> (u8, Seq<char>, Seq<u8>) {
    ((m % 12) as u8, ts[m / 12].0, chord_pcs(ts[m / 12].1, m % 12))
}

/// Entry `i` of `cs` is the chord of pair `orig[i]`, the first pair with
/// its pitch-class set.
pub open spec fn first_of_its_set(ts: Seq<(Seq<char>, Seq<u8>)>, cs: Seq<(u8, Seq<char>, Seq<u8>)>, orig: Seq<int>, i: int) -> bool {
    &&& cs[i] == pair_chord(ts, orig[i])
    &&& forall|m: int| 0 <= m < orig[i] ==> (#[trigger] pair_chord(ts, m)).2 != cs[i].2
}

/// `orig` lists, in increasing order, the pairs below `bound` that the
/// entries of `cs` come from, each entry the first of its set.
pub open spec fn origins(ts: Seq<(Seq<char>, Seq<u8>)>, cs: Seq<(u8, Seq<char>, Seq<u8>)>, orig: Seq<int>, bound: int) -> bool {
    &&& orig.len() == cs.len()
    &&& forall|i: int| 0 <= i < orig.len() ==> 0 <= #[trigger] orig[i] < bound
    &&& forall|i: int| 0 <= i < orig.len() ==> #[trigger] first_of_its_set(ts, cs, orig, i)
    &&& forall|i: int, j: int| 0 <= i < j < orig.len() ==> #[trigger] orig[i] < #[trigger] orig[j]
}

/// No two entries share a pitch-class set.
pub open spec fn distinct_sets(cs: Seq<(u8, Seq<char>, Seq<u8>)>) -> bool {
    forall|i: int, j: int| 0 <= i < j < cs.len() ==> (#[trigger] cs[i]).2 != (#[trigger] cs[j]).2
}

/// The first `m` pairs each have their set among the entries of `cs`.
pub open spec fn covers(ts: Seq<(Seq<char>, Seq<u8>)>, cs: Seq<(u8, Seq<char>, Seq<u8>)>, m: int) -> bool {
    forall|p: int| 0 <= p < m ==> has_notes(cs, #[trigger] pair_chord(ts, p).2)
}

proof fn lemma_generated(ts: Seq<(Seq<char>, Seq<u8>)>, m: nat) -> (orig: Seq<int>)
    requires
        m <= 12 * ts.len(),
    ensures
        origins(ts, generated(ts, m), orig, m as int),
        distinct_sets(generated(ts, m)),
        covers(ts, generated(ts, m), m as int),
    decreases m,
{
    if m == 0 {
        Seq::empty()
    } else {
        let prev = generated(ts, (m - 1) as nat);
        let o = lemma_generated(ts, (m - 1) as nat);
        let p = (m - 1) as int;
        let pc = pair_chord(ts, p);
        let g = generated(ts, m);
        assert(pc.2 == chord_pcs(ts[p / 12].1, p % 12));
        if has_notes(prev, pc.2) {
            assert(g == prev);
            assert forall|q: int| 0 <= q < m implies has_notes(g, #[trigger] pair_chord(ts, q).2) by {
                if q < p {
                    assert(covers(ts, prev, p));
                }
            }
            o
        } else {
            assert(g == prev.push(pc));
            let o2 = o.push(p);
            assert forall|i: int| 0 <= i < o2.len() implies #[trigger] first_of_its_set(ts, g, o2, i) by {
                if i < o.len() {
                    assert(first_of_its_set(ts, prev, o, i));
                    assert(g[i] == prev[i] && o2[i] == o[i]);
                } else {
                    assert forall|q: int| 0 <= q < o2[i] implies (#[trigger] pair_chord(ts, q)).2 != g[i].2 by {
                        assert(covers(ts, prev, p));
                        assert(has_notes(prev, pair_chord(ts, q).2));
                    }
                }
            }
            assert forall|i: int| 0 <= i < o2.len() implies 0 <= #[trigger] o2[i] < m by {
                if i < o.len() {
                    assert(o2[i] == o[i]);
                }
            }
            assert forall|i: int, j: int| 0 <= i < j < o2.len() implies #[trigger] o2[i] < #[trigger] o2[j] by {
                if j < o.len() {
                    assert(o2[i] == o[i] && o2[j] == o[j]);
                } else {
                    assert(o2[i] == o[i]);
                }
            }
            assert forall|i: int, j: int| 0 <= i < j < g.len() implies (#[trigger] g[i]).2 != (#[trigger] g[j]).2 by {
                if j < prev.len() {
                    assert(g[i] == prev[i] && g[j] == prev[j]);
                } else {
                    assert(g[i] == prev[i]);
                    if prev[i].2 == pc.2 {
                        assert(has_notes(prev, pc.2));
                    }
                }
            }
            assert forall|q: int| 0 <= q < m implies has_notes(g, #[trigger] pair_chord(ts, q).2) by {
                if q < p {
                    assert(covers(ts, prev, p));
                    let i = choose|i: int| 0 <= i < prev.len() && #[trigger] prev[i].2 == pair_chord(ts, q).2;
                    assert(g[i] == prev[i]);
                } else {
                    assert(g[prev.len() as int] == pc);
                }
            }
            o2
        }
    }
}

/// Voice-leading weight of the edge between chords `i` and `j`, measured from
/// the lower-indexed chord to the higher.
pub open spec fn edge_weight(ns: Seq<Seq<u8>>, i: int, j: int) -> int {
    if i < j { vl_dist(ns[i], ns[j]) } else { vl_dist(ns[j], ns[i]) }
}

/// Neighbours of chord `i` among chords `0..j`, in index order, with weights.
pub open spec fn row_upto(ns: Seq<Seq<u8>>, max: u8, i: int, j: nat) -> Seq<(usize, u8)>
    decreases j,
{
    if j == 0 {
        Seq::empty()
    } else {
        let prev = row_upto(ns, max, i, (j - 1) as nat);
        let k = (j - 1) as int;
        if k != i && edge_weight(ns, i, k) <= max {
            prev.push((k as usize, edge_weight(ns, i, k) as u8))
        } else {
            prev
        }
    }
}

/// The entries of a neighbour row: valid, in strictly increasing index order,
/// and covering every neighbour below `j`.
proof fn lemma_row(ns: Seq<Seq<u8>>, max: u8, i: int, j: nat)
    requires
        j <= usize::MAX,
    ensures
        forall|e: int| 0 <= e < row_upto(ns, max, i, j).len() ==> {
            let k = (#[trigger] row_upto(ns, max, i, j)[e]).0 as int;
            &&& 0 <= k < j
            &&& k != i
            &&& edge_weight(ns, i, k) <= max
            &&& row_upto(ns, max, i, j)[e].1 == edge_weight(ns, i, k) as u8
        },
        forall|a: int, b: int| 0 <= a < b < row_upto(ns, max, i, j).len() ==>
            (#[trigger] row_upto(ns, max, i, j)[a]).0 < (#[trigger] row_upto(ns, max, i, j)[b]).0,
        forall|k: int| 0 <= k < j && k != i && edge_weight(ns, i, k) <= max ==>
            exists|e: int| 0 <= e < row_upto(ns, max, i, j).len() && (#[trigger] row_upto(ns, max, i, j)[e]).0 == k as usize,
    decreases j,
{
    if j > 0 {
        lemma_row(ns, max, i, (j - 1) as nat);
        let prev = row_upto(ns, max, i, (j - 1) as nat);
        let row = row_upto(ns, max, i, j);
        let k0 = (j - 1) as int;
        assert forall|k: int| 0 <= k < j && k != i && edge_weight(ns, i, k) <= max implies
            exists|e: int| 0 <= e < row.len() && (#[trigger] row[e]).0 == k as usize by {
            if k < k0 {
                let e = choose|e: int| 0 <= e < prev.len() && (#[trigger] prev[e]).0 == k as usize;
                assert(row[e] == prev[e]);
            } else {
                assert(row[prev.len() as int].0 == k as usize);
            }
        }
        assert forall|a: int, b: int| 0 <= a < b < row.len() implies (#[trigger] row[a]).0 < (#[trigger] row[b]).0 by {
            if b < prev.len() {
                assert(row[a] == prev[a]);
                assert(row[b] == prev[b]);
            } else {
                assert(row[a] == prev[a]);
            }
        }
        assert forall|e: int| 0 <= e < row.len() implies {
            let k = (#[trigger] row[e]).0 as int;
            &&& 0 <= k < j
            &&& k != i
            &&& edge_weight(ns, i, k) <= max
            &&& row[e].1 == edge_weight(ns, i, k) as u8
        } by {
            if e < prev.len() {
                assert(row[e] == prev[e]);
            }
        }
    }
}

/// Position of a chord with notes `notes` in `cs`, if any.
fn find_notes(cs: &Vec<Chord>, notes: &Vec<u8>) -> (r: Option<usize>)
    ensures
        match r {
            Some(i) => i < cs.len() && cs@[i as int].notes@ == notes@,
            None => forall|i: int| 0 <= i < cs.len() ==> (#[trigger] cs@[i]).notes@ != notes@,
        },
{
    let mut i: usize = 0;
    while i < cs.len()
        invariant
            0 <= i <= cs.len(),
            forall|k: int| 0 <= k < i ==> (#[trigger] cs@[k]).notes@ != notes@,
        decreases cs.len() - i,
    {
        if bytes_eq(&cs[i].notes, notes) {
            return Some(i);
        }
        i += 1;
    }
    None
}

/// Element-wise equality of two byte vectors.
fn bytes_eq(a: &Vec<u8>, b: &Vec<u8>) -> (r: bool)
    ensures
        r == (a@ == b@),
{
    if a.len() != b.len() {
        return false;
    }
    let mut i: usize = 0;
    while i < a.len()
        invariant
            a@.len() == b@.len(),
            0 <= i <= a.len(),
            forall|k: int| 0 <= k < i ==> a@[k] == b@[k],
        decreases a.len() - i,
    {
        if a[i] != b[i] {
            return false;
        }
        i += 1;
    }
    assert(a@ =~= b@);
    true
}

/// The chords of `types`, all transpositions, first chord of each pitch-class set.
fn build_chords(types: &Vec<(String, Vec<u8>)>) -> (cs: Vec<Chord>)
    requires
        types_valid(type_models(types@)),
    ensures
        chord_models(cs@) == all_chords(type_models(types@)),
        forall|i: int| 0 <= i < cs.len() ==> (#[trigger] cs@[i]).notes@.len() == type_models(types@)[0].1.len(),
        forall|i: int, k: int| 0 <= i < cs.len() && 0 <= k < cs@[i].notes@.len() ==> #[trigger] cs@[i].notes@[k] < 12,
        forall|i: int, j: int| 0 <= i < j < cs.len() ==> (#[trigger] cs@[i]).notes@ != (#[trigger] cs@[j]).notes@,
        forall|i: int| 0 <= i < cs.len() ==> (#[trigger] cs@[i]).root < 12,
{
    let ghost ts = type_models(types@);
    let mut cs: Vec<Chord> = Vec::new();
    let mut k: usize = 0;
    while k < types.len()
        invariant
            ts == type_models(types@),
            types_valid(ts),
            0 <= k <= types.len(),
            chord_models(cs@) == generated(ts, 12 * k as nat),
            forall|i: int| 0 <= i < cs.len() ==> (#[trigger] cs@[i]).notes@.len() == ts[0].1.len(),
            forall|i: int, q: int| 0 <= i < cs.len() && 0 <= q < cs@[i].notes@.len() ==> #[trigger] cs@[i].notes@[q] < 12,
            forall|i: int, j: int| 0 <= i < j < cs.len() ==> (#[trigger] cs@[i]).notes@ != (#[trigger] cs@[j]).notes@,
            forall|i: int| 0 <= i < cs.len() ==> (#[trigger] cs@[i]).root < 12,
        decreases types.len() - k,
    {
        let mut t: u8 = 0;
        while t < 12
            invariant
                ts == type_models(types@),
                types_valid(ts),
                0 <= k < types.len(),
                0 <= t <= 12,
                chord_models(cs@) == generated(ts, (12 * k + t) as nat),
                forall|i: int| 0 <= i < cs.len() ==> (#[trigger] cs@[i]).notes@.len() == ts[0].1.len(),
                forall|i: int, q: int| 0 <= i < cs.len() && 0 <= q < cs@[i].notes@.len() ==> #[trigger] cs@[i].notes@[q] < 12,
                forall|i: int, j: int| 0 <= i < j < cs.len() ==> (#[trigger] cs@[i]).notes@ != (#[trigger] cs@[j]).notes@,
                forall|i: int| 0 <= i < cs.len() ==> (#[trigger] cs@[i]).root < 12,
            decreases 12 - t,
        {
            let ghost m = (12 * k + t) as nat;
            let ghost prev = chord_models(cs@);
            assert(ts[k as int] == (types@[k as int].0@, types@[k as int].1@));
            assert forall|i: int| 0 <= i < types[k as int].1@.len() implies types[k as int].1@[i] + t <= 255 by {
                assert(ts[k as int].1[i] <= 244);
            }
            let notes = sorted_transposition(&types[k].1, t);
            assert((m + 1 - 1) as int / 12 == k as int);
            assert((m + 1 - 1) as int % 12 == t as int);
            assert(notes@ == chord_pcs(ts[k as int].1, t as int));
            match find_notes(&cs, &notes) {
                Some(i) => {
                    assert(prev[i as int].2 == notes@);
                    assert(has_notes(prev, notes@));
                }
                None => {
                    assert(!has_notes(prev, notes@)) by {
                        if has_notes(prev, notes@) {
                            let i = choose|i: int| 0 <= i < prev.len() && #[trigger] prev[i].2 == notes@;
                            assert(cs@[i].notes@ == notes@);
                        }
                    }
                    let c = Chord { root: t, kind_name: types[k].0.clone(), notes };
                    cs.push(c);
                    assert(chord_models(cs@) =~= prev.push((t, ts[k as int].0, chord_pcs(ts[k as int].1, t as int))));
                }
            }
            t += 1;
        }
        k += 1;
    }
    cs
}


/// The facts about a chord list that the graph relies on: one size, at most 42
/// voices, pitch classes within the octave, pairwise distinct pitch-class sets.
pub open spec fn chords_ok(cs: Seq<Chord>) -> bool {
    &&& forall|i: int, j: int| 0 <= i < cs.len() && 0 <= j < cs.len() ==>
        (#[trigger] cs[i]).notes@.len() == (#[trigger] cs[j]).notes@.len()
    &&& forall|i: int| 0 <= i < cs.len() ==> (#[trigger] cs[i]).notes@.len() <= 42
    &&& forall|i: int, k: int| 0 <= i < cs.len() && 0 <= k < cs[i].notes@.len() ==> #[trigger] cs[i].notes@[k] < 12
    &&& forall|i: int, j: int| 0 <= i < j < cs.len() ==> (#[trigger] cs[i]).notes@ != (#[trigger] cs[j]).notes@
    &&& forall|i: int| 0 <= i < cs.len() ==> (#[trigger] cs[i]).root < 12
}

/// Voice-leading distance between chords `i` and `j` of a chord list,
/// computed from the lower index to the higher.
fn pair_distance(cs: &Vec<Chord>, i: usize, j: usize) -> (d: u8)
    requires
        chords_ok(cs@),
        i < cs.len(),
        j < cs.len(),
    ensures
        d == edge_weight(notes_list(cs@), i as int, j as int),
{
    let ghost ns = notes_list(cs@);
    let (lo, hi) = if i < j { (i, j) } else { (j, i) };
    proof {
        lemma_vl_defined(cs@[lo as int].notes@, cs@[hi as int].notes@);
    }
    let d = voice_leading_distance(cs[lo].notes.as_slice(), cs[hi].notes.as_slice());
    proof {
        lemma_vl_dist_unique(cs@[lo as int].notes@, cs@[hi as int].notes@, d as int);
        assert(ns[lo as int] == cs@[lo as int].notes@);
        assert(ns[hi as int] == cs@[hi as int].notes@);
    }
    d
}

/// Adjacency rows: for each chord, its neighbours within `max` in index order.
fn build_adjacency(cs: &Vec<Chord>, max: u8) -> (adj: Vec<Vec<(usize, u8)>>)
    requires
        chords_ok(cs@),
    ensures
        adj.len() == cs.len(),
        forall|i: int| 0 <= i < cs.len() ==> (#[trigger] adj@[i])@ == row_upto(notes_list(cs@), max, i, cs.len() as nat),
{
    let ghost ns = notes_list(cs@);
    let n = cs.len();
    let mut adj: Vec<Vec<(usize, u8)>> = Vec::new();
    let mut i: usize = 0;
    while i < n
        invariant
            n == cs.len(),
            ns == notes_list(cs@),
            chords_ok(cs@),
            0 <= i <= n,
            adj.len() == i,
            forall|a: int| 0 <= a < i ==> (#[trigger] adj@[a])@ == row_upto(ns, max, a, n as nat),
        decreases n - i,
    {
        let mut row: Vec<(usize, u8)> = Vec::new();
        let mut j: usize = 0;
        while j < n
            invariant
                n == cs.len(),
                ns == notes_list(cs@),
                chords_ok(cs@),
                0 <= i < n,
                0 <= j <= n,
                row@ == row_upto(ns, max, i as int, j as nat),
            decreases n - j,
        {
            if j != i {
                let d = pair_distance(cs, i, j);
                if d <= max {
                    row.push((j, d));
                }
            }
            j += 1;
        }
        adj.push(row);
        i += 1;
    }
    adj
}

/// The first type at or after position `k` named `name`.
pub open spec fn first_named(ts: Seq<(Seq<char>, Seq<u8>)>, name: Seq<char>, k: int) -> Option<int>
    decreases ts.len() - k,
{
    if k < 0 || k >= ts.len() {
        None
    } else if ts[k].0 == name {
        Some(k)
    } else {
        first_named(ts, name, k + 1)
    }
}

/// Position of the first type named `name`, if any.
pub open spec fn type_index(ts: Seq<(Seq<char>, Seq<u8>)>, name: Seq<char>) -> Option<int> {
    first_named(ts, name, 0)
}

proof fn lemma_first_named_range(ts: Seq<(Seq<char>, Seq<u8>)>, name: Seq<char>, k: int)
    ensures
        first_named(ts, name, k) matches Some(j) ==> k <= j < ts.len() && ts[j].0 == name,
    decreases ts.len() - k,
{
    if 0 <= k < ts.len() && ts[k].0 != name {
        lemma_first_named_range(ts, name, k + 1);
    }
}

/// `find(root, name)` is defined: the named template, moved by `root`, fits in a byte.
pub open spec fn find_defined(ts: Seq<(Seq<char>, Seq<u8>)>, root: u8, name: Seq<char>) -> bool {
    match type_index(ts, name) {
        Some(k) => forall|i: int| 0 <= i < ts[k].1.len() ==> #[trigger] ts[k].1[i] + root <= 255,
        None => true,
    }
}

/// `d` passes the optional distance filter.
pub open spec fn within(max_dist: Option<u8>, d: int) -> bool {
    match max_dist {
        None => true,
        Some(m) => d <= m,
    }
}

/// Root and type reached by a neo-Riemannian operation (`P`, `L` or `R`)
/// from a major or minor triad.
pub open spec fn plr_target(root: u8, kind: Seq<char>, op: char) -> Option<(int, Seq<char>)> {
    if kind != "major"@ && kind != "minor"@ {
        None
    } else if op == 'P' {
        if kind == "major"@ { Some((root as int, "minor"@)) } else { Some((root as int, "major"@)) }
    } else if op == 'L' {
        if kind == "major"@ { Some(((root + 4) % 12, "minor"@)) } else { Some(((root + 8) % 12, "major"@)) }
    } else if op == 'R' {
        if kind == "major"@ { Some(((root + 9) % 12, "minor"@)) } else { Some(((root + 3) % 12, "major"@)) }
    } else {
        None
    }
}

// ─── Randomness ──────────────────────────────────────────────────────────────

#[verifier::external_type_specification]
#[verifier::external_body]
pub struct ExSmallRng(SmallRng);

/// `SmallRng::seed_from_u64` from the `rand` crate: a generator seeded from
/// `seed`. Nothing is stated of its state; the algorithm is not portable.
#[verifier::external_body]
fn seeded_rng(seed: u64) -> SmallRng {
    SmallRng::seed_from_u64(seed)
}

/// `Rng::random::<u32>` from the `rand` crate: the next value of the
/// generator. Any `u32` may come back; nothing is stated of it.
#[verifier::external_body]
fn next_u32(rng: &mut SmallRng) -> u32 {
    rng.random::<u32>()
}

proof fn lemma_contains_push<T>(s: Seq<T>, v: T, x: T)
    requires
        s.contains(x),
    ensures
        s.push(v).contains(x),
{
    let i = choose|i: int| 0 <= i < s.len() && s[i] == x;
    assert(s.push(v)[i] == x);
}

/// Number of hops of a queued breadth-first entry's path.
pub open spec fn level(entry: (usize, Vec<usize>)) -> int {
    entry.1@.len() - 1
}

/// Walks `u` and `w` of equal length agree before step `k` and `u` has the
/// lower position there.
pub open spec fn lex_at(u: Seq<usize>, w: Seq<usize>, k: int) -> bool {
    &&& u.len() == w.len()
    &&& 0 <= k < u.len()
    &&& u[k] < w[k]
    &&& forall|m: int| 0 <= m < k ==> u[m] == w[m]
}

/// `u` comes before `w` in dictionary order of positions.
pub open spec fn lex_lt(u: Seq<usize>, w: Seq<usize>) -> bool {
    exists|k: int| #[trigger] lex_at(u, w, k)
}

/// `u` is `w` or comes before it in dictionary order.
pub open spec fn lex_le(u: Seq<usize>, w: Seq<usize>) -> bool {
    u == w || lex_lt(u, w)
}

/// `u` has fewer steps than `w`, or as many and comes first in dictionary order.
pub open spec fn walk_before(u: Seq<usize>, w: Seq<usize>) -> bool {
    u.len() < w.len() || lex_lt(u, w)
}

proof fn lemma_lex_trans(a: Seq<usize>, b: Seq<usize>, c: Seq<usize>)
    requires
        lex_lt(a, b),
        lex_lt(b, c),
    ensures
        lex_lt(a, c),
{
    let i = choose|k: int| #[trigger] lex_at(a, b, k);
    let j = choose|k: int| #[trigger] lex_at(b, c, k);
    let m = if i < j { i } else { j };
    assert(lex_at(a, c, m));
}

proof fn lemma_lex_push(u: Seq<usize>, w: Seq<usize>, x: usize, y: usize)
    requires
        u.len() == w.len(),
        lex_lt(u, w) || (u == w && x < y),
    ensures
        lex_lt(u.push(x), w.push(y)),
{
    if lex_lt(u, w) {
        let k = choose|k: int| #[trigger] lex_at(u, w, k);
        assert(lex_at(u.push(x), w.push(y), k));
    } else {
        assert(lex_at(u.push(x), w.push(y), u.len() as int));
    }
}

proof fn lemma_walk_before_trans(a: Seq<usize>, b: Seq<usize>, c: Seq<usize>)
    requires
        walk_before(a, b),
        walk_before(b, c),
    ensures
        walk_before(a, c),
{
    if lex_lt(a, b) && lex_lt(b, c) {
        lemma_lex_trans(a, b, c);
    }
    if lex_lt(a, b) {
        let k = choose|k: int| #[trigger] lex_at(a, b, k);
    }
    if lex_lt(b, c) {
        let k = choose|k: int| #[trigger] lex_at(b, c, k);
    }
}

/// A copy of a list of positions.
fn copy_indices(v: &Vec<usize>) -> (r: Vec<usize>)
    ensures
        r@ == v@,
{
    let mut r: Vec<usize> = Vec::new();
    let mut i: usize = 0;
    while i < v.len()
        invariant
            0 <= i <= v.len(),
            r@ =~= v@.subrange(0, i as int),
        decreases v.len() - i,
    {
        r.push(v[i]);
        i += 1;
    }
    assert(r@ =~= v@);
    r
}

/// Some candidate leads to chord `j`.
pub open spec fn in_cands(cands: Seq<(usize, u8)>, j: int) -> bool {
    exists|y: int| 0 <= y < cands.len() && (#[trigger] cands[y]).0 == j
}

/// Some entry of `r` holds the chord `c`.
pub open spec fn listed(r: Seq<(&Chord, u8)>, c: Chord) -> bool {
    exists|p: int| 0 <= p < r.len() && *(#[trigger] r[p]).0 == c
}

/// Entries of `r` with weight at most `max`, in order.
pub open spec fn within_max(r: Seq<(usize, u8)>, max: u8) -> Seq<(usize, u8)>
    decreases r.len(),
{
    if r.len() == 0 {
        Seq::empty()
    } else {
        let rest = within_max(r.drop_last(), max);
        if r.last().1 <= max { rest.push(r.last()) } else { rest }
    }
}

/// Entries of `c` whose chord is not on `path`, in order.
pub open spec fn unvisited(c: Seq<(usize, u8)>, path: Seq<usize>) -> Seq<(usize, u8)>
    decreases c.len(),
{
    if c.len() == 0 {
        Seq::empty()
    } else {
        let rest = unvisited(c.drop_last(), path);
        if !path.contains(c.last().0) { rest.push(c.last()) } else { rest }
    }
}

// ─── Graph ───────────────────────────────────────────────────────────────────

/// A graph of chords connected by parsimonious voice leading.
pub struct VoiceLeadingGraph {
    pub chords: Vec<Chord>,
    adj: Vec<Vec<(usize, u8)>>,
    chord_types: Vec<(String, Vec<u8>)>,
    max_distance: u8,
}

impl VoiceLeadingGraph {
    /// The chords of the graph, in index order.
    pub closed spec fn chord_seq(self) -> Seq<Chord> {
        self.chords@
    }

    /// The largest voice-leading distance that makes an edge.
    pub closed spec fn max_dist(self) -> u8 {
        self.max_distance
    }

    /// The chord types the graph was built from.
    pub closed spec fn types(self) -> Seq<(Seq<char>, Seq<u8>)> {
        type_models(self.chord_types@)
    }

    /// Voice-leading weight between chords `i` and `j` of the graph.
    pub open spec fn weight(self, i: int, j: int) -> int {
        edge_weight(notes_list(self.chord_seq()), i, j)
    }

    /// Chords `i` and `j` are joined by an edge.
    pub open spec fn is_edge(self, i: int, j: int) -> bool {
        &&& 0 <= i < self.chord_seq().len()
        &&& 0 <= j < self.chord_seq().len()
        &&& i != j
        &&& self.weight(i, j) <= self.max_dist()
    }

    /// The graph's chords are exactly the deduplicated transpositions of its
    /// types, and its adjacency rows list the neighbours of each chord.
    pub closed spec fn wf(self) -> bool {
        &&& types_valid(self.types())
        &&& chord_models(self.chords@) == all_chords(self.types())
        &&& chords_ok(self.chords@)
        &&& self.adj.len() == self.chords.len()
        &&& forall|i: int| 0 <= i < self.chords.len() ==>
            (#[trigger] self.adj@[i])@ == row_upto(notes_list(self.chords@), self.max_distance, i, self.chords.len() as nat)
    }

    /// The adjacency row of chord `i` lists exactly its neighbours, in index
    /// order, each with its weight.
    proof fn lemma_adj_row(self, i: int)
        requires
            self.wf(),
            0 <= i < self.chords.len(),
        ensures
            forall|e: int| 0 <= e < self.adj@[i]@.len() ==> {
                let k = (#[trigger] self.adj@[i]@[e]).0 as int;
                &&& self.is_edge(i, k)
                &&& self.adj@[i]@[e].1 as int == self.weight(i, k)
            },
            forall|a: int, b: int| 0 <= a < b < self.adj@[i]@.len() ==>
                (#[trigger] self.adj@[i]@[a]).0 < (#[trigger] self.adj@[i]@[b]).0,
            forall|k: int| #[trigger] self.is_edge(i, k) ==>
                exists|e: int| 0 <= e < self.adj@[i]@.len() && (#[trigger] self.adj@[i]@[e]).0 == k as usize,
    {
        let ns = notes_list(self.chords@);
        lemma_row(ns, self.max_distance, i, self.chords.len() as nat);
        assert forall|e: int| 0 <= e < self.adj@[i]@.len() implies {
            let k = (#[trigger] self.adj@[i]@[e]).0 as int;
            &&& self.is_edge(i, k)
            &&& self.adj@[i]@[e].1 as int == self.weight(i, k)
        } by {
            let k = self.adj@[i]@[e].0 as int;
            lemma_vl_dist_nonneg(ns[i], ns[k]);
            lemma_vl_dist_nonneg(ns[k], ns[i]);
        }
    }

    /// Some chord of the graph has the pitch-class set `notes`.
    pub open spec fn holds_notes(self, notes: Seq<u8>) -> bool {
        exists|i: int| 0 <= i < self.chord_seq().len() && (#[trigger] self.chord_seq()[i]).notes@ == notes
    }

    /// Position of the chord with pitch-class set `notes`.
    pub open spec fn index_of_notes(self, notes: Seq<u8>) -> int {
        choose|i: int| 0 <= i < self.chord_seq().len() && (#[trigger] self.chord_seq()[i]).notes@ == notes
    }

    /// Label of chord `i` of the graph.
    pub open spec fn label_at(self, i: int) -> Seq<char> {
        chord_label(self.chord_seq()[i])
    }

    /// The chord `find(root, name)` returns: the named type's first template
    /// moved by `root`, looked up by pitch-class set.
    pub open spec fn find_spec(self, root: u8, name: Seq<char>) -> Option<Chord> {
        match type_index(self.types(), name) {
            None => None,
            Some(k) => {
                let notes = chord_pcs(self.types()[k].1, root as int);
                if self.holds_notes(notes) {
                    Some(self.chord_seq()[self.index_of_notes(notes)])
                } else {
                    None
                }
            },
        }
    }

    /// A neo-Riemannian operation is defined on `c`: the root arithmetic stays
    /// within a byte and the target chord can be looked up.
    #[verifier::opaque]
    pub open spec fn plr_defined(self, root: u8, kind: Seq<char>, op: char) -> bool {
        let major = kind == "major"@;
        let minor = kind == "minor"@;
        let step = if op == 'L' { if major { 4int } else { 8int } } else if op == 'R' { if major { 9int } else { 3int } } else { 0int };
        (major || minor) && (op == 'P' || op == 'L' || op == 'R') ==> {
            &&& root + step <= 255
            &&& plr_target(root, kind, op) matches Some((r, n)) ==> find_defined(self.types(), r as u8, n)
        }
    }

    /// The chord a neo-Riemannian operation leads to from `c`, if any.
    #[verifier::opaque]
    pub open spec fn plr_spec(self, root: u8, kind: Seq<char>, op: char) -> Option<Chord> {
        match plr_target(root, kind, op) {
            None => None,
            Some((r, n)) => self.find_spec(r as u8, n),
        }
    }

    /// The chord after `k` operations of an orbit from `start`, cycling
    /// through `ops`, or `None` once an operation fails.
    pub open spec fn orbit_state(self, start: Chord, ops: Seq<char>, k: nat) -> Option<Chord>
        decreases k,
    {
        if k == 0 {
            Some(start)
        } else {
            match self.orbit_state(start, ops, (k - 1) as nat) {
                None => None,
                Some(c) => self.plr_spec(c.root, c.kind_name@, ops[(k - 1) as int % ops.len() as int]),
            }
        }
    }

    /// `c` at distance `d` is a neighbour of chord `i` that passes the filter.
    pub open spec fn neighbor_entry(self, i: int, max_dist: Option<u8>, c: Chord, d: int) -> bool {
        exists|j: int| {
            &&& #[trigger] self.is_edge(i, j)
            &&& within(max_dist, self.weight(i, j))
            &&& c == self.chord_seq()[j]
            &&& d == self.weight(i, j)
        }
    }

    /// Order of neighbour entries `(chord index, distance)`: by distance, then by
    /// label, then by chord index.
    pub open spec fn entry_lt(self, a: (int, int), b: (int, int)) -> bool {
        ||| a.1 < b.1
        ||| a.1 == b.1 && text_lt(self.label_at(a.0), self.label_at(b.0))
        ||| a.1 == b.1 && self.label_at(a.0) == self.label_at(b.0) && a.0 < b.0
    }

    proof fn lemma_entry_lt_trans(self, a: (int, int), b: (int, int), c: (int, int))
        requires
            self.entry_lt(a, b),
            self.entry_lt(b, c),
        ensures
            self.entry_lt(a, c),
    {
        let (la, lb, lc) = (self.label_at(a.0), self.label_at(b.0), self.label_at(c.0));
        if a.1 == b.1 && b.1 == c.1 {
            if text_lt(la, lb) && text_lt(lb, lc) {
                lemma_text_lt_trans(la, lb, lc);
            }
        }
    }

    proof fn lemma_entry_lt_total(self, a: (int, int), b: (int, int))
        requires
            a.0 != b.0,
        ensures
            self.entry_lt(a, b) || self.entry_lt(b, a),
    {
        lemma_text_lt_total(self.label_at(a.0), self.label_at(b.0));
    }

    /// Chords are found again by their pitch-class set.
    proof fn lemma_index_of_notes(self, j: int)
        requires
            self.wf(),
            0 <= j < self.chord_seq().len(),
        ensures
            self.holds_notes(self.chord_seq()[j].notes@),
            self.index_of_notes(self.chord_seq()[j].notes@) == j,
    {
        let notes = self.chord_seq()[j].notes@;
        assert(self.chord_seq()[j].notes@ == notes);
        let i = self.index_of_notes(notes);
        if i != j {
            if i < j {
                assert(self.chords@[i].notes@ != self.chords@[j].notes@);
            } else {
                assert(self.chords@[j].notes@ != self.chords@[i].notes@);
            }
        }
    }

    fn entry_less(&self, a: (usize, u8), b: (usize, u8)) -> (r: bool)
        requires
            self.wf(),
            a.0 < self.chord_seq().len(),
            b.0 < self.chord_seq().len(),
        ensures
            r == self.entry_lt((a.0 as int, a.1 as int), (b.0 as int, b.1 as int)),
    {
        if a.1 != b.1 {
            return a.1 < b.1;
        }
        let la = self.chords[a.0].label();
        let lb = self.chords[b.0].label();
        if text_less(la.as_str(), lb.as_str()) {
            return true;
        }
        if text_eq(la.as_str(), lb.as_str()) {
            return a.0 < b.0;
        }
        false
    }

    /// The chords of the graph are every transposition of every type, one
    /// per pitch-class set: the sets are pairwise distinct, sorted and within
    /// the octave; every type moved by every root `0..12` has its set in the
    /// graph; and the chords come in first-occurrence order (type by type,
    /// root by root), each keeping the root and type name of the first pair
    /// that gave its set.
    pub proof fn law_chord_space(self)
        requires
            self.wf(),
        ensures
            forall|i: int, j: int| 0 <= i < j < self.chord_seq().len() ==>
                (#[trigger] self.chord_seq()[i]).notes@ != (#[trigger] self.chord_seq()[j]).notes@,
            forall|i: int| 0 <= i < self.chord_seq().len() ==> {
                let c = #[trigger] self.chord_seq()[i];
                &&& sorted_u8(c.notes@)
                &&& forall|k: int| 0 <= k < c.notes@.len() ==> c.notes@[k] < 12
                &&& c.root < 12
            },
            forall|k: int, r: int| 0 <= k < self.types().len() && 0 <= r < 12 ==>
                self.holds_notes(#[trigger] chord_pcs(self.types()[k].1, r)),
            exists|orig: Seq<int>| #[trigger] origins(self.types(), chord_models(self.chord_seq()), orig, 12 * self.types().len() as int),
    {
        let ts = self.types();
        let cs = self.chord_seq();
        let ms = chord_models(cs);
        assert(ms == all_chords(ts));
        let orig = lemma_generated(ts, 12 * ts.len());
        assert(origins(ts, ms, orig, 12 * ts.len() as int));
        assert forall|i: int, j: int| 0 <= i < j < cs.len() implies
            (#[trigger] cs[i]).notes@ != (#[trigger] cs[j]).notes@ by {
            assert(ms[i].2 == cs[i].notes@ && ms[j].2 == cs[j].notes@);
        }
        assert forall|i: int| 0 <= i < cs.len() implies {
            let c = #[trigger] cs[i];
            &&& sorted_u8(c.notes@)
            &&& forall|k: int| 0 <= k < c.notes@.len() ==> c.notes@[k] < 12
            &&& c.root < 12
        } by {
            assert(first_of_its_set(ts, ms, orig, i));
            let p = orig[i];
            assert(ms[i] == chord_model(cs[i]));
            assert(cs[i].notes@ == chord_pcs(ts[p / 12].1, p % 12));
            lemma_ascending_sorted(transposed(ts[p / 12].1, p % 12), 12);
            lemma_chord_pcs(ts[p / 12].1, p % 12);
            assert forall|k: int| 0 <= k < cs[i].notes@.len() implies cs[i].notes@[k] < 12 by {
                assert(chord_pcs(ts[p / 12].1, p % 12)[k] < 12);
            }
        }
        assert forall|k: int, r: int| 0 <= k < ts.len() && 0 <= r < 12 implies
            self.holds_notes(#[trigger] chord_pcs(ts[k].1, r)) by {
            let p = 12 * k + r;
            assert(p / 12 == k && p % 12 == r);
            assert(has_notes(ms, pair_chord(ts, p).2));
            let i = choose|i: int| 0 <= i < ms.len() && #[trigger] ms[i].2 == pair_chord(ts, p).2;
            assert(ms[i].2 == cs[i].notes@);
        }
    }

    /// In a triad graph, chord `i` for `i < 24` is pair `i`: the major triad
    /// on `i`, then the minor triad on `i - 12`.
    proof fn lemma_triad_graph(self, q: int)
        requires
            self.wf(),
            self.types() == triad_types_spec(),
            0 <= q < 24,
        ensures
            q < self.chord_seq().len(),
            chord_model(self.chord_seq()[q]) == pair_chord(triad_types_spec(), q),
            self.chord_seq()[q].notes@ == triad_pcs(q),
            self.holds_notes(triad_pcs(q)),
            self.index_of_notes(triad_pcs(q)) == q,
    {
        let ts = triad_types_spec();
        let cs = self.chord_seq();
        lemma_triad_generated(24);
        lemma_generated_prefix(ts, 24, 12 * ts.len());
        assert(chord_models(cs) == all_chords(ts));
        assert(generated(ts, 24)[q] == pair_chord(ts, q));
        assert(chord_models(cs)[q] == chord_model(cs[q]));
        lemma_triad_pcs(q);
        self.lemma_index_of_notes(q);
    }

    /// `find` in a triad graph: the major triad on `r` is chord `r`, the
    /// minor triad on `r` chord `12 + r`.
    proof fn lemma_triad_find(self, r: int)
        requires
            self.wf(),
            self.types() == triad_types_spec(),
            0 <= r < 12,
        ensures
            self.find_spec(r as u8, "major"@) == Some(self.chord_seq()[r]),
            self.find_spec(r as u8, "minor"@) == Some(self.chord_seq()[12 + r]),
    {
        let ts = triad_types_spec();
        reveal_strlit("major");
        reveal_strlit("minor");
        assert("major"@ != "minor"@) by {
            assert("major"@[1] != "minor"@[1]);
        }
        assert(type_index(ts, "major"@) == Some(0int));
        assert(first_named(ts, "minor"@, 1) == Some(1int));
        assert(type_index(ts, "minor"@) == Some(1int));
        self.lemma_triad_graph(r);
        self.lemma_triad_graph(12 + r);
        assert((12 + r) / 12 == 1 && (12 + r) % 12 == r);
        lemma_triad_pcs(r);
        lemma_triad_pcs(12 + r);
    }

    /// In a triad graph, a major chord sits at its root, a minor chord at
    /// 12 past it.
    proof fn lemma_triad_position(self, i: int)
        requires
            self.wf(),
            self.types() == triad_types_spec(),
            0 <= i < self.chord_seq().len(),
            self.chord_seq()[i].kind_name@ == "major"@ || self.chord_seq()[i].kind_name@ == "minor"@,
        ensures
            self.chord_seq()[i].root < 12,
            self.chord_seq()[i].kind_name@ == "major"@ ==> i == self.chord_seq()[i].root,
            self.chord_seq()[i].kind_name@ == "minor"@ ==> i == 12 + self.chord_seq()[i].root,
    {
        let ts = triad_types_spec();
        let cs = self.chord_seq();
        self.law_chord_space();
        let orig = choose|orig: Seq<int>| #[trigger] origins(ts, chord_models(cs), orig, 12 * ts.len() as int);
        assert(first_of_its_set(ts, chord_models(cs), orig, i));
        let p = orig[i];
        assert(chord_models(cs)[i] == chord_model(cs[i]));
        assert(0 <= p < 72);
        reveal_strlit("major");
        reveal_strlit("minor");
        reveal_strlit("augmented");
        reveal_strlit("diminished");
        reveal_strlit("sus2");
        reveal_strlit("sus4");
        assert("major"@ != "minor"@) by {
            assert("major"@[1] != "minor"@[1]);
        }
        let k = p / 12;
        assert(0 <= k < 6);
        assert(cs[i].kind_name@ == ts[k].0);
        if k >= 2 {
            assert(ts[k].0.len() != 5) by {
                if k == 2 {
                    assert(ts[2].0.len() == 9);
                } else if k == 3 {
                    assert(ts[3].0.len() == 10);
                } else if k == 4 {
                    assert(ts[4].0.len() == 4);
                } else {
                    assert(ts[5].0.len() == 4);
                }
            }
            assert("major"@.len() == 5 && "minor"@.len() == 5);
        }
        assert(p < 24);
        self.lemma_triad_graph(p);
        lemma_triad_pcs(p);
        if p != i {
            if p < i {
                assert(cs[p].notes@ != cs[i].notes@);
            } else {
                assert(cs[i].notes@ != cs[p].notes@);
            }
        }
    }

    /// In a triad graph an operation leads from chord `q < 24` to chord
    /// `plr_index(q, op)`.
    proof fn lemma_triad_plr(self, q: int, op: char)
        requires
            self.wf(),
            self.types() == triad_types_spec(),
            0 <= q < 24,
            op == 'P' || op == 'L' || op == 'R',
        ensures
            self.plr_spec(self.chord_seq()[q].root, self.chord_seq()[q].kind_name@, op)
                == Some(self.chord_seq()[plr_index(q, op)]),
    {
        reveal(VoiceLeadingGraph::plr_spec);
        let ts = triad_types_spec();
        let cs = self.chord_seq();
        reveal_strlit("major");
        reveal_strlit("minor");
        assert("major"@ != "minor"@) by {
            assert("major"@[1] != "minor"@[1]);
        }
        self.lemma_triad_graph(q);
        let r = q % 12;
        assert(cs[q].root == r);
        let j = plr_index(q, op);
        assert(0 <= j < 24);
        if q < 12 {
            assert(cs[q].kind_name@ == "major"@);
            assert(plr_target(cs[q].root, "major"@, op) == Some((j - 12, "minor"@)));
            self.lemma_triad_find(j - 12);
        } else {
            assert(cs[q].kind_name@ == "minor"@);
            assert(plr_target(cs[q].root, "minor"@, op) == Some((j, "major"@)));
            self.lemma_triad_find(j);
        }
    }

    /// Every operation on a chord of a triad graph can be carried out.
    proof fn lemma_triad_plr_defined(self, i: int, op: char)
        requires
            self.wf(),
            self.types() == triad_types_spec(),
            0 <= i < self.chord_seq().len(),
        ensures
            self.plr_defined(self.chord_seq()[i].root, self.chord_seq()[i].kind_name@, op),
    {
        reveal(VoiceLeadingGraph::plr_defined);
        let ts = triad_types_spec();
        let c = self.chord_seq()[i];
        let major = c.kind_name@ == "major"@;
        let minor = c.kind_name@ == "minor"@;
        if (major || minor) && (op == 'P' || op == 'L' || op == 'R') {
            self.lemma_triad_position(i);
            reveal_strlit("major");
            reveal_strlit("minor");
            assert("major"@ != "minor"@) by {
                assert("major"@[1] != "minor"@[1]);
            }
            assert(type_index(ts, "major"@) == Some(0int));
            assert(first_named(ts, "minor"@, 1) == Some(1int));
            assert(type_index(ts, "minor"@) == Some(1int));
            match plr_target(c.root, c.kind_name@, op) {
                Some((t, n)) => {
                    assert(0 <= t < 12);
                    assert(n == "major"@ || n == "minor"@);
                    assert(find_defined(ts, t as u8, n));
                },
                None => {},
            }
        }
    }

    /// P, L and R are involutions on the triads: in a triad graph each turns
    /// a major or minor chord into a chord of the other kind sharing two of
    /// its three pitch classes, and the same operation leads back. Any other
    /// chord type or operation gives nothing. Every operation on every chord
    /// of such a graph meets the requirement of `apply_plr`.
    pub proof fn law_plr_involution(self, i: int, op: char)
        requires
            self.wf(),
            self.types() == triad_types_spec(),
            0 <= i < self.chord_seq().len(),
        ensures
            ({
                let c = self.chord_seq()[i];
                let major = c.kind_name@ == "major"@;
                let minor = c.kind_name@ == "minor"@;
                &&& self.plr_defined(c.root, c.kind_name@, op)
                &&& (major || minor) && (op == 'P' || op == 'L' || op == 'R') ==>
                    (self.plr_spec(c.root, c.kind_name@, op) matches Some(r) && {
                        &&& self.plr_defined(r.root, r.kind_name@, op)
                        &&& r.kind_name@ == (if major { "minor"@ } else { "major"@ })
                        &&& common_count(c.notes@, r.notes@) == 2
                        &&& self.plr_spec(r.root, r.kind_name@, op) == Some(c)
                    })
                &&& !((major || minor) && (op == 'P' || op == 'L' || op == 'R')) ==>
                    self.plr_spec(c.root, c.kind_name@, op) is None
            }),
    {
        let cs = self.chord_seq();
        let c = cs[i];
        let major = c.kind_name@ == "major"@;
        let minor = c.kind_name@ == "minor"@;
        self.lemma_triad_plr_defined(i, op);
        if (major || minor) && (op == 'P' || op == 'L' || op == 'R') {
            self.lemma_triad_position(i);
            assert(i < 24);
            let j = plr_index(i, op);
            lemma_triad_shares(i, op);
            self.lemma_triad_plr(i, op);
            self.lemma_triad_plr(j, op);
            self.lemma_triad_graph(i);
            self.lemma_triad_graph(j);
            self.lemma_triad_plr_defined(j, op);
            reveal_strlit("major");
            reveal_strlit("minor");
            assert(cs[j].kind_name@ == (if major { "minor"@ } else { "major"@ })) by {
                if i < 12 {
                    assert(major);
                } else {
                    assert(minor);
                }
            }
        } else {
            reveal(VoiceLeadingGraph::plr_spec);
            assert(plr_target(c.root, c.kind_name@, op) is None);
        }
    }

    /// Number of chords `k < j` joined to chord `i` by an edge.
    pub open spec fn degree_upto(self, i: int, j: nat) -> nat
        decreases j,
    {
        if j == 0 {
            0
        } else {
            self.degree_upto(i, (j - 1) as nat) + if self.is_edge(i, j - 1) { 1nat } else { 0nat }
        }
    }

    /// Sum of the degrees of chords `0..i`.
    pub open spec fn degree_sum(self, i: nat) -> nat
        decreases i,
    {
        if i == 0 {
            0
        } else {
            self.degree_sum((i - 1) as nat) + self.degree_upto(i - 1, self.chord_seq().len())
        }
    }

    /// Number of edges: half the sum of the degrees.
    pub open spec fn edge_count(self) -> nat {
        self.degree_sum(self.chord_seq().len()) / 2
    }

    /// The graph as text: its numbers of chords and edges.
    pub open spec fn summary_text(self) -> Seq<char> {
        "VoiceLeadingGraph("@ + crate::patch::decimal(self.chord_seq().len()) + " chords, "@
            + crate::patch::decimal(self.edge_count()) + " edges)"@
    }

    proof fn lemma_row_len_upto(self, i: int, j: nat)
        requires
            self.wf(),
            0 <= i < self.chords.len(),
            j <= self.chords.len(),
        ensures
            row_upto(notes_list(self.chords@), self.max_distance, i, j).len() == self.degree_upto(i, j),
            self.degree_upto(i, j) <= j,
        decreases j,
    {
        if j > 0 {
            self.lemma_row_len_upto(i, (j - 1) as nat);
        }
    }

    /// The adjacency row of chord `i` has one entry per neighbour.
    proof fn lemma_row_len(self, i: int)
        requires
            self.wf(),
            0 <= i < self.chords.len(),
        ensures
            self.adj@[i]@.len() == self.degree_upto(i, self.chord_seq().len()),
            self.degree_upto(i, self.chord_seq().len()) <= self.chord_seq().len(),
    {
        self.lemma_row_len_upto(i, self.chords.len() as nat);
    }

    /// The graph as text, e.g. `VoiceLeadingGraph(48 chords, 120 edges)`.
    pub fn summary(&self) -> (r: String)
        requires
            self.wf(),
        ensures
            r@ == self.summary_text(),
    {
        let n = self.chords.len();
        let mut total: u128 = 0;
        let mut i: usize = 0;
        while i < n
            invariant
                self.wf(),
                n == self.chords.len(),
                0 <= i <= n,
                total == self.degree_sum(i as nat),
                total <= i * n,
            decreases n - i,
        {
            proof {
                self.lemma_row_len(i as int);
                assert((i + 1) * n <= n * n) by (nonlinear_arith)
                    requires
                        i + 1 <= n,
                ;
                assert(n * n <= 0xffff_ffff_ffff_ffffu128 * 0xffff_ffff_ffff_ffffu128) by (nonlinear_arith)
                    requires
                        n <= 0xffff_ffff_ffff_ffffu128,
                ;
                assert(total + n <= (i + 1) * n) by (nonlinear_arith)
                    requires
                        total <= i * n,
                ;
            }
            total = total + self.adj[i].len() as u128;
            i += 1;
        }
        let mut s = String::from_str("VoiceLeadingGraph(");
        crate::patch::append_decimal(&mut s, n as u128);
        s.append(" chords, ");
        crate::patch::append_decimal(&mut s, total / 2);
        s.append(" edges)");
        proof {
            assert(s@ =~= self.summary_text());
        }
        s
    }

    /// What a well-formed graph guarantees about its types and chords.
    pub proof fn lemma_wf(self)
        requires
            self.wf(),
        ensures
            types_valid(self.types()),
            chords_ok(self.chord_seq()),
            chord_models(self.chord_seq()) == all_chords(self.types()),
    {
    }

    /// Find a chord by root pitch class and type name.
    pub fn find(&self, root: u8, kind_name: &str) -> (r: Option<&Chord>)
        requires
            self.wf(),
            find_defined(self.types(), root, kind_name@),
        ensures
            match r {
                Some(c) => self.find_spec(root, kind_name@) == Some(*c),
                None => self.find_spec(root, kind_name@) is None,
            },
    {
        let ghost ts = self.types();
        let mut k: usize = 0;
        while k < self.chord_types.len()
            invariant
                ts == type_models(self.chord_types@),
                0 <= k <= self.chord_types.len(),
                type_index(ts, kind_name@) == first_named(ts, kind_name@, k as int),
            ensures
                0 <= k <= self.chord_types.len(),
                type_index(ts, kind_name@) == first_named(ts, kind_name@, k as int),
                k < self.chord_types.len() ==> ts[k as int].0 == kind_name@,
            decreases self.chord_types.len() - k,
        {
            assert(ts[k as int].0 == self.chord_types@[k as int].0@);
            if text_eq(self.chord_types[k].0.as_str(), kind_name) {
                break;
            }
            k += 1;
        }
        if k == self.chord_types.len() {
            return None;
        }
        proof {
            lemma_first_named_range(ts, kind_name@, 0);
            assert(ts[k as int].1 == self.chord_types@[k as int].1@);
        }
        let notes = sorted_transposition(&self.chord_types[k].1, root);
        assert(type_index(ts, kind_name@) == Some(k as int));
        assert(notes@ == chord_pcs(ts[k as int].1, root as int));
        match find_notes(&self.chords, &notes) {
            Some(i) => {
                assert(self.chord_seq()[i as int].notes@ == notes@);
                proof {
                    self.lemma_index_of_notes(i as int);
                }
                Some(&self.chords[i])
            },
            None => None,
        }
    }

    /// Get neighbors of a chord, optionally filtered by max distance.
    ///
    /// Neighbours come sorted by distance, then by label, then by position in
    /// the graph.
    pub fn neighbors(&self, chord: &Chord, max_dist: Option<u8>) -> (r: Vec<(&Chord, u8)>)
        requires
            self.wf(),
        ensures
            !self.holds_notes(chord.notes@) ==> r.len() == 0,
            self.holds_notes(chord.notes@) ==> {
                let i = self.index_of_notes(chord.notes@);
                &&& forall|p: int| 0 <= p < r.len() ==> self.neighbor_entry(i, max_dist, *(#[trigger] r@[p]).0, r@[p].1 as int)
                &&& forall|j: int| #[trigger] self.is_edge(i, j) && within(max_dist, self.weight(i, j)) ==>
                    listed(r@, self.chord_seq()[j])
                &&& forall|p: int, q: int| 0 <= p < q < r.len() ==> self.entry_lt(
                    (self.index_of_notes(r@[p].0.notes@), r@[p].1 as int),
                    (self.index_of_notes(r@[q].0.notes@), r@[q].1 as int),
                )
            },
    {
        let idx = match self.chord_idx(chord) {
            Some(i) => i,
            None => {
                return Vec::new();
            },
        };
        proof {
            self.lemma_adj_row(idx as int);
            self.lemma_index_of_notes(idx as int);
        }
        let ghost n = self.chords.len();
        let row = &self.adj[idx];
        let mut sorted: Vec<(usize, u8)> = Vec::new();
        let mut e: usize = 0;
        while e < row.len()
            invariant
                self.wf(),
                n == self.chords.len(),
                idx < n,
                row@ == self.adj@[idx as int]@,
                0 <= e <= row.len(),
                forall|x: int| 0 <= x < row@.len() ==> {
                    let k = (#[trigger] row@[x]).0 as int;
                    &&& self.is_edge(idx as int, k)
                    &&& row@[x].1 as int == self.weight(idx as int, k)
                },
                forall|a: int, b: int| 0 <= a < b < row@.len() ==> (#[trigger] row@[a]).0 < (#[trigger] row@[b]).0,
                forall|p: int| 0 <= p < sorted.len() ==>
                    row@.subrange(0, e as int).contains(#[trigger] sorted@[p]) && within(max_dist, sorted@[p].1 as int),
                forall|x: int| 0 <= x < e && within(max_dist, row@[x].1 as int) ==>
                    sorted@.contains(#[trigger] row@[x]),
                forall|p: int, q: int| 0 <= p < q < sorted.len() ==> self.entry_lt(
                    ((#[trigger] sorted@[p]).0 as int, sorted@[p].1 as int), ((#[trigger] sorted@[q]).0 as int, sorted@[q].1 as int)),
            decreases row.len() - e,
        {
            let entry = row[e];
            let keep = match max_dist {
                None => true,
                Some(m) => entry.1 <= m,
            };
            if keep {
                let mut pos: usize = 0;
                while pos < sorted.len() && self.entry_less(sorted[pos], entry)
                    invariant
                        self.wf(),
                        n == self.chords.len(),
                        0 <= pos <= sorted.len(),
                        entry.0 < n,
                        forall|p: int| 0 <= p < sorted.len() ==> (#[trigger] sorted@[p]).0 < n,
                        forall|p: int| 0 <= p < pos ==> self.entry_lt(
                            ((#[trigger] sorted@[p]).0 as int, sorted@[p].1 as int), (entry.0 as int, entry.1 as int)),
                    decreases sorted.len() - pos,
                {
                    pos += 1;
                }
                let ghost old = sorted@;
                proof {
                    assert forall|p: int| 0 <= p < old.len() implies (#[trigger] old[p]).0 < entry.0 by {
                        assert(row@.subrange(0, e as int).contains(old[p]));
                        let x = choose|x: int| 0 <= x < e && #[trigger] row@.subrange(0, e as int)[x] == old[p];
                        assert(row@[x].0 < row@[e as int].0);
                    }
                    if pos < old.len() {
                        self.lemma_entry_lt_total((old[pos as int].0 as int, old[pos as int].1 as int), (entry.0 as int, entry.1 as int));
                    }
                    assert forall|q: int| pos <= q < old.len() implies
                        self.entry_lt((entry.0 as int, entry.1 as int), ((#[trigger] old[q]).0 as int, old[q].1 as int)) by {
                        if q > pos {
                            self.lemma_entry_lt_trans((entry.0 as int, entry.1 as int),
                                (old[pos as int].0 as int, old[pos as int].1 as int), (old[q].0 as int, old[q].1 as int));
                        }
                    }
                }
                sorted.insert(pos, entry);
                proof {
                    old.insert_ensures(pos as int, entry);
                    assert forall|p: int, q: int| 0 <= p < q < sorted.len() implies self.entry_lt(
                        ((#[trigger] sorted@[p]).0 as int, sorted@[p].1 as int), ((#[trigger] sorted@[q]).0 as int, sorted@[q].1 as int)) by {
                        if q < pos {
                            assert(sorted@[p] == old[p] && sorted@[q] == old[q]);
                        } else if q == pos {
                            assert(sorted@[p] == old[p]);
                        } else if p < pos {
                            assert(sorted@[p] == old[p] && sorted@[q] == old[q - 1]);
                            self.lemma_entry_lt_trans((old[p].0 as int, old[p].1 as int), (entry.0 as int, entry.1 as int),
                                (old[q - 1].0 as int, old[q - 1].1 as int));
                        } else if p == pos {
                            assert(sorted@[q] == old[q - 1]);
                        } else {
                            assert(sorted@[p] == old[p - 1] && sorted@[q] == old[q - 1]);
                        }
                    }
                    assert forall|p: int| 0 <= p < sorted.len() implies
                        row@.subrange(0, e + 1).contains(#[trigger] sorted@[p]) && within(max_dist, sorted@[p].1 as int) by {
                        if p == pos {
                            assert(row@.subrange(0, e + 1)[e as int] == sorted@[p]);
                        } else {
                            let o = if p < pos { p } else { p - 1 };
                            assert(sorted@[p] == old[o]);
                            assert(row@.subrange(0, e as int).contains(old[o]));
                            let x = choose|x: int| 0 <= x < e && #[trigger] row@.subrange(0, e as int)[x] == old[o];
                            assert(row@.subrange(0, e + 1)[x] == sorted@[p]);
                        }
                    }
                    assert forall|x: int| 0 <= x < e + 1 && within(max_dist, row@[x].1 as int) implies
                        sorted@.contains(#[trigger] row@[x]) by {
                        if x == e {
                            assert(sorted@[pos as int] == row@[x]);
                        } else {
                            assert(old.contains(row@[x]));
                            let p = choose|p: int| 0 <= p < old.len() && #[trigger] old[p] == row@[x];
                            if p < pos {
                                assert(sorted@[p] == row@[x]);
                            } else {
                                assert(sorted@[p + 1] == row@[x]);
                            }
                        }
                    }
                }
            } else {
                proof {
                    assert forall|x: int| 0 <= x < e + 1 && within(max_dist, row@[x].1 as int) implies
                        sorted@.contains(#[trigger] row@[x]) by {
                        assert(x != e);
                    }
                    assert forall|p: int| 0 <= p < sorted.len() implies
                        row@.subrange(0, e + 1).contains(#[trigger] sorted@[p]) && within(max_dist, sorted@[p].1 as int) by {
                        assert(row@.subrange(0, e as int).contains(sorted@[p]));
                        let x = choose|x: int| 0 <= x < e && #[trigger] row@.subrange(0, e as int)[x] == sorted@[p];
                        assert(row@.subrange(0, e + 1)[x] == sorted@[p]);
                    }
                }
            }
            e += 1;
        }
        let mut result: Vec<(&Chord, u8)> = Vec::new();
        let mut p: usize = 0;
        while p < sorted.len()
            invariant
                self.wf(),
                n == self.chords.len(),
                0 <= p <= sorted.len(),
                result.len() == p,
                forall|q: int| 0 <= q < sorted.len() ==> (#[trigger] sorted@[q]).0 < n,
                forall|q: int| 0 <= q < p ==> *(#[trigger] result@[q]).0 == self.chord_seq()[sorted@[q].0 as int]
                    && result@[q].1 == sorted@[q].1,
            decreases sorted.len() - p,
        {
            result.push((&self.chords[sorted[p].0], sorted[p].1));
            p += 1;
        }
        proof {
            let i = self.index_of_notes(chord.notes@);
            assert(i == idx);
            assert forall|q: int| 0 <= q < result.len() implies
                self.index_of_notes(result@[q].0.notes@) == sorted@[q].0 as int by {
                self.lemma_index_of_notes(sorted@[q].0 as int);
            }
            assert forall|pp: int| 0 <= pp < result.len() implies
                self.neighbor_entry(i, max_dist, *(#[trigger] result@[pp]).0, result@[pp].1 as int) by {
                assert(row@.subrange(0, row@.len() as int).contains(sorted@[pp]));
                let x = choose|x: int| 0 <= x < row@.len() && #[trigger] row@.subrange(0, row@.len() as int)[x] == sorted@[pp];
                assert(row@[x] == sorted@[pp]);
                let j = sorted@[pp].0 as int;
                assert(self.is_edge(i, j));
            }
            assert forall|j: int| #[trigger] self.is_edge(i, j) && within(max_dist, self.weight(i, j)) implies
                listed(result@, self.chord_seq()[j]) by {
                let x = choose|x: int| 0 <= x < row@.len() && (#[trigger] row@[x]).0 == j as usize;
                assert(sorted@.contains(row@[x]));
                let pp = choose|pp: int| 0 <= pp < sorted.len() && #[trigger] sorted@[pp] == row@[x];
                assert(*result@[pp].0 == self.chord_seq()[j]);
            }
        }
        result
    }

    /// A copy of the chord `find(root, name)` returns.
    fn find_copy(&self, root: u8, name: &str) -> (r: Option<Chord>)
        requires
            self.wf(),
            find_defined(self.types(), root, name@),
        ensures
            r is None <==> self.find_spec(root, name@) is None,
            r matches Some(x) ==> same_chord(x, self.find_spec(root, name@)->0),
    {
        match self.find(root, name) {
            Some(c) => Some(copy_chord(c)),
            None => None,
        }
    }

    /// Apply one neo-Riemannian operation: `P` (parallel), `L` (leading-tone
    /// exchange) or `R` (relative). Only major and minor triads move.
    pub fn apply_plr(&self, chord: &Chord, op: char) -> (r: Option<Chord>)
        requires
            self.wf(),
            self.plr_defined(chord.root, chord.kind_name@, op),
        ensures
            r is None <==> self.plr_spec(chord.root, chord.kind_name@, op) is None,
            r matches Some(x) ==> same_chord(x, self.plr_spec(chord.root, chord.kind_name@, op)->0),
    {
        reveal(VoiceLeadingGraph::plr_defined);
        reveal(VoiceLeadingGraph::plr_spec);
        let r = chord.root;
        let q = type_of(chord);
        let major = text_eq(q, "major");
        let minor = text_eq(q, "minor");
        if !major && !minor {
            return None;
        }
        if op == 'P' {
            if major { self.find_copy(r, "minor") } else { self.find_copy(r, "major") }
        } else if op == 'L' {
            if major { self.find_copy((r + 4) % 12, "minor") } else { self.find_copy((r + 8) % 12, "major") }
        } else if op == 'R' {
            if major { self.find_copy((r + 9) % 12, "minor") } else { self.find_copy((r + 3) % 12, "major") }
        } else {
            None
        }
    }

    /// Chords of the graph can take every neo-Riemannian operation.
    proof fn lemma_plr_defined_in_graph(self, i: int, op: char)
        requires
            self.wf(),
            0 <= i < self.chord_seq().len(),
        ensures
            self.plr_defined(self.chord_seq()[i].root, self.chord_seq()[i].kind_name@, op),
    {
        reveal(VoiceLeadingGraph::plr_defined);
        let c = self.chord_seq()[i];
        let ts = self.types();
        assert(c.root < 12);
        if let Some((r, n)) = plr_target(c.root, c.kind_name@, op) {
            assert(0 <= r < 12);
            if let Some(k) = type_index(ts, n) {
                lemma_first_named_range(ts, n, 0);
                assert forall|j: int| 0 <= j < ts[k].1.len() implies #[trigger] ts[k].1[j] + (r as u8) <= 255 by {
                    assert(ts[k].1[j] <= 244);
                }
            }
        }
    }

    /// The chords an orbit reaches after its start belong to the graph.
    proof fn lemma_orbit_state_in_graph(self, start: Chord, ops: Seq<char>, k: nat)
        requires
            self.wf(),
            k > 0,
            self.orbit_state(start, ops, k) is Some,
        ensures
            exists|i: int| 0 <= i < self.chord_seq().len() && self.chord_seq()[i] == self.orbit_state(start, ops, k)->0,
    {
        reveal(VoiceLeadingGraph::plr_spec);
        let c = self.orbit_state(start, ops, (k - 1) as nat)->0;
        let op = ops[(k - 1) as int % ops.len() as int];
        let (r, n) = plr_target(c.root, c.kind_name@, op)->0;
        let notes = chord_pcs(self.types()[type_index(self.types(), n)->0].1, r as u8 as int);
        let i = self.index_of_notes(notes);
        assert(self.chord_seq()[i] == self.orbit_state(start, ops, k)->0);
    }

    /// Each chord of `path` agrees with the orbit state at its position.
    pub open spec fn orbit_prefix(self, start: Chord, ops: Seq<char>, path: Seq<Chord>) -> bool {
        forall|k: int| 0 <= k < path.len() ==> self.state_matches(start, ops, k, #[trigger] path[k])
    }

    /// The orbit from `start` has a chord at step `k`, and it agrees with `c`.
    pub open spec fn state_matches(self, start: Chord, ops: Seq<char>, k: int, c: Chord) -> bool {
        &&& k >= 0
        &&& self.orbit_state(start, ops, k as nat) is Some
        &&& same_chord(c, self.orbit_state(start, ops, k as nat)->0)
    }

    proof fn lemma_orbit_prefix_push(self, start: Chord, ops: Seq<char>, old: Seq<Chord>, c: Chord)
        requires
            self.orbit_prefix(start, ops, old),
            self.orbit_state(start, ops, old.len()) is Some,
            same_chord(c, self.orbit_state(start, ops, old.len())->0),
        ensures
            self.orbit_prefix(start, ops, old.push(c)),
    {
        let p = old.push(c);
        assert forall|q: int| 0 <= q < p.len() implies self.state_matches(start, ops, q, #[trigger] p[q]) by {
            if q < old.len() {
                assert(p[q] == old[q]);
            }
        }
    }

    /// One more step of an orbit from a chord that agrees with its current state.
    proof fn lemma_orbit_next(self, start: Chord, ops: Seq<char>, k: nat, cur: Chord)
        requires
            self.wf(),
            ops.len() > 0,
            self.orbit_state(start, ops, k) is Some,
            same_chord(cur, self.orbit_state(start, ops, k)->0),
            k == 0 ==> self.plr_defined(start.root, start.kind_name@, ops[0]),
        ensures
            self.plr_defined(cur.root, cur.kind_name@, ops[k as int % ops.len() as int]),
            self.orbit_state(start, ops, k + 1) == self.plr_spec(cur.root, cur.kind_name@, ops[k as int % ops.len() as int]),
    {
        let st = self.orbit_state(start, ops, k)->0;
        let op = ops[k as int % ops.len() as int];
        assert(cur.root == st.root && cur.kind_name@ == st.kind_name@);
        if k == 0 {
            assert(0int % (ops.len() as int) == 0);
        } else {
            self.lemma_orbit_state_in_graph(start, ops, k);
            let i = choose|i: int| 0 <= i < self.chord_seq().len() && self.chord_seq()[i] == st;
            self.lemma_plr_defined_in_graph(i, op);
        }
        assert(cur.root == st.root && cur.kind_name@ == st.kind_name@);
    }

    /// Apply PLR operations cyclically until the orbit returns to start.
    /// Only works for triads.
    #[verifier::spinoff_prover]
    pub fn orbit(&self, start: &Chord, operations: &[char], max_iterations: usize) -> (path: Vec<Chord>)
        requires
            self.wf(),
            max_iterations > 0 && operations@.len() > 0 ==> self.plr_defined(start.root, start.kind_name@, operations@[0]),
        ensures
            path.len() >= 1,
            path.len() - 1 <= max_iterations * operations@.len(),
            self.orbit_prefix(*start, operations@, path@),
            ({
                let last = path.len() - 1;
                ||| last == max_iterations * operations@.len()
                ||| self.orbit_state(*start, operations@, path.len() as nat) is None
                ||| last >= 1 && same_chord(path@[last], *start)
            }),
            forall|k: int| 1 <= k < path.len() - 1 ==> !same_chord(#[trigger] path@[k], *start),
    {
        let ghost ops = operations@;
        let len = operations.len();
        let mut path: Vec<Chord> = Vec::new();
        path.push(copy_chord(start));
        let mut current = copy_chord(start);
        let ghost mut base: int = 0;
        let mut it: usize = 0;
        while it < max_iterations
            invariant
                self.wf(),
                ops == operations@,
                len == ops.len(),
                0 <= it <= max_iterations,
                base == it * len,
                path.len() == base + 1,
                same_chord(current, path@[path.len() - 1]),
                self.orbit_prefix(*start, ops, path@),
                forall|k: int| 1 <= k < path.len() ==> !same_chord(#[trigger] path@[k], *start),
                max_iterations > 0 && len > 0 ==> self.plr_defined(start.root, start.kind_name@, ops[0]),
            decreases max_iterations - it,
        {
            let mut oi: usize = 0;
            while oi < len
                invariant
                    self.wf(),
                    ops == operations@,
                    len == ops.len(),
                    0 <= it < max_iterations,
                    0 <= oi <= len,
                    base == it * len,
                    path.len() == base + oi + 1,
                    same_chord(current, path@[path.len() - 1]),
                    self.orbit_prefix(*start, ops, path@),
                    forall|k: int| 1 <= k < path.len() ==> !same_chord(#[trigger] path@[k], *start),
                    max_iterations > 0 && len > 0 ==> self.plr_defined(start.root, start.kind_name@, ops[0]),
                decreases len - oi,
            {
                proof {
                    vstd::arithmetic::mul::lemma_mul_inequality(it as int + 1, max_iterations as int, len as int);
                    lemma_next_multiple(it as int, len as int);
                    lemma_cycle_index(it as int, len as int, oi as int);
                    self.lemma_orbit_next(*start, ops, (path.len() - 1) as nat, current);
                }
                let next = match self.apply_plr(&current, operations[oi]) {
                    Some(c) => c,
                    None => {
                        return path;
                    },
                };
                let back = same_chord_exec(&next, start);
                let ghost old_path = path@;
                path.push(copy_chord(&next));
                proof {
                    let kk = old_path.len() as int;
                    assert(kk - 1 == it * len + oi);
                    assert(self.orbit_state(*start, ops, kk as nat) == self.plr_spec(current.root, current.kind_name@, ops[oi as int]));
                    self.lemma_orbit_prefix_push(*start, ops, old_path, path@[kk]);
                    assert(path@ =~= old_path.push(path@[kk]));
                }
                current = next;
                if back {
                    return path;
                }
                oi += 1;
            }
            proof {
                lemma_next_multiple(it as int, len as int);
                base = base + len;
            }
            it += 1;
        }
        path
    }

    /// Position in the graph of a chord, found by its pitch-class set.
    pub open spec fn node(self, c: Chord) -> int {
        self.index_of_notes(c.notes@)
    }

    /// Step `k` of `w` is a graph chord, found again by its pitch-class set.
    pub open spec fn walk_member(self, w: Seq<Chord>, k: int) -> bool {
        &&& self.holds_notes(w[k].notes@)
        &&& same_chord(w[k], self.chord_seq()[self.node(w[k])])
    }

    /// Steps `k` and `k + 1` of `w` are joined by an edge of weight at most `max`.
    pub open spec fn walk_step(self, w: Seq<Chord>, max: u8, k: int) -> bool {
        &&& self.is_edge(self.node(w[k]), self.node(w[k + 1]))
        &&& self.weight(self.node(w[k]), self.node(w[k + 1])) <= max
    }

    /// `w` walks along edges of weight at most `max`.
    pub open spec fn is_walk(self, w: Seq<Chord>, max: u8) -> bool {
        &&& forall|k: int| 0 <= k < w.len() ==> #[trigger] self.walk_member(w, k)
        &&& forall|k: int| 0 <= k < w.len() - 1 ==> #[trigger] self.walk_step(w, max, k)
    }

    /// Chord `i` has no edge of weight at most `max`.
    pub open spec fn stuck(self, i: int, max: u8) -> bool {
        forall|j: int| #[trigger] self.is_edge(i, j) ==> self.weight(i, j) > max
    }

    /// Chord `j` occurs among the first `k + 1` steps of `w`.
    pub open spec fn seen_by(self, w: Seq<Chord>, k: int, j: int) -> bool {
        exists|m: int| 0 <= m <= k && #[trigger] self.node(w[m]) == j
    }

    /// Some neighbour of step `k` within `max` is still unvisited.
    pub open spec fn fresh_available(self, w: Seq<Chord>, max: u8, k: int) -> bool {
        exists|j: int| #[trigger] self.is_edge(self.node(w[k]), j) && self.weight(self.node(w[k]), j) <= max && !self.seen_by(w, k, j)
    }

    /// Step `k + 1` of `w` avoids revisiting whenever an unvisited neighbour exists.
    pub open spec fn fresh_choice(self, w: Seq<Chord>, max: u8, k: int) -> bool {
        self.fresh_available(w, max, k) ==> !self.seen_by(w, k, self.node(w[k + 1]))
    }

    /// Steps `m` and `m + 1` of the index walk `p` are joined by an edge of
    /// weight at most `max`.
    pub open spec fn idx_step(self, p: Seq<usize>, max: u8, m: int) -> bool {
        &&& self.is_edge(p[m] as int, p[m + 1] as int)
        &&& self.weight(p[m] as int, p[m + 1] as int) <= max
    }

    /// Step `m + 1` of the index walk `p` avoids the visited chords whenever a
    /// neighbour within `max` is unvisited.
    pub open spec fn idx_fresh(self, p: Seq<usize>, max: u8, m: int) -> bool {
        (exists|j: int| #[trigger] self.is_edge(p[m] as int, j) && self.weight(p[m] as int, j) <= max
            && !p.take(m + 1).contains(j as usize))
        ==> !p.take(m + 1).contains(p[m + 1])
    }

    /// `c` is a neighbour of `cur` with its weight, within `max`.
    pub open spec fn cand_ok(self, cur: int, max: u8, c: (usize, u8)) -> bool {
        &&& self.is_edge(cur, c.0 as int)
        &&& c.1 as int == self.weight(cur, c.0 as int)
        &&& c.1 <= max
    }

    /// The adjacency row of chord `i`: its neighbours in index order, each
    /// with its weight.
    pub open spec fn row(self, i: int) -> Seq<(usize, u8)> {
        row_upto(notes_list(self.chord_seq()), self.max_dist(), i, self.chord_seq().len())
    }

    /// The chord a walk along `path` moves to next, given the random value
    /// `draw`: among the neighbours of the last chord within `max` (in index
    /// order), or, with `avoid`, among those not yet on the path when there
    /// are any, the one at position `draw` modulo their number. `None` when
    /// the last chord has no neighbour within `max`.
    pub open spec fn next_choice(self, path: Seq<usize>, draw: u32, max: u8, avoid: bool) -> Option<usize> {
        let cands = within_max(self.row(path.last() as int), max);
        if cands.len() == 0 {
            None
        } else {
            let fresh = unvisited(cands, path);
            let pool = if avoid && fresh.len() > 0 { fresh } else { cands };
            Some(pool[(draw as int) % (pool.len() as int)].0)
        }
    }

    /// The walk from chord `si` driven by the random values `draws`, one per
    /// step, stopping for good at the first chord with no neighbour within
    /// `max`.
    pub open spec fn walk_spec(self, si: int, draws: Seq<u32>, max: u8, avoid: bool) -> Seq<usize>
        decreases draws.len(),
    {
        if draws.len() == 0 {
            seq![si as usize]
        } else {
            let prev = self.walk_spec(si, draws.drop_last(), max, avoid);
            if prev.len() < draws.len() {
                prev
            } else {
                match self.next_choice(prev, draws.last(), max, avoid) {
                    None => prev,
                    Some(j) => prev.push(j),
                }
            }
        }
    }

    /// Once a walk is stuck, further random values leave it as it is.
    proof fn lemma_walk_spec_stuck(self, si: int, d: Seq<u32>, e: Seq<u32>, max: u8, avoid: bool)
        requires
            self.walk_spec(si, d, max, avoid).len() == d.len() + 1,
            forall|x: u32| #[trigger] self.next_choice(self.walk_spec(si, d, max, avoid), x, max, avoid) is None,
        ensures
            self.walk_spec(si, d + e, max, avoid) == self.walk_spec(si, d, max, avoid),
        decreases e.len(),
    {
        if e.len() == 0 {
            assert(d + e =~= d);
        } else {
            let e1 = e.drop_last();
            self.lemma_walk_spec_stuck(si, d, e1, max, avoid);
            assert((d + e).drop_last() =~= d + e1);
            assert((d + e).last() == e.last());
            assert(self.next_choice(self.walk_spec(si, d, max, avoid), e.last(), max, avoid) is None);
        }
    }

    /// The next chord of a walk: see `next_choice`. `visited` marks the
    /// chords on `path`.
    fn next_in_walk(&self, path: &Vec<usize>, visited: &Vec<bool>, draw: u32, max_dist: u8, avoid_revisit: bool) -> (r: Option<usize>)
        requires
            self.wf(),
            path.len() >= 1,
            visited.len() == self.chord_seq().len(),
            forall|m: int| 0 <= m < path.len() ==> #[trigger] path@[m] < self.chord_seq().len(),
            forall|j: int| 0 <= j < visited.len() ==> (visited@[j] <==> path@.contains(j as usize)),
        ensures
            r == self.next_choice(path@, draw, max_dist, avoid_revisit),
            r is None ==> self.stuck(path@.last() as int, max_dist),
            r matches Some(j) ==> {
                &&& j < self.chord_seq().len()
                &&& self.is_edge(path@.last() as int, j as int)
                &&& self.weight(path@.last() as int, j as int) <= max_dist
                &&& avoid_revisit && (exists|k: int| #[trigger] self.is_edge(path@.last() as int, k)
                    && self.weight(path@.last() as int, k) <= max_dist && !path@.contains(k as usize))
                    ==> !path@.contains(j)
            },
    {
        let n = self.chords.len();
        let current = path[path.len() - 1];
        proof {
            self.lemma_adj_row(current as int);
        }
        let row = &self.adj[current];
        let mut cands: Vec<(usize, u8)> = Vec::new();
        let mut e: usize = 0;
        while e < row.len()
            invariant
                self.wf(),
                n == self.chords.len(),
                current < n,
                row@ == self.adj@[current as int]@,
                0 <= e <= row.len(),
                forall|x: int| 0 <= x < row@.len() ==> {
                    let k = (#[trigger] row@[x]).0 as int;
                    &&& self.is_edge(current as int, k)
                    &&& row@[x].1 as int == self.weight(current as int, k)
                },
                cands@ == within_max(row@.take(e as int), max_dist),
                forall|x: int| 0 <= x < cands.len() ==> self.cand_ok(current as int, max_dist, #[trigger] cands@[x]),
                forall|x: int| 0 <= x < e && row@[x].1 <= max_dist ==> cands@.contains(#[trigger] row@[x]),
            decreases row.len() - e,
        {
            let ghost old = cands@;
            if row[e].1 <= max_dist {
                cands.push(row[e]);
                proof {
                    assert(cands@[old.len() as int] == row@[e as int]);
                    assert forall|x: int| 0 <= x < e && row@[x].1 <= max_dist implies cands@.contains(#[trigger] row@[x]) by {
                        lemma_contains_push(old, row@[e as int], row@[x]);
                    }
                }
            }
            proof {
                assert(row@.take(e + 1).drop_last() =~= row@.take(e as int));
                assert(row@.take(e + 1).last() == row@[e as int]);
            }
            e += 1;
        }
        proof {
            assert(row@.take(row.len() as int) =~= row@);
            assert(row@ == self.row(current as int));
            assert forall|j: int| #[trigger] self.is_edge(current as int, j) && self.weight(current as int, j) <= max_dist implies
                in_cands(cands@, j) by {
                let x = choose|x: int| 0 <= x < row@.len() && (#[trigger] row@[x]).0 == j as usize;
                assert(cands@.contains(row@[x]));
                let y = choose|y: int| 0 <= y < cands@.len() && cands@[y] == row@[x];
                assert(cands@[y].0 == j);
            }
        }
        if cands.len() == 0 {
            proof {
                assert forall|j: int| #[trigger] self.is_edge(current as int, j) implies self.weight(current as int, j) > max_dist by {
                    if self.weight(current as int, j) <= max_dist {
                        assert(in_cands(cands@, j));
                    }
                }
            }
            return None;
        }
        let mut fresh: Vec<(usize, u8)> = Vec::new();
        let mut x: usize = 0;
        while x < cands.len()
            invariant
                self.wf(),
                n == self.chords.len(),
                current < n,
                visited.len() == n,
                forall|j: int| 0 <= j < visited.len() ==> (visited@[j] <==> path@.contains(j as usize)),
                0 <= x <= cands.len(),
                forall|y: int| 0 <= y < cands.len() ==> self.cand_ok(current as int, max_dist, #[trigger] cands@[y]),
                fresh@ == unvisited(cands@.take(x as int), path@),
                forall|y: int| 0 <= y < fresh.len() ==> self.cand_ok(current as int, max_dist, #[trigger] fresh@[y])
                    && !visited@[fresh@[y].0 as int],
                forall|y: int| 0 <= y < x && !visited@[cands@[y].0 as int] ==> fresh@.contains(#[trigger] cands@[y]),
            decreases cands.len() - x,
        {
            let ghost old = fresh@;
            let c = cands[x];
            assert(self.cand_ok(current as int, max_dist, c));
            if !visited[c.0] {
                fresh.push(c);
                proof {
                    assert(fresh@[old.len() as int] == c);
                    assert forall|y: int| 0 <= y < x && !visited@[cands@[y].0 as int] implies fresh@.contains(#[trigger] cands@[y]) by {
                        lemma_contains_push(old, c, cands@[y]);
                    }
                }
            }
            proof {
                assert(cands@.take(x + 1).drop_last() =~= cands@.take(x as int));
                assert(cands@.take(x + 1).last() == c);
                assert(visited@[c.0 as int] <==> path@.contains(c.0));
            }
            x += 1;
        }
        proof {
            assert(cands@.take(cands.len() as int) =~= cands@);
        }
        let use_fresh = avoid_revisit && fresh.len() > 0;
        let pool = if use_fresh { &fresh } else { &cands };
        let pick = (draw as usize) % pool.len();
        let next = pool[pick].0;
        proof {
            assert(self.cand_ok(current as int, max_dist, pool@[pick as int]));
            if avoid_revisit && (exists|k: int| #[trigger] self.is_edge(current as int, k)
                && self.weight(current as int, k) <= max_dist && !path@.contains(k as usize)) {
                let k = choose|k: int| #[trigger] self.is_edge(current as int, k)
                    && self.weight(current as int, k) <= max_dist && !path@.contains(k as usize);
                assert(in_cands(cands@, k));
                let y = choose|y: int| 0 <= y < cands@.len() && (#[trigger] cands@[y]).0 == k;
                assert(!visited@[k]);
                assert(fresh@.contains(cands@[y]));
                assert(use_fresh);
                assert(!visited@[next as int]);
            }
        }
        Some(next)
    }

    /// The walk driven by the given random values: see `walk_spec`. A chord
    /// not in the graph is returned alone.
    pub fn walk_with_draws(&self, start: &Chord, draws: &Vec<u32>, max_dist: u8, avoid_revisit: bool) -> (r: Vec<Chord>)
        requires
            self.wf(),
        ensures
            !self.holds_notes(start.notes@) ==> r.len() == 1 && same_chord(r@[0], *start),
            self.holds_notes(start.notes@) ==> {
                let w = self.walk_spec(self.node(*start), draws@, max_dist, avoid_revisit);
                &&& r.len() == w.len()
                &&& forall|k: int| 0 <= k < r.len() ==> same_chord(#[trigger] r@[k], self.chord_seq()[w[k] as int])
            },
    {
        let si = match self.chord_idx(start) {
            Some(i) => i,
            None => {
                let mut alone: Vec<Chord> = Vec::new();
                alone.push(copy_chord(start));
                return alone;
            },
        };
        proof {
            self.lemma_index_of_notes(si as int);
        }
        let n = self.chords.len();
        let mut visited: Vec<bool> = Vec::new();
        let mut v: usize = 0;
        while v < n
            invariant
                0 <= v <= n,
                visited.len() == v,
                forall|j: int| 0 <= j < v ==> visited@[j] == (j == si),
            decreases n - v,
        {
            visited.push(v == si);
            v += 1;
        }
        let mut path: Vec<usize> = Vec::new();
        path.push(si);
        proof {
            assert forall|j: int| 0 <= j < n implies (visited@[j] <==> path@.contains(j as usize)) by {
                if path@.contains(j as usize) {
                    let m = choose|m: int| 0 <= m < path@.len() && path@[m] == j as usize;
                    assert(m == 0);
                }
                if j == si {
                    assert(path@[0] == j as usize);
                }
            }
            assert(path@ == self.walk_spec(si as int, draws@.take(0), max_dist, avoid_revisit));
        }
        let mut step: usize = 0;
        while step < draws.len()
            invariant_except_break
                path.len() == step + 1,
            invariant
                self.wf(),
                n == self.chords.len(),
                si < n,
                0 <= step <= draws.len(),
                path.len() >= 1,
                visited.len() == n,
                forall|m: int| 0 <= m < path.len() ==> #[trigger] path@[m] < n,
                forall|j: int| 0 <= j < n ==> (visited@[j] <==> path@.contains(j as usize)),
                path@ == self.walk_spec(si as int, draws@.take(step as int), max_dist, avoid_revisit),
                draws@.take(draws.len() as int) == draws@,
            ensures
                path@ == self.walk_spec(si as int, draws@, max_dist, avoid_revisit),
                forall|m: int| 0 <= m < path.len() ==> #[trigger] path@[m] < n,
            decreases draws.len() - step,
        {
            let ghost d = draws@.take(step as int);
            let ghost old_path = path@;
            proof {
                assert(draws@.take(step + 1).drop_last() =~= d);
                assert(draws@.take(step + 1).last() == draws@[step as int]);
            }
            match self.next_in_walk(&path, &visited, draws[step], max_dist, avoid_revisit) {
                None => {
                    proof {
                        assert forall|x: u32| #[trigger] self.next_choice(old_path, x, max_dist, avoid_revisit) is None by {
                        }
                        self.lemma_walk_spec_stuck(si as int, d, draws@.skip(step as int), max_dist, avoid_revisit);
                        assert(d + draws@.skip(step as int) =~= draws@);
                    }
                    break;
                },
                Some(next) => {
                    path.push(next);
                    visited.set(next, true);
                    proof {
                        assert forall|m: int| 0 <= m < path.len() implies #[trigger] path@[m] < n by {
                            if m < old_path.len() {
                                assert(path@[m] == old_path[m]);
                            }
                        }
                        assert forall|j: int| 0 <= j < n implies (visited@[j] <==> path@.contains(j as usize)) by {
                            if path@.contains(j as usize) {
                                let m = choose|m: int| 0 <= m < path@.len() && path@[m] == j as usize;
                                if m < old_path.len() {
                                    assert(old_path[m] == j as usize);
                                    assert(old_path.contains(j as usize));
                                }
                            }
                            if old_path.contains(j as usize) {
                                let m = choose|m: int| 0 <= m < old_path.len() && old_path[m] == j as usize;
                                assert(path@[m] == j as usize);
                            }
                            if j == next {
                                assert(path@[old_path.len() as int] == j as usize);
                            }
                        }
                    }
                },
            }
            step += 1;
        }
        proof {
            if step == draws.len() {
                assert(draws@.take(step as int) =~= draws@);
            }
        }
        let mut result: Vec<Chord> = Vec::new();
        let mut k: usize = 0;
        while k < path.len()
            invariant
                self.wf(),
                n == self.chords.len(),
                0 <= k <= path.len(),
                result.len() == k,
                forall|m: int| 0 <= m < path.len() ==> #[trigger] path@[m] < n,
                forall|m: int| 0 <= m < k ==> same_chord(#[trigger] result@[m], self.chord_seq()[path@[m] as int]),
            decreases path.len() - k,
        {
            result.push(copy_chord(&self.chords[path[k]]));
            k += 1;
        }
        result
    }

    /// Random walk on the graph.
    ///
    /// Each step moves to a neighbour at distance at most `max_dist`, chosen by
    /// the seeded generator; the walk stops early at a chord with no such
    /// neighbour. With `avoid_revisit`, unvisited neighbours are preferred
    /// whenever there is one. A chord not in the graph is returned alone.
    /// Whatever the generator yields, the walk is `walk_with_draws` for some
    /// `steps` random values.
    pub fn random_walk(&self, start: &Chord, steps: usize, max_dist: u8, avoid_revisit: bool, seed: u64) -> (r: Vec<Chord>)
        requires
            self.wf(),
        ensures
            !self.holds_notes(start.notes@) ==> r.len() == 1 && same_chord(r@[0], *start),
            self.holds_notes(start.notes@) ==> {
                &&& 1 <= r.len() <= steps + 1
                &&& self.node(r@[0]) == self.index_of_notes(start.notes@)
                &&& self.is_walk(r@, max_dist)
                &&& r.len() <= steps ==> self.stuck(self.node(r@[r.len() - 1]), max_dist)
                &&& avoid_revisit ==> forall|k: int| 0 <= k < r.len() - 1 ==> #[trigger] self.fresh_choice(r@, max_dist, k)
                &&& exists|d: Seq<u32>| d.len() == steps
                    && #[trigger] self.walk_spec(self.node(*start), d, max_dist, avoid_revisit) == self.nodes_of(r@)
            },
    {
        let mut rng = seeded_rng(seed);
        let si = match self.chord_idx(start) {
            Some(i) => i,
            None => {
                let mut alone: Vec<Chord> = Vec::new();
                alone.push(copy_chord(start));
                return alone;
            },
        };
        proof {
            self.lemma_index_of_notes(si as int);
        }
        let n = self.chords.len();
        let mut visited: Vec<bool> = Vec::new();
        let mut v: usize = 0;
        while v < n
            invariant
                0 <= v <= n,
                visited.len() == v,
                forall|j: int| 0 <= j < v ==> visited@[j] == (j == si),
            decreases n - v,
        {
            visited.push(v == si);
            v += 1;
        }
        let mut path: Vec<usize> = Vec::new();
        path.push(si);
        let ghost mut d: Seq<u32> = Seq::empty();
        proof {
            assert forall|j: int| 0 <= j < n implies (visited@[j] <==> path@.contains(j as usize)) by {
                if path@.contains(j as usize) {
                    let m = choose|m: int| 0 <= m < path@.len() && path@[m] == j as usize;
                    assert(m == 0);
                }
                if j == si {
                    assert(path@[0] == j as usize);
                }
            }
            assert(path@ == self.walk_spec(si as int, d, max_dist, avoid_revisit));
        }
        let mut step: usize = 0;
        while step < steps
            invariant_except_break
                path.len() == step + 1,
            invariant
                self.wf(),
                n == self.chords.len(),
                si < n,
                0 <= step <= steps,
                1 <= path.len() <= step + 1,
                path@[0] == si,
                visited.len() == n,
                forall|m: int| 0 <= m < path.len() ==> #[trigger] path@[m] < n,
                forall|j: int| 0 <= j < n ==> (visited@[j] <==> path@.contains(j as usize)),
                forall|m: int| 0 <= m < path.len() - 1 ==> #[trigger] self.idx_step(path@, max_dist, m),
                avoid_revisit ==> forall|m: int| 0 <= m < path.len() - 1 ==> #[trigger] self.idx_fresh(path@, max_dist, m),
                d.len() == step,
                path@ == self.walk_spec(si as int, d, max_dist, avoid_revisit),
            ensures
                1 <= path.len() <= steps + 1,
                path@[0] == si,
                forall|m: int| 0 <= m < path.len() ==> #[trigger] path@[m] < n,
                forall|m: int| 0 <= m < path.len() - 1 ==> #[trigger] self.idx_step(path@, max_dist, m),
                avoid_revisit ==> forall|m: int| 0 <= m < path.len() - 1 ==> #[trigger] self.idx_fresh(path@, max_dist, m),
                path.len() <= steps ==> self.stuck(path@[path.len() - 1] as int, max_dist),
                d.len() <= steps,
                path@ == self.walk_spec(si as int, d, max_dist, avoid_revisit),
                d.len() < steps ==> path.len() == d.len() + 1
                    && forall|x: u32| #[trigger] self.next_choice(path@, x, max_dist, avoid_revisit) is None,
            decreases steps - step,
        {
            let draw = next_u32(&mut rng);
            let ghost old_path = path@;
            let ghost old_d = d;
            match self.next_in_walk(&path, &visited, draw, max_dist, avoid_revisit) {
                None => {
                    proof {
                        assert forall|x: u32| #[trigger] self.next_choice(old_path, x, max_dist, avoid_revisit) is None by {
                        }
                    }
                    break;
                },
                Some(next) => {
                    path.push(next);
                    visited.set(next, true);
                    proof {
                        d = d.push(draw);
                        assert(d.drop_last() =~= old_d);
                        let last = old_path.len() - 1;
                        assert(path@.take(old_path.len() as int) =~= old_path);
                        assert forall|m: int| 0 <= m < path.len() implies #[trigger] path@[m] < n by {
                            if m < old_path.len() {
                                assert(path@[m] == old_path[m]);
                            }
                        }
                        assert forall|j: int| 0 <= j < n implies (visited@[j] <==> path@.contains(j as usize)) by {
                            if path@.contains(j as usize) {
                                let m = choose|m: int| 0 <= m < path@.len() && path@[m] == j as usize;
                                if m < old_path.len() {
                                    assert(old_path[m] == j as usize);
                                    assert(old_path.contains(j as usize));
                                }
                            }
                            if old_path.contains(j as usize) {
                                let m = choose|m: int| 0 <= m < old_path.len() && old_path[m] == j as usize;
                                assert(path@[m] == j as usize);
                            }
                            if j == next {
                                assert(path@[old_path.len() as int] == j as usize);
                            }
                        }
                        assert forall|m: int| 0 <= m < path.len() - 1 implies #[trigger] self.idx_step(path@, max_dist, m) by {
                            if m < last {
                                assert(self.idx_step(old_path, max_dist, m));
                                assert(path@[m] == old_path[m] && path@[m + 1] == old_path[m + 1]);
                            } else {
                                assert(path@[m] == old_path.last() && path@[m + 1] == next);
                            }
                        }
                        if avoid_revisit {
                            assert forall|m: int| 0 <= m < path.len() - 1 implies #[trigger] self.idx_fresh(path@, max_dist, m) by {
                                assert(path@.take(m + 1) =~= old_path.take(m + 1));
                                if m < last {
                                    assert(self.idx_fresh(old_path, max_dist, m));
                                    assert(path@[m] == old_path[m] && path@[m + 1] == old_path[m + 1]);
                                } else {
                                    assert(old_path.take(m + 1) =~= old_path);
                                    assert(path@[m] == old_path.last() && path@[m + 1] == next);
                                }
                            }
                        }
                    }
                },
            }
            step += 1;
        }
        proof {
            if d.len() < steps {
                let pad = Seq::new((steps - d.len()) as nat, |i: int| 0u32);
                self.lemma_walk_spec_stuck(si as int, d, pad, max_dist, avoid_revisit);
            }
        }
        let mut result: Vec<Chord> = Vec::new();
        let mut k: usize = 0;
        while k < path.len()
            invariant
                self.wf(),
                n == self.chords.len(),
                0 <= k <= path.len(),
                result.len() == k,
                forall|m: int| 0 <= m < path.len() ==> #[trigger] path@[m] < n,
                forall|m: int| 0 <= m < k ==> same_chord(#[trigger] result@[m], self.chord_seq()[path@[m] as int]),
            decreases path.len() - k,
        {
            result.push(copy_chord(&self.chords[path[k]]));
            k += 1;
        }
        proof {
            assert forall|m: int| 0 <= m < result.len() implies self.node(#[trigger] result@[m]) == path@[m] as int by {
                self.lemma_index_of_notes(path@[m] as int);
            }
            assert forall|m: int| 0 <= m < result.len() implies #[trigger] self.walk_member(result@, m) by {
                self.lemma_index_of_notes(path@[m] as int);
            }
            assert forall|m: int| 0 <= m < result.len() - 1 implies #[trigger] self.walk_step(result@, max_dist, m) by {
                assert(self.idx_step(path@, max_dist, m));
                assert(self.node(result@[m]) == path@[m] as int);
                assert(self.node(result@[m + 1]) == path@[m + 1] as int);
            }
            if avoid_revisit {
                assert forall|m: int| 0 <= m < result.len() - 1 implies #[trigger] self.fresh_choice(result@, max_dist, m) by {
                    assert(self.idx_fresh(path@, max_dist, m));
                    assert forall|j: int| 0 <= j < n implies (self.seen_by(result@, m, j) <==> path@.take(m + 1).contains(j as usize)) by {
                        if self.seen_by(result@, m, j) {
                            let q = choose|q: int| 0 <= q <= m && #[trigger] self.node(result@[q]) == j;
                            assert(path@.take(m + 1)[q] == j as usize);
                        }
                        if path@.take(m + 1).contains(j as usize) {
                            let q = choose|q: int| 0 <= q < m + 1 && #[trigger] path@.take(m + 1)[q] == j as usize;
                            assert(self.node(result@[q]) == j);
                        }
                    }
                    assert(self.node(result@[m]) == path@[m] as int);
                    assert(self.node(result@[m + 1]) == path@[m + 1] as int);
                }
            }
            assert(self.nodes_of(result@) =~= path@);
            let witness = if d.len() < steps { d + Seq::new((steps - d.len()) as nat, |i: int| 0u32) } else { d };
            assert(witness.len() == steps);
            assert(self.walk_spec(self.node(*start), witness, max_dist, avoid_revisit) == self.nodes_of(result@));
        }
        result
    }

    /// `w` is a walk of graph positions along edges.
    pub open spec fn idx_walk(self, w: Seq<usize>) -> bool {
        &&& w.len() >= 1
        &&& forall|m: int| 0 <= m < w.len() ==> (#[trigger] w[m]) < self.chord_seq().len()
        &&& forall|m: int| 0 <= m < w.len() - 1 ==> #[trigger] self.is_edge(w[m] as int, w[m + 1] as int)
    }

    /// A queue entry: a walk from `si` ending at the entry's chord, with the
    /// fewest possible hops.
    pub open spec fn bfs_entry(self, si: int, entry: (usize, Vec<usize>)) -> bool {
        &&& self.idx_walk(entry.1@)
        &&& entry.1@[0] == si
        &&& entry.1@.last() == entry.0
        &&& !self.reaches(si, entry.0 as int, level(entry) - 1)
    }

    /// Chord `j` has been put on the queue.
    pub open spec fn enqueued(self, q: Seq<(usize, Vec<usize>)>, j: int) -> bool {
        exists|k: int| 0 <= k < q.len() && (#[trigger] q[k]).0 == j
    }

    /// `p` comes first, in dictionary order of positions, among the walks with
    /// as many steps from its first chord to its last.
    pub open spec fn first_walk(self, p: Seq<usize>) -> bool {
        forall|w: Seq<usize>| #[trigger] self.idx_walk(w) && w.len() == p.len() && w[0] == p[0] && w.last() == p.last()
            ==> lex_le(p, w)
    }

    /// The graph positions of the chords of `p`.
    pub open spec fn walk_nodes(self, p: Seq<Chord>) -> Seq<usize> {
        Seq::new(p.len(), |k: int| self.node(p[k]) as usize)
    }

    /// Extending the queue entry at `qh` by a neighbour `nb` that nothing
    /// reached before gives the first of the shortest walks to `nb`.
    #[verifier::spinoff_prover]
    proof fn lemma_bfs_first(self, si: int, q: Seq<(usize, Vec<usize>)>, qh: int, visited: Seq<bool>, nb: int, d: int)
        requires
            self.wf(),
            0 <= qh < q.len(),
            forall|k: int| 0 <= k < q.len() ==> #[trigger] self.bfs_entry(si, q[k]),
            forall|k: int| 0 <= k < q.len() ==> self.first_walk((#[trigger] q[k]).1@),
            forall|x: int, y: int| 0 <= x < y < q.len() ==> walk_before((#[trigger] q[x]).1@, (#[trigger] q[y]).1@),
            level(q[qh]) == d,
            visited.len() == self.chord_seq().len(),
            forall|j: int| 0 <= j < visited.len() ==> (visited[j] <==> self.enqueued(q, j)),
            forall|k: int, j: int| 0 <= k < qh && #[trigger] self.is_edge(q[k].0 as int, j) ==> visited[j],
            forall|x: int| 0 <= x < visited.len() && #[trigger] self.reaches(si, x, d) ==> visited[x],
            self.is_edge(q[qh].0 as int, nb),
            !visited[nb],
            !self.reaches(si, nb, d),
        ensures
            self.first_walk(q[qh].1@.push(nb as usize)),
    {
        let n = self.chord_seq().len();
        let p = q[qh].1@;
        let np = p.push(nb as usize);
        assert(self.bfs_entry(si, q[qh]));
        assert forall|w: Seq<usize>| #[trigger] self.idx_walk(w) && w.len() == np.len() && w[0] == np[0] && w.last() == np.last()
            implies lex_le(np, w) by {
            let w2 = w.drop_last();
            let u = w2.last() as int;
            assert(self.idx_walk(w2)) by {
                assert forall|m: int| 0 <= m < w2.len() implies (#[trigger] w2[m]) < n by {
                    assert(w2[m] == w[m]);
                }
                assert forall|m: int| 0 <= m < w2.len() - 1 implies #[trigger] self.is_edge(w2[m] as int, w2[m + 1] as int) by {
                    assert(w2[m] == w[m] && w2[m + 1] == w[m + 1]);
                    assert(self.is_edge(w[m] as int, w[m + 1] as int));
                }
            }
            assert(w.len() >= 2);
            let m0 = w.len() - 2;
            assert(0 <= m0 < w.len() - 1);
            assert(self.is_edge(w[m0] as int, w[m0 + 1] as int));
            assert(m0 + 1 == w.len() - 1);
            assert(self.is_edge(u, nb));
            assert(w2[0] == si);
            assert(self.reaches(si, u, d));
            assert(visited[u]);
            let k = choose|k: int| 0 <= k < q.len() && (#[trigger] q[k]).0 == u;
            assert(self.bfs_entry(si, q[k]));
            let pk = q[k].1@;
            if level(q[k]) - 1 >= d {
                self.lemma_reaches_mono(si, u, d, level(q[k]) - 1);
            }
            if level(q[k]) < d {
                let ext = pk.push(nb as usize);
                assert(self.idx_walk(ext)) by {
                    assert forall|m: int| 0 <= m < ext.len() implies (#[trigger] ext[m]) < n by {
                        if m < pk.len() {
                            assert(ext[m] == pk[m]);
                        }
                    }
                    assert forall|m: int| 0 <= m < ext.len() - 1 implies #[trigger] self.is_edge(ext[m] as int, ext[m + 1] as int) by {
                        if m < pk.len() - 1 {
                            assert(ext[m] == pk[m] && ext[m + 1] == pk[m + 1]);
                        } else {
                            assert(ext[m] == u && ext[m + 1] == nb);
                        }
                    }
                }
                assert(self.reaches(si, nb, d));
            }
            assert(pk.len() == w2.len());
            assert(self.first_walk(pk));
            assert(lex_le(pk, w2));
            if k < qh {
                assert(self.is_edge(q[k].0 as int, nb));
            }
            if k > qh {
                assert(walk_before(p, pk));
                if lex_lt(pk, w2) {
                    lemma_lex_trans(p, pk, w2);
                }
            }
            assert(lex_le(p, w2));
            assert(w =~= w2.push(nb as usize));
            if p != w2 {
                lemma_lex_push(p, w2, nb as usize, nb as usize);
            }
        }
    }

    /// Chord `b` can be reached from chord `a` in at most `k` hops.
    pub open spec fn reaches(self, a: int, b: int, k: int) -> bool {
        exists|w: Seq<usize>| #[trigger] self.idx_walk(w) && w[0] == a && w.last() == b && w.len() <= k + 1
    }

    /// `p` is a path of graph chords, each step along an edge.
    pub open spec fn is_path(self, p: Seq<Chord>) -> bool {
        &&& forall|k: int| 0 <= k < p.len() ==> #[trigger] self.walk_member(p, k)
        &&& forall|k: int| 0 <= k < p.len() - 1 ==> #[trigger] self.is_edge(self.node(p[k]), self.node(p[k + 1]))
    }

    /// A walk from `si` reaching `b` within `d + 1` hops but not within `d`
    /// passes through a chord reached within `d` hops that is adjacent to `b`.
    proof fn lemma_reaches_step(self, si: int, b: int, d: int)
        requires
            d >= 0,
            self.reaches(si, b, d + 1),
            !self.reaches(si, b, d),
        ensures
            exists|u: int| #[trigger] self.reaches(si, u, d) && self.is_edge(u, b),
    {
        let w = choose|w: Seq<usize>| #[trigger] self.idx_walk(w) && w[0] == si && w.last() == b && w.len() <= d + 2;
        assert(w.len() == d + 2);
        let pre = w.take(d + 1);
        assert(self.idx_walk(pre)) by {
            assert forall|m: int| 0 <= m < pre.len() - 1 implies #[trigger] self.is_edge(pre[m] as int, pre[m + 1] as int) by {
                assert(self.is_edge(w[m] as int, w[m + 1] as int));
            }
        }
        assert(self.is_edge(w[d] as int, w[d + 1] as int));
        assert(self.reaches(si, w[d] as int, d));
    }

    /// Walks from a set of chords closed under edges stay inside it.
    proof fn lemma_closed_walk(self, w: Seq<usize>, inside: Seq<bool>)
        requires
            self.idx_walk(w),
            inside.len() == self.chord_seq().len(),
            inside[w[0] as int],
            forall|u: int, j: int| 0 <= u < inside.len() && inside[u] && #[trigger] self.is_edge(u, j) ==> inside[j],
        ensures
            inside[w.last() as int],
        decreases w.len(),
    {
        if w.len() > 1 {
            let pre = w.drop_last();
            assert(self.idx_walk(pre)) by {
                assert forall|m: int| 0 <= m < pre.len() - 1 implies #[trigger] self.is_edge(pre[m] as int, pre[m + 1] as int) by {
                    assert(self.is_edge(w[m] as int, w[m + 1] as int));
                }
            }
            self.lemma_closed_walk(pre, inside);
            let m = w.len() - 2;
            assert(pre.last() == w[m]);
            assert(self.is_edge(w[m] as int, w[m + 1] as int));
        }
    }

    proof fn lemma_reaches_mono(self, a: int, b: int, k1: int, k2: int)
        requires
            self.reaches(a, b, k1),
            k1 <= k2,
        ensures
            self.reaches(a, b, k2),
    {
        let w = choose|w: Seq<usize>| #[trigger] self.idx_walk(w) && w[0] == a && w.last() == b && w.len() <= k1 + 1;
        assert(self.idx_walk(w) && w[0] == a && w.last() == b && w.len() <= k2 + 1);
    }

    /// A queue of distinct graph positions holds at most one entry per chord.
    proof fn lemma_queue_fits(self, q: Seq<(usize, Vec<usize>)>, n: int)
        requires
            n == self.chord_seq().len(),
            forall|k: int| 0 <= k < q.len() ==> (#[trigger] q[k]).0 < n,
            forall|x: int, y: int| 0 <= x < y < q.len() ==> (#[trigger] q[x]).0 != (#[trigger] q[y]).0,
        ensures
            q.len() <= n,
    {
        if q.len() > n {
            let nodes = Seq::new((n + 1) as nat, |k: int| q[k].0);
            assert forall|i: int, j: int| 0 <= i < j < n + 1 implies nodes[i] != nodes[j] by {
                assert(q[i].0 != q[j].0);
            }
            lemma_pigeonhole(nodes, n as nat);
            let i = choose|i: int| 0 <= i < n + 1 && nodes[i] >= n;
            assert(q[i].0 < n);
        }
    }

    /// Copies of the graph chords at the positions `idx`.
    fn chords_at(&self, idx: &Vec<usize>) -> (r: Vec<Chord>)
        requires
            self.wf(),
            forall|m: int| 0 <= m < idx@.len() ==> (#[trigger] idx@[m]) < self.chord_seq().len(),
        ensures
            r.len() == idx.len(),
            forall|m: int| 0 <= m < r.len() ==> same_chord(#[trigger] r@[m], self.chord_seq()[idx@[m] as int]),
            forall|m: int| 0 <= m < r.len() ==> self.node(#[trigger] r@[m]) == idx@[m] as int,
            forall|m: int| 0 <= m < r.len() ==> #[trigger] self.walk_member(r@, m),
    {
        let mut r: Vec<Chord> = Vec::new();
        let mut k: usize = 0;
        while k < idx.len()
            invariant
                self.wf(),
                0 <= k <= idx.len(),
                r.len() == k,
                forall|m: int| 0 <= m < idx@.len() ==> (#[trigger] idx@[m]) < self.chord_seq().len(),
                forall|m: int| 0 <= m < k ==> same_chord(#[trigger] r@[m], self.chord_seq()[idx@[m] as int]),
            decreases idx.len() - k,
        {
            r.push(copy_chord(&self.chords[idx[k]]));
            k += 1;
        }
        proof {
            assert forall|m: int| 0 <= m < r.len() implies self.node(#[trigger] r@[m]) == idx@[m] as int by {
                self.lemma_index_of_notes(idx@[m] as int);
            }
            assert forall|m: int| 0 <= m < r.len() implies #[trigger] self.walk_member(r@, m) by {
                self.lemma_index_of_notes(idx@[m] as int);
            }
        }
        r
    }

    /// Shortest path (fewest hops) via BFS.
    ///
    /// `None` when either chord is not in the graph or the end cannot be
    /// reached; otherwise a path of graph chords from start to end with the
    /// fewest possible hops, the first of those in order of chord positions
    /// (neighbours are explored in index order).
    pub fn shortest_path(&self, start: &Chord, end: &Chord) -> (r: Option<Vec<Chord>>)
        requires
            self.wf(),
        ensures
            !self.holds_notes(start.notes@) || !self.holds_notes(end.notes@) ==> r is None,
            self.holds_notes(start.notes@) && self.holds_notes(end.notes@) ==> {
                let (a, b) = (self.node(*start), self.node(*end));
                &&& a == b ==> (r matches Some(p) && p.len() == 1 && same_chord(p@[0], *start))
                &&& a != b ==> (r is Some <==> exists|k: int| self.reaches(a, b, k))
                &&& a != b ==> (r matches Some(p) ==> {
                    &&& p.len() >= 2
                    &&& self.is_path(p@)
                    &&& self.node(p@[0]) == a
                    &&& self.node(p@[p.len() - 1]) == b
                    &&& !self.reaches(a, b, p.len() - 2)
                    &&& self.first_walk(self.walk_nodes(p@))
                })
            },
    {
        let si = match self.chord_idx(start) {
            Some(i) => i,
            None => {
                return None;
            },
        };
        let ei = match self.chord_idx(end) {
            Some(i) => i,
            None => {
                return None;
            },
        };
        proof {
            self.lemma_index_of_notes(si as int);
            self.lemma_index_of_notes(ei as int);
        }
        if si == ei {
            let mut one: Vec<Chord> = Vec::new();
            one.push(copy_chord(start));
            return Some(one);
        }
        let n = self.chords.len();
        let mut visited: Vec<bool> = Vec::new();
        let mut v: usize = 0;
        while v < n
            invariant
                0 <= v <= n,
                visited.len() == v,
                forall|j: int| 0 <= j < v ==> visited@[j] == (j == si),
            decreases n - v,
        {
            visited.push(v == si);
            v += 1;
        }
        let mut queue: Vec<(usize, Vec<usize>)> = Vec::new();
        let mut first: Vec<usize> = Vec::new();
        first.push(si);
        queue.push((si, first));
        let mut qh: usize = 0;
        proof {
            assert(self.bfs_entry(si as int, queue@[0]));
            assert(self.first_walk(queue@[0].1@)) by {
                assert forall|w: Seq<usize>| #[trigger] self.idx_walk(w) && w.len() == queue@[0].1@.len()
                    && w[0] == queue@[0].1@[0] && w.last() == queue@[0].1@.last() implies lex_le(queue@[0].1@, w) by {
                    assert(w =~= queue@[0].1@);
                }
            }
            assert forall|x: int| 0 <= x < n && #[trigger] self.reaches(si as int, x, 0) implies visited@[x] by {
                let w = choose|w: Seq<usize>| #[trigger] self.idx_walk(w) && w[0] == si && w.last() == x && w.len() <= 1;
            }
            assert forall|j: int| 0 <= j < n implies (visited@[j] <==> self.enqueued(queue@, j)) by {
                if j == si {
                    assert(queue@[0].0 == j);
                }
            }
        }
        while qh < queue.len()
            invariant
                self.wf(),
                n == self.chords.len(),
                si < n,
                ei < n,
                si != ei,
                self.holds_notes(start.notes@),
                self.holds_notes(end.notes@),
                self.node(*start) == si,
                self.node(*end) == ei,
                visited.len() == n,
                visited@[si as int],
                !visited@[ei as int],
                0 <= qh <= queue.len(),
                queue.len() <= n,
                forall|k: int| 0 <= k < queue.len() ==> #[trigger] self.bfs_entry(si as int, queue@[k]),
                forall|k: int| 0 <= k < queue.len() ==> (#[trigger] queue@[k]).0 < n,
                forall|x: int, y: int| 0 <= x < y < queue.len() ==> (#[trigger] queue@[x]).0 != (#[trigger] queue@[y]).0,
                forall|a: int, b: int| 0 <= a < b < queue.len() ==> level(#[trigger] queue@[a]) <= level(#[trigger] queue@[b]),
                qh < queue.len() ==> level(queue@[queue.len() - 1]) <= level(queue@[qh as int]) + 1,
                forall|k: int| 0 <= k < queue.len() ==> self.first_walk((#[trigger] queue@[k]).1@),
                forall|x: int, y: int| 0 <= x < y < queue.len() ==> walk_before((#[trigger] queue@[x]).1@, (#[trigger] queue@[y]).1@),
                qh < queue.len() && level(queue@[queue.len() - 1]) == level(queue@[qh as int]) + 1
                    ==> lex_lt(queue@[queue.len() - 1].1@.drop_last(), queue@[qh as int].1@),
                forall|j: int| 0 <= j < n ==> (visited@[j] <==> self.enqueued(queue@, j)),
                forall|k: int, j: int| 0 <= k < qh && #[trigger] self.is_edge(queue@[k].0 as int, j) ==> visited@[j],
                qh < queue.len() ==> forall|x: int| 0 <= x < n && #[trigger] self.reaches(si as int, x, level(queue@[qh as int])) ==> visited@[x],
            decreases n - qh,
        {
            let current = queue[qh].0;
            let ghost d = level(queue@[qh as int]);
            let ghost qlen0 = queue.len() as int;
            let ghost q0 = queue@;
            proof {
                self.lemma_adj_row(current as int);
                assert(self.bfs_entry(si as int, queue@[qh as int]));
            }
            let cur_path = copy_indices(&queue[qh].1);
            let row = &self.adj[current];
            let mut e: usize = 0;
            while e < row.len()
                invariant
                    self.wf(),
                    n == self.chords.len(),
                    si < n,
                    ei < n,
                    si != ei,
                    self.holds_notes(start.notes@),
                    self.holds_notes(end.notes@),
                    self.node(*start) == si,
                    self.node(*end) == ei,
                    current < n,
                    visited.len() == n,
                    visited@[si as int],
                    !visited@[ei as int],
                    0 <= qh < qlen0 <= queue.len() <= n,
                    q0.len() == qlen0,
                    forall|k: int| 0 <= k < qlen0 ==> #[trigger] queue@[k] == q0[k],
                    q0[qh as int].0 == current,
                    level(q0[qh as int]) == d,
                    cur_path@ == q0[qh as int].1@,
                    self.bfs_entry(si as int, q0[qh as int]),
                    row@ == self.adj@[current as int]@,
                    forall|x: int| 0 <= x < row@.len() ==> self.is_edge(current as int, (#[trigger] row@[x]).0 as int),
                    forall|x: int| 0 <= x < row@.len() ==> (#[trigger] row@[x]).0 < n,
                    0 <= e <= row.len(),
                    forall|k: int| 0 <= k < queue.len() ==> #[trigger] self.bfs_entry(si as int, queue@[k]),
                    forall|k: int| 0 <= k < queue.len() ==> (#[trigger] queue@[k]).0 < n,
                    forall|x: int, y: int| 0 <= x < y < queue.len() ==> (#[trigger] queue@[x]).0 != (#[trigger] queue@[y]).0,
                    forall|x: int, y: int| 0 <= x < y < queue.len() ==> level(#[trigger] queue@[x]) <= level(#[trigger] queue@[y]),
                    level(queue@[queue.len() - 1]) <= d + 1,
                    forall|j: int| 0 <= j < n ==> (visited@[j] <==> self.enqueued(queue@, j)),
                    forall|k: int, j: int| 0 <= k < qh && #[trigger] self.is_edge(queue@[k].0 as int, j) ==> visited@[j],
                    forall|x: int| 0 <= x < n && #[trigger] self.reaches(si as int, x, d) ==> visited@[x],
                    forall|x: int| 0 <= x < e ==> visited@[(#[trigger] row@[x]).0 as int],
                    forall|x: int, y: int| 0 <= x < y < row@.len() ==> (#[trigger] row@[x]).0 < (#[trigger] row@[y]).0,
                    forall|k: int| 0 <= k < queue.len() ==> self.first_walk((#[trigger] queue@[k]).1@),
                    forall|x: int, y: int| 0 <= x < y < queue.len() ==> walk_before((#[trigger] queue@[x]).1@, (#[trigger] queue@[y]).1@),
                    level(queue@[queue.len() - 1]) == d + 1 ==> {
                        let last = queue@[queue.len() - 1];
                        ||| lex_lt(last.1@.drop_last(), cur_path@)
                        ||| last.1@.drop_last() == cur_path@ && exists|x: int| 0 <= x < e && (#[trigger] row@[x]).0 == last.0
                    },
                decreases row.len() - e,
            {
                let nb = row[e].0;
                if nb == ei {
                    let mut full = copy_indices(&cur_path);
                    full.push(ei);
                    proof {
                        assert(self.idx_walk(full@)) by {
                            assert forall|m: int| 0 <= m < full@.len() - 1 implies #[trigger] self.is_edge(full@[m] as int, full@[m + 1] as int) by {
                                if m < full@.len() - 2 {
                                    assert(full@[m] == cur_path@[m] && full@[m + 1] == cur_path@[m + 1]);
                                } else {
                                    assert(full@[m] == current && full@[m + 1] == ei);
                                }
                            }
                        }
                        if self.reaches(si as int, ei as int, d) {
                            assert(visited@[ei as int]);
                        }
                        self.lemma_bfs_first(si as int, queue@, qh as int, visited@, ei as int, d);
                        assert(full@ =~= queue@[qh as int].1@.push(ei));
                    }
                    let res = self.chords_at(&full);
                    proof {
                        assert(full@[0] == si);
                        assert(full@.last() == ei);
                        assert(self.reaches(si as int, ei as int, full@.len() - 1));
                        assert(self.walk_nodes(res@) =~= full@);
                        assert forall|k: int| 0 <= k < res.len() - 1 implies
                            #[trigger] self.is_edge(self.node(res@[k]), self.node(res@[k + 1])) by {
                            assert(self.is_edge(full@[k] as int, full@[k + 1] as int));
                        }
                    }
                    return Some(res);
                }
                if !visited[nb] {
                    let mut np = copy_indices(&cur_path);
                    np.push(nb);
                    let ghost old_q = queue@;
                    proof {
                        assert(self.idx_walk(np@)) by {
                            assert forall|m: int| 0 <= m < np@.len() - 1 implies #[trigger] self.is_edge(np@[m] as int, np@[m + 1] as int) by {
                                if m < np@.len() - 2 {
                                    assert(np@[m] == cur_path@[m] && np@[m + 1] == cur_path@[m + 1]);
                                } else {
                                    assert(np@[m] == current && np@[m + 1] == nb);
                                }
                            }
                        }
                        assert(!self.reaches(si as int, nb as int, d));
                        assert(!self.enqueued(queue@, nb as int));
                        self.lemma_bfs_first(si as int, queue@, qh as int, visited@, nb as int, d);
                        assert(np@ =~= queue@[qh as int].1@.push(nb));
                        let last = queue@[queue.len() - 1];
                        assert(self.bfs_entry(si as int, last));
                        assert(last.1@ =~= last.1@.drop_last().push(last.0));
                        if level(last) == d + 1 {
                            if lex_lt(last.1@.drop_last(), cur_path@) {
                                lemma_lex_push(last.1@.drop_last(), cur_path@, last.0, nb);
                            } else {
                                let x = choose|x: int| 0 <= x < e && (#[trigger] row@[x]).0 == last.0;
                                assert(row@[x].0 < row@[e as int].0);
                                lemma_lex_push(last.1@.drop_last(), cur_path@, last.0, nb);
                            }
                        }
                        assert(walk_before(last.1@, np@));
                    }
                    visited.set(nb, true);
                    queue.push((nb, np));
                    proof {
                        assert(queue@[old_q.len() as int] == (nb, np));
                        assert(self.bfs_entry(si as int, queue@[old_q.len() as int]));
                        assert forall|x: int, y: int| 0 <= x < y < queue.len() implies walk_before((#[trigger] queue@[x]).1@, (#[trigger] queue@[y]).1@) by {
                            if y == old_q.len() {
                                if x < old_q.len() - 1 {
                                    assert(walk_before(old_q[x].1@, old_q[old_q.len() - 1].1@));
                                    lemma_walk_before_trans(old_q[x].1@, old_q[old_q.len() - 1].1@, np@);
                                }
                            } else {
                                assert(queue@[x] == old_q[x] && queue@[y] == old_q[y]);
                            }
                        }
                        assert(np@.drop_last() =~= cur_path@);
                        assert forall|x: int, y: int| 0 <= x < y < queue.len() implies (#[trigger] queue@[x]).0 != (#[trigger] queue@[y]).0 by {
                            if y == old_q.len() {
                                assert(queue@[x] == old_q[x]);
                                if old_q[x].0 == nb {
                                    assert(self.enqueued(old_q, nb as int));
                                }
                            } else {
                                assert(queue@[x] == old_q[x] && queue@[y] == old_q[y]);
                            }
                        }
                        assert forall|j: int| 0 <= j < n implies (visited@[j] <==> self.enqueued(queue@, j)) by {
                            if self.enqueued(old_q, j) {
                                let k = choose|k: int| 0 <= k < old_q.len() && (#[trigger] old_q[k]).0 == j;
                                assert(queue@[k].0 == j);
                            }
                            if self.enqueued(queue@, j) {
                                let k = choose|k: int| 0 <= k < queue@.len() && (#[trigger] queue@[k]).0 == j;
                                if k < old_q.len() {
                                    assert(old_q[k].0 == j);
                                }
                            }
                            if j == nb {
                                assert(queue@[old_q.len() as int].0 == j);
                            }
                        }
                        self.lemma_queue_fits(queue@, n as int);
                    }
                }
                e += 1;
            }
            proof {
                assert forall|j: int| #[trigger] self.is_edge(current as int, j) implies visited@[j] by {
                    let x = choose|x: int| 0 <= x < row@.len() && (#[trigger] row@[x]).0 == j as usize;
                }
                if qh + 1 < queue.len() && level(queue@[queue.len() - 1]) == level(queue@[qh + 1]) + 1 {
                    let last = queue@[queue.len() - 1];
                    assert(level(queue@[qh as int]) <= level(queue@[qh + 1]));
                    assert(walk_before(queue@[qh as int].1@, queue@[qh + 1].1@));
                    if lex_lt(last.1@.drop_last(), cur_path@) {
                        lemma_lex_trans(last.1@.drop_last(), cur_path@, queue@[qh + 1].1@);
                    }
                }
                if qh + 1 < queue.len() {
                    let d2 = level(queue@[qh + 1]);
                    assert(level(queue@[qh as int]) <= d2);
                    assert forall|x: int| 0 <= x < n && #[trigger] self.reaches(si as int, x, d2) implies visited@[x] by {
                        if !self.reaches(si as int, x, d) {
                            assert(d2 == d + 1);
                            self.lemma_reaches_step(si as int, x, d);
                            let u = choose|u: int| #[trigger] self.reaches(si as int, u, d) && self.is_edge(u, x);
                            assert(visited@[u]);
                            let k = choose|k: int| 0 <= k < queue@.len() && (#[trigger] queue@[k]).0 == u;
                            assert(self.bfs_entry(si as int, queue@[k]));
                            if level(queue@[k]) - 1 >= d {
                                self.lemma_reaches_mono(si as int, u, d, level(queue@[k]) - 1);
                            }
                            if k > qh {
                                assert(level(queue@[qh + 1]) <= level(queue@[k]));
                            }
                        }
                    }
                }
            }
            qh += 1;
        }
        proof {
            assert forall|k: int| self.reaches(si as int, ei as int, k) implies false by {
                let w = choose|w: Seq<usize>| #[trigger] self.idx_walk(w) && w[0] == si && w.last() == ei && w.len() <= k + 1;
                assert forall|u: int, j: int| 0 <= u < visited@.len() && visited@[u] && #[trigger] self.is_edge(u, j) implies visited@[j] by {
                    let kk = choose|kk: int| 0 <= kk < queue@.len() && (#[trigger] queue@[kk]).0 == u;
                    assert(self.is_edge(queue@[kk].0 as int, j));
                }
                self.lemma_closed_walk(w, visited@);
            }
        }
        None
    }

    /// Sum of the edge weights along a walk of graph positions.
    pub open spec fn walk_cost(self, w: Seq<usize>) -> int
        decreases w.len(),
    {
        if w.len() <= 1 {
            0
        } else {
            self.walk_cost(w.drop_last()) + self.weight(w[w.len() - 2] as int, w.last() as int)
        }
    }

    /// Graph positions of the chords of `p`.
    pub open spec fn nodes_of(self, p: Seq<Chord>) -> Seq<usize> {
        p.map_values(|c: Chord| self.node(c) as usize)
    }

    /// Total voice-leading weight along a path of chords.
    pub open spec fn path_cost(self, p: Seq<Chord>) -> int {
        self.walk_cost(self.nodes_of(p))
    }

    /// Every walk from `a` to `b` weighs at least `d`.
    pub open spec fn cost_at_least(self, a: int, b: int, d: int) -> bool {
        forall|w: Seq<usize>| #[trigger] self.idx_walk(w) && w[0] == a && w.last() == b ==> self.walk_cost(w) >= d
    }

    /// Chord `x` has been settled: it occurs in the settling order.
    pub open spec fn settled(order: Seq<usize>, x: int) -> bool {
        exists|k: int| 0 <= k < order.len() && (#[trigger] order[k]) == x
    }

    /// Chord `a` was settled before chord `b`.
    pub open spec fn settled_before(order: Seq<usize>, a: int, b: int) -> bool {
        exists|j: int, k: int| #![trigger order[j], order[k]] 0 <= j < k < order.len() && order[j] == a && order[k] == b
    }

    /// Chord `x` was reached from `prev[x]`: a settled chord one edge back,
    /// whose distance plus that edge's weight is the distance of `x`.
    pub open spec fn back_link(self, x: int, dist: Seq<u128>, prev: Seq<usize>, done: Seq<bool>, order: Seq<usize>) -> bool {
        let p = prev[x] as int;
        &&& 0 <= p < self.chord_seq().len()
        &&& done[p]
        &&& self.is_edge(p, x)
        &&& dist[x] == dist[p] + self.weight(p, x)
        &&& done[x] ==> Self::settled_before(order, p, x)
    }

    proof fn lemma_weight_nonneg(self, i: int, j: int)
        ensures
            self.weight(i, j) >= 0,
    {
        let ns = notes_list(self.chord_seq());
        lemma_vl_dist_nonneg(ns[i], ns[j]);
        lemma_vl_dist_nonneg(ns[j], ns[i]);
    }

    proof fn lemma_walk_cost_nonneg(self, w: Seq<usize>)
        ensures
            self.walk_cost(w) >= 0,
        decreases w.len(),
    {
        if w.len() > 1 {
            self.lemma_walk_cost_nonneg(w.drop_last());
            self.lemma_weight_nonneg(w[w.len() - 2] as int, w.last() as int);
        }
    }

    /// A prefix of a walk is a walk, and weighs no more.
    proof fn lemma_walk_prefix(self, w: Seq<usize>, k: int)
        requires
            self.idx_walk(w),
            1 <= k <= w.len(),
        ensures
            self.idx_walk(w.take(k)),
            self.walk_cost(w.take(k)) <= self.walk_cost(w),
        decreases w.len() - k,
    {
        let t = w.take(k);
        assert(self.idx_walk(t)) by {
            assert forall|m: int| 0 <= m < t.len() - 1 implies #[trigger] self.is_edge(t[m] as int, t[m + 1] as int) by {
                assert(self.is_edge(w[m] as int, w[m + 1] as int));
            }
        }
        if k < w.len() {
            self.lemma_walk_prefix(w, k + 1);
            let t1 = w.take(k + 1);
            assert(t1.drop_last() =~= t);
            assert(t1[t1.len() - 2] == w[k - 1] && t1.last() == w[k]);
            self.lemma_weight_nonneg(w[k - 1] as int, w[k] as int);
        } else {
            assert(t =~= w);
        }
    }

    /// Putting a chord in front of a walk adds the weight of the first step.
    proof fn lemma_walk_cost_prepend(self, x: usize, w: Seq<usize>)
        requires
            w.len() >= 1,
        ensures
            self.walk_cost(seq![x] + w) == self.weight(x as int, w[0] as int) + self.walk_cost(w),
        decreases w.len(),
    {
        let s = seq![x] + w;
        if w.len() == 1 {
            assert(s.drop_last() =~= seq![x]);
            assert(s[0] == x && s[1] == w[0]);
            assert(self.walk_cost(seq![x]) == 0);
            assert(self.walk_cost(w) == 0);
            assert(self.walk_cost(s) == self.walk_cost(s.drop_last()) + self.weight(s[0] as int, s[1] as int));
        } else {
            self.lemma_walk_cost_prepend(x, w.drop_last());
            assert(s.drop_last() =~= seq![x] + w.drop_last());
            assert(s[s.len() - 2] == w[w.len() - 2] && s.last() == w.last());
            assert(w.drop_last()[0] == w[0]);
            assert(self.walk_cost(s) == self.walk_cost(s.drop_last()) + self.weight(w[w.len() - 2] as int, w.last() as int));
            assert(self.walk_cost(w) == self.walk_cost(w.drop_last()) + self.weight(w[w.len() - 2] as int, w.last() as int));
        }
    }

    /// The first step of a walk that leaves a set of chords.
    proof fn lemma_first_outside(w: Seq<usize>, inside: Seq<bool>) -> (x: int)
        requires
            w.len() >= 1,
            forall|m: int| 0 <= m < w.len() ==> (#[trigger] w[m]) < inside.len(),
            !inside[w.last() as int],
        ensures
            0 <= x < w.len(),
            !inside[w[x] as int],
            forall|j: int| 0 <= j < x ==> inside[#[trigger] w[j] as int],
        decreases w.len(),
    {
        if !inside[w[0] as int] {
            0
        } else {
            let t = w.drop_first();
            assert(t.last() == w.last());
            assert forall|m: int| 0 <= m < t.len() implies (#[trigger] t[m]) < inside.len() by {
                assert(t[m] == w[m + 1]);
            }
            let y = Self::lemma_first_outside(t, inside);
            assert forall|j: int| 0 <= j < y + 1 implies inside[#[trigger] w[j] as int] by {
                if j > 0 {
                    assert(w[j] == t[j - 1]);
                }
            }
            y + 1
        }
    }

    /// The unsettled chord of least distance has its distance as the weight of
    /// the lightest walk to it.
    proof fn lemma_settle(self, si: int, u: int, dist: Seq<u128>, seen: Seq<bool>, done: Seq<bool>)
        requires
            dist.len() == self.chord_seq().len(),
            seen.len() == self.chord_seq().len(),
            done.len() == self.chord_seq().len(),
            0 <= si < self.chord_seq().len(),
            0 <= u < self.chord_seq().len(),
            seen[u],
            !done[u],
            !done[si] ==> dist[u] == 0,
            forall|x: int| 0 <= x < dist.len() && seen[x] && !done[x] ==> dist[u] <= dist[x],
            forall|x: int| 0 <= x < dist.len() && done[x] ==> self.cost_at_least(si, x, dist[x] as int),
            forall|x: int, y: int| 0 <= x < dist.len() && done[x] && !done[y] && #[trigger] self.is_edge(x, y)
                ==> seen[y] && dist[y] <= dist[x] + self.weight(x, y),
        ensures
            self.cost_at_least(si, u, dist[u] as int),
    {
        assert forall|w: Seq<usize>| #[trigger] self.idx_walk(w) && w[0] == si && w.last() == u implies
            self.walk_cost(w) >= dist[u] by {
            let x = Self::lemma_first_outside(w, done);
            self.lemma_walk_cost_nonneg(w);
            if x > 0 {
                let y = w[x - 1] as int;
                assert(done[w[x - 1] as int]);
                assert(self.is_edge(w[x - 1] as int, w[x - 1 + 1] as int));
                self.lemma_walk_prefix(w, x);
                self.lemma_walk_prefix(w, x + 1);
                let t = w.take(x);
                let t1 = w.take(x + 1);
                assert(t1.drop_last() =~= t);
                assert(t1[t1.len() - 2] == w[x - 1] && t1.last() == w[x]);
                assert(t[0] == si && t.last() == y);
                assert(self.cost_at_least(si, y, dist[y] as int));
                assert(self.idx_walk(t));
                assert(self.walk_cost(t) >= dist[y]);
            }
        }
    }

    /// A list of distinct graph positions is no longer than the graph.
    proof fn lemma_distinct_fits(s: Seq<usize>, n: nat)
        requires
            forall|k: int| 0 <= k < s.len() ==> (#[trigger] s[k]) < n,
            forall|j: int, k: int| 0 <= j < k < s.len() ==> s[j] != s[k],
        ensures
            s.len() <= n,
    {
        if s.len() > n {
            let t = s.take(n as int + 1);
            assert forall|i: int, j: int| 0 <= i < j < n + 1 implies t[i] != t[j] by {
                assert(s[i] != s[j]);
            }
            lemma_pigeonhole(t, n);
            let i = choose|i: int| 0 <= i < n + 1 && t[i] >= n;
            assert(s[i] < n);
        }
    }

    /// Smoothest path (least total voice-leading distance) via Dijkstra.
    ///
    /// `None` when either chord is not in the graph or the end cannot be
    /// reached; otherwise a path of graph chords from start to end whose total
    /// weight no walk between them undercuts.
    pub fn smoothest_path(&self, start: &Chord, end: &Chord) -> (r: Option<Vec<Chord>>)
        requires
            self.wf(),
        ensures
            !self.holds_notes(start.notes@) || !self.holds_notes(end.notes@) ==> r is None,
            self.holds_notes(start.notes@) && self.holds_notes(end.notes@) ==> {
                let (a, b) = (self.node(*start), self.node(*end));
                &&& a == b ==> (r matches Some(p) && p.len() == 1 && same_chord(p@[0], *start))
                &&& a != b ==> (r is Some <==> exists|k: int| self.reaches(a, b, k))
                &&& a != b ==> (r matches Some(p) ==> {
                    &&& p.len() >= 2
                    &&& self.is_path(p@)
                    &&& self.node(p@[0]) == a
                    &&& self.node(p@[p.len() - 1]) == b
                    &&& self.cost_at_least(a, b, self.path_cost(p@))
                })
            },
    {
        let si = match self.chord_idx(start) {
            Some(i) => i,
            None => {
                return None;
            },
        };
        let ei = match self.chord_idx(end) {
            Some(i) => i,
            None => {
                return None;
            },
        };
        proof {
            self.lemma_index_of_notes(si as int);
            self.lemma_index_of_notes(ei as int);
        }
        if si == ei {
            let mut one: Vec<Chord> = Vec::new();
            one.push(copy_chord(start));
            return Some(one);
        }
        let n = self.chords.len();
        let mut dist: Vec<u128> = Vec::new();
        let mut seen: Vec<bool> = Vec::new();
        let mut done: Vec<bool> = Vec::new();
        let mut prev: Vec<usize> = Vec::new();
        let mut v: usize = 0;
        while v < n
            invariant
                0 <= v <= n,
                dist.len() == v,
                seen.len() == v,
                done.len() == v,
                prev.len() == v,
                forall|j: int| 0 <= j < v ==> dist@[j] == 0 && seen@[j] == (j == si) && !done@[j],
            decreases n - v,
        {
            dist.push(0);
            seen.push(v == si);
            done.push(false);
            prev.push(0);
            v += 1;
        }
        let ghost mut order: Seq<usize> = Seq::empty();
        loop
            invariant
                self.wf(),
                n == self.chords.len(),
                si < n,
                ei < n,
                si != ei,
                self.holds_notes(start.notes@),
                self.holds_notes(end.notes@),
                self.node(*start) == si,
                self.node(*end) == ei,
                dist.len() == n,
                seen.len() == n,
                done.len() == n,
                prev.len() == n,
                seen@[si as int],
                dist@[si as int] == 0,
                !done@[ei as int],
                !done@[si as int] ==> forall|x: int| 0 <= x < n && seen@[x] ==> x == si,
                forall|x: int| 0 <= x < n && done@[x] ==> seen@[x],
                forall|x: int| 0 <= x < n && seen@[x] ==> dist@[x] <= 255 * order.len(),
                order.len() <= n,
                forall|k: int| 0 <= k < order.len() ==> (#[trigger] order[k]) < n && done@[order[k] as int],
                forall|j: int, k: int| 0 <= j < k < order.len() ==> order[j] != order[k],
                forall|x: int| 0 <= x < n && done@[x] ==> Self::settled(order, x),
                forall|x: int| 0 <= x < n && done@[x] ==> self.cost_at_least(si as int, x, dist@[x] as int),
                forall|x: int, y: int| 0 <= x < n && done@[x] && !done@[y] && #[trigger] self.is_edge(x, y)
                    ==> seen@[y] && dist@[y] <= dist@[x] + self.weight(x, y),
                forall|x: int, y: int| 0 <= x < n && 0 <= y < n && done@[x] && seen@[y] && !done@[y]
                    ==> #[trigger] dist@[x] <= #[trigger] dist@[y],
                forall|x: int| 0 <= x < n && seen@[x] && x != si ==> #[trigger] self.back_link(x, dist@, prev@, done@, order),
            decreases n - order.len(),
        {
            let mut best: usize = n;
            let mut b: usize = 0;
            while b < n
                invariant
                    n == dist.len(),
                    n == seen.len(),
                    n == done.len(),
                    0 <= b <= n,
                    best == n || (best < b && seen@[best as int] && !done@[best as int]),
                    best == n ==> forall|x: int| 0 <= x < b ==> !(seen@[x] && !done@[x]),
                    best < n ==> forall|x: int| 0 <= x < b && seen@[x] && !done@[x] ==> dist@[best as int] <= dist@[x],
                decreases n - b,
            {
                if seen[b] && !done[b] && (best == n || dist[b] < dist[best]) {
                    best = b;
                }
                b += 1;
            }
            if best == n {
                proof {
                    assert(done@[si as int]);
                    assert forall|k: int| self.reaches(si as int, ei as int, k) implies false by {
                        let w = choose|w: Seq<usize>| #[trigger] self.idx_walk(w) && w[0] == si && w.last() == ei && w.len() <= k + 1;
                        assert forall|x: int, j: int| 0 <= x < done@.len() && done@[x] && #[trigger] self.is_edge(x, j) implies done@[j] by {
                            if !done@[j] {
                                assert(seen@[j]);
                            }
                        }
                        self.lemma_closed_walk(w, done@);
                    }
                }
                return None;
            }
            let u = best;
            proof {
                if !done@[si as int] {
                    assert(u == si);
                }
                self.lemma_settle(si as int, u as int, dist@, seen@, done@);
                let o2 = order.push(u);
                assert forall|j: int, k: int| 0 <= j < k < o2.len() implies o2[j] != o2[k] by {
                    if k == order.len() {
                        assert(o2[j] == order[j]);
                        assert(done@[order[j] as int]);
                    } else {
                        assert(o2[j] == order[j] && o2[k] == order[k]);
                    }
                }
                assert forall|k: int| 0 <= k < o2.len() implies (#[trigger] o2[k]) < n by {
                    if k < order.len() {
                        assert(o2[k] == order[k]);
                    }
                }
                Self::lemma_distinct_fits(o2, n as nat);
            }
            let ghost old_done = done@;
            let ghost old_order = order;
            done.set(u, true);
            proof {
                order = order.push(u);
                assert(order[old_order.len() as int] == u);
                assert forall|k: int| 0 <= k < order.len() implies (#[trigger] order[k]) < n && done@[order[k] as int] by {
                    if k < old_order.len() {
                        assert(order[k] == old_order[k]);
                    }
                }
                assert forall|x: int| 0 <= x < n && done@[x] implies Self::settled(order, x) by {
                    if x != u {
                        assert(old_done[x]);
                        assert(Self::settled(old_order, x));
                        let k = choose|k: int| 0 <= k < old_order.len() && (#[trigger] old_order[k]) == x;
                        assert(order[k] == x);
                    } else {
                        assert(order[old_order.len() as int] == x);
                    }
                }
                assert forall|x: int| 0 <= x < n && seen@[x] && x != si implies #[trigger] self.back_link(x, dist@, prev@, done@, order) by {
                    assert(self.back_link(x, dist@, prev@, old_done, old_order));
                    let p = prev@[x] as int;
                    if done@[x] {
                        if x == u {
                            assert(old_done[p]);
                            assert(Self::settled(old_order, p));
                            let k = choose|k: int| 0 <= k < old_order.len() && (#[trigger] old_order[k]) == p;
                            assert(order[k] == p && order[old_order.len() as int] == x);
                        } else {
                            let (j, k) = choose|j: int, k: int| #![trigger old_order[j], old_order[k]]
                                0 <= j < k < old_order.len() && old_order[j] == p && old_order[k] == x;
                            assert(order[j] == p && order[k] == x);
                        }
                    }
                }
            }
            if u == ei {
                return Some(self.settled_path(si, ei, &dist, &seen, &done, &prev, Ghost(order)));
            }
            proof {
                self.lemma_adj_row(u as int);
            }
            let row = &self.adj[u];
            let mut e: usize = 0;
            while e < row.len()
                invariant
                    self.wf(),
                    n == self.chords.len(),
                    si < n,
                    ei < n,
                    u < n,
                    u != ei,
                    order.len() <= n,
                    order.len() >= 1,
                    order[order.len() - 1] == u,
                    row@ == self.adj@[u as int]@,
                    forall|x: int| 0 <= x < row@.len() ==> {
                        let k = (#[trigger] row@[x]).0 as int;
                        &&& self.is_edge(u as int, k)
                        &&& row@[x].1 as int == self.weight(u as int, k)
                    },
                    0 <= e <= row.len(),
                    dist.len() == n,
                    seen.len() == n,
                    done.len() == n,
                    prev.len() == n,
                    seen@[si as int],
                    done@[si as int],
                    done@[u as int],
                    dist@[si as int] == 0,
                    !done@[ei as int],
                    forall|x: int| 0 <= x < n && done@[x] ==> seen@[x],
                    forall|x: int| 0 <= x < n && seen@[x] ==> dist@[x] <= 255 * order.len(),
                    forall|x: int| 0 <= x < n && done@[x] ==> dist@[x] <= dist@[u as int],
                    dist@[u as int] + 255 <= 255 * order.len(),
                    forall|x: int| 0 <= x < n && done@[x] ==> self.cost_at_least(si as int, x, dist@[x] as int),
                    forall|x: int, y: int| 0 <= x < n && x != u && done@[x] && !done@[y] && #[trigger] self.is_edge(x, y)
                        ==> seen@[y] && dist@[y] <= dist@[x] + self.weight(x, y),
                    forall|x: int| 0 <= x < e ==> done@[(#[trigger] row@[x]).0 as int] || (seen@[row@[x].0 as int]
                        && dist@[row@[x].0 as int] <= dist@[u as int] + row@[x].1),
                    forall|x: int, y: int| 0 <= x < n && 0 <= y < n && done@[x] && seen@[y] && !done@[y]
                        ==> #[trigger] dist@[x] <= #[trigger] dist@[y],
                    forall|x: int| 0 <= x < n && seen@[x] && x != si ==> #[trigger] self.back_link(x, dist@, prev@, done@, order),
                decreases row.len() - e,
            {
                let nb = row[e].0;
                let wt = row[e].1;
                if !done[nb] {
                    let nc: u128 = dist[u] + wt as u128;
                    if !seen[nb] || nc < dist[nb] {
                        let ghost d0 = dist@;
                        let ghost p0 = prev@;
                        let ghost s0 = seen@;
                        dist.set(nb, nc);
                        prev.set(nb, u);
                        seen.set(nb, true);
                        proof {
                            assert forall|x: int| 0 <= x < n && seen@[x] && x != si implies #[trigger] self.back_link(x, dist@, prev@, done@, order) by {
                                if x != nb {
                                    assert(self.back_link(x, d0, p0, done@, order));
                                    assert(dist@[p0[x] as int] == d0[p0[x] as int]);
                                } else {
                                    assert(self.is_edge(u as int, row@[e as int].0 as int));
                                }
                            }
                            assert forall|x: int, y: int| 0 <= x < n && x != u && done@[x] && !done@[y] && #[trigger] self.is_edge(x, y)
                                implies seen@[y] && dist@[y] <= dist@[x] + self.weight(x, y) by {
                                assert(s0[y] && d0[y] <= d0[x] + self.weight(x, y));
                            }
                            assert forall|x: int| 0 <= x < e + 1 implies done@[(#[trigger] row@[x]).0 as int] || (seen@[row@[x].0 as int]
                                && dist@[row@[x].0 as int] <= dist@[u as int] + row@[x].1) by {
                            }
                            assert forall|x: int, y: int| 0 <= x < n && 0 <= y < n && done@[x] && seen@[y] && !done@[y]
                                implies #[trigger] dist@[x] <= #[trigger] dist@[y] by {
                                if y != nb {
                                    assert(d0[x] <= d0[y]);
                                }
                            }
                        }
                    }
                }
                e += 1;
            }
            proof {
                assert forall|x: int, y: int| 0 <= x < n && done@[x] && !done@[y] && #[trigger] self.is_edge(x, y)
                    implies seen@[y] && dist@[y] <= dist@[x] + self.weight(x, y) by {
                    if x == u {
                        let k = choose|k: int| 0 <= k < row@.len() && (#[trigger] row@[k]).0 == y as usize;
                        assert(row@[k].0 as int == y);
                    }
                }
            }
        }
    }

    /// The settled path to `ei`, read back along the links to `si`.
    fn settled_path(
        &self,
        si: usize,
        ei: usize,
        dist: &Vec<u128>,
        seen: &Vec<bool>,
        done: &Vec<bool>,
        prev: &Vec<usize>,
        Ghost(order): Ghost<Seq<usize>>,
    ) -> (r: Vec<Chord>)
        requires
            self.wf(),
            si < self.chord_seq().len(),
            ei < self.chord_seq().len(),
            si != ei,
            dist.len() == self.chord_seq().len(),
            seen.len() == self.chord_seq().len(),
            done.len() == self.chord_seq().len(),
            prev.len() == self.chord_seq().len(),
            dist@[si as int] == 0,
            done@[ei as int],
            forall|x: int| 0 <= x < done.len() && done@[x] ==> seen@[x],
            forall|k: int| 0 <= k < order.len() ==> (#[trigger] order[k]) < self.chord_seq().len(),
            forall|j: int, k: int| 0 <= j < k < order.len() ==> order[j] != order[k],
            forall|x: int| 0 <= x < done.len() && done@[x] ==> Self::settled(order, x),
            self.cost_at_least(si as int, ei as int, dist@[ei as int] as int),
            forall|x: int| 0 <= x < seen.len() && seen@[x] && x != si ==> #[trigger] self.back_link(x, dist@, prev@, done@, order),
        ensures
            r.len() >= 2,
            self.is_path(r@),
            self.node(r@[0]) == si,
            self.node(r@[r.len() - 1]) == ei,
            self.reaches(si as int, ei as int, r.len() - 1),
            self.cost_at_least(si as int, ei as int, self.path_cost(r@)),
    {
        let n = self.chords.len();
        let mut back: Vec<usize> = Vec::new();
        back.push(ei);
        let mut node = ei;
        let ghost mut fwd: Seq<usize> = seq![ei];
        assert(Self::settled(order, ei as int));
        let ghost mut rk: int = choose|k: int| 0 <= k < order.len() && (#[trigger] order[k]) == ei;
        while node != si
            invariant
                self.wf(),
                n == self.chord_seq().len(),
                si < n,
                ei < n,
                node < n,
                dist.len() == n,
                seen.len() == n,
                done.len() == n,
                prev.len() == n,
                done@[node as int],
                forall|x: int| 0 <= x < done.len() && done@[x] ==> seen@[x],
                forall|j: int, k: int| 0 <= j < k < order.len() ==> order[j] != order[k],
                forall|x: int| 0 <= x < seen.len() && seen@[x] && x != si ==> #[trigger] self.back_link(x, dist@, prev@, done@, order),
                0 <= rk < order.len(),
                order[rk] == node,
                fwd.len() == back.len(),
                forall|m: int| 0 <= m < fwd.len() ==> fwd[m] == back@[back.len() - 1 - m],
                fwd[0] == node,
                fwd.last() == ei,
                self.idx_walk(fwd),
                dist@[ei as int] == dist@[node as int] + self.walk_cost(fwd),
            decreases rk,
        {
            let p = prev[node];
            proof {
                assert(self.back_link(node as int, dist@, prev@, done@, order));
                let (j, k) = choose|j: int, k: int| #![trigger order[j], order[k]]
                    0 <= j < k < order.len() && order[j] == p && order[k] == node;
                assert(k == rk);
                let f2 = seq![p] + fwd;
                self.lemma_walk_cost_prepend(p, fwd);
                assert(self.idx_walk(f2)) by {
                    assert forall|m: int| 0 <= m < f2.len() implies (#[trigger] f2[m]) < n by {
                        if m > 0 {
                            assert(f2[m] == fwd[m - 1]);
                        }
                    }
                    assert forall|m: int| 0 <= m < f2.len() - 1 implies #[trigger] self.is_edge(f2[m] as int, f2[m + 1] as int) by {
                        if m > 0 {
                            assert(f2[m] == fwd[m - 1] && f2[m + 1] == fwd[m]);
                            assert(self.is_edge(fwd[m - 1] as int, fwd[m - 1 + 1] as int));
                        }
                    }
                }
                fwd = f2;
                rk = j;
            }
            back.push(p);
            node = p;
            proof {
                assert forall|m: int| 0 <= m < fwd.len() implies fwd[m] == back@[back.len() - 1 - m] by {
                    if m > 0 {
                        assert(fwd[m] == (seq![p] + fwd.drop_first())[m]);
                    }
                }
            }
        }
        let mut idx: Vec<usize> = Vec::new();
        let mut k: usize = back.len();
        while k > 0
            invariant
                0 <= k <= back.len(),
                fwd.len() == back.len(),
                forall|m: int| 0 <= m < fwd.len() ==> fwd[m] == back@[back.len() - 1 - m],
                idx@ =~= fwd.take(back.len() - k),
            decreases k,
        {
            k -= 1;
            idx.push(back[k]);
            proof {
                assert(fwd[back.len() - 1 - k] == back@[k as int]);
                assert(idx@ =~= fwd.take(back.len() - k));
            }
        }
        proof {
            assert(idx@ =~= fwd);
            assert forall|m: int| 0 <= m < idx@.len() implies (#[trigger] idx@[m]) < self.chord_seq().len() by {
                assert(idx@[m] == fwd[m]);
            }
        }
        let res = self.chords_at(&idx);
        proof {
            assert(self.nodes_of(res@) =~= fwd);
            assert(fwd.len() >= 2) by {
                if fwd.len() == 1 {
                    assert(fwd[0] == fwd.last());
                }
            }
            assert(self.reaches(si as int, ei as int, fwd.len() - 1));
            assert forall|k: int| 0 <= k < res.len() - 1 implies
                #[trigger] self.is_edge(self.node(res@[k]), self.node(res@[k + 1])) by {
                assert(self.is_edge(fwd[k] as int, fwd[k + 1] as int));
            }
        }
        res
    }

    /// Index of the chord with the same pitch-class set as `chord`, if any.
    fn chord_idx(&self, chord: &Chord) -> (r: Option<usize>)
        ensures
            match r {
                Some(i) => i < self.chord_seq().len() && self.chord_seq()[i as int].notes@ == chord.notes@,
                None => forall|i: int| 0 <= i < self.chord_seq().len() ==> (#[trigger] self.chord_seq()[i]).notes@ != chord.notes@,
            },
    {
        find_notes(&self.chords, &chord.notes)
    }

    /// Build the graph from a chord type set.
    ///
    /// `triads`: use triad types (default: seventh chord types).
    /// `max_distance`: maximum voice-leading distance for an edge (default: 2).
    pub fn new(triads: bool, max_distance: u8) -> (g: Self)
        ensures
            g.wf(),
            g.types() == (if triads { triad_types_spec() } else { seventh_types_spec() }),
            g.max_dist() == max_distance,
            chord_models(g.chord_seq()) == all_chords(g.types()),
    {
        let types = if triads { triad_types() } else { seventh_types() };
        proof {
            let ts = type_models(types@);
            assert(ts.len() > 0);
            assert forall|k: int, i: int| 0 <= k < ts.len() && 0 <= i < ts[k].1.len() implies #[trigger] ts[k].1[i] <= 244 by {
            }
        }
        Self::from_types(types, max_distance)
    }

    /// Build from custom chord types.
    pub fn from_types(types: Vec<(String, Vec<u8>)>, max_distance: u8) -> (g: Self)
        requires
            types_valid(type_models(types@)),
        ensures
            g.wf(),
            g.types() == type_models(types@),
            g.max_dist() == max_distance,
            chord_models(g.chord_seq()) == all_chords(g.types()),
    {
        let chords = build_chords(&types);
        assert(chords_ok(chords@)) by {
            let ts = type_models(types@);
            if chords.len() > 0 {
                assert(ts.len() > 0) by {
                    if ts.len() == 0 {
                        assert(all_chords(ts).len() == 0);
                        assert(chord_models(chords@).len() == chords.len());
                    }
                }
            }
        }
        let adj = build_adjacency(&chords, max_distance);
        VoiceLeadingGraph { chords, adj, chord_types: types, max_distance }
    }
}


impl VoiceLeadingGraph {
    /// Chord `i` and chord `j` are joined exactly when `j` and `i` are, by an
    /// edge of the same weight.
    pub proof fn law_edges_symmetric(self, i: int, j: int)
        ensures
            self.is_edge(i, j) <==> self.is_edge(j, i),
            self.weight(i, j) == self.weight(j, i),
    {
    }

    /// The positions of the chords of a path form a walk between its ends.
    proof fn lemma_path_walk(self, q: Seq<Chord>)
        requires
            self.is_path(q),
            q.len() >= 1,
        ensures
            self.idx_walk(self.nodes_of(q)),
            self.nodes_of(q).len() == q.len(),
            self.nodes_of(q)[0] == self.node(q[0]),
            self.nodes_of(q).last() == self.node(q[q.len() - 1]),
    {
        let w = self.nodes_of(q);
        assert forall|m: int| 0 <= m < w.len() implies (#[trigger] w[m]) < self.chord_seq().len() by {
            assert(self.walk_member(q, m));
            assert(self.chords@.len() == self.chords.len());
        }
        assert forall|m: int| 0 <= m < w.len() - 1 implies #[trigger] self.is_edge(w[m] as int, w[m + 1] as int) by {
            assert(self.walk_member(q, m));
            assert(self.walk_member(q, m + 1));
            assert(self.is_edge(self.node(q[m]), self.node(q[m + 1])));
            assert(self.chords@.len() == self.chords.len());
            assert(w[m] as int == self.node(q[m]) && w[m + 1] as int == self.node(q[m + 1]));
        }
        assert(self.walk_member(q, 0));
        assert(self.walk_member(q, q.len() - 1));
        assert(self.chords@.len() == self.chords.len());
        assert(w[0] as int == self.node(q[0]));
        assert(w[w.len() - 1] as int == self.node(q[q.len() - 1]));
    }

    /// A path with no shorter walk between its ends (what `shortest_path`
    /// returns) has no more chords than any path between them, the
    /// smoothest one included.
    pub proof fn law_shortest_fewest_hops(self, p: Seq<Chord>, q: Seq<Chord>)
        requires
            self.is_path(p),
            self.is_path(q),
            p.len() >= 2,
            q.len() >= 1,
            self.node(q[0]) == self.node(p[0]),
            self.node(q[q.len() - 1]) == self.node(p[p.len() - 1]),
            !self.reaches(self.node(p[0]), self.node(p[p.len() - 1]), p.len() - 2),
        ensures
            p.len() <= q.len(),
    {
        self.lemma_path_walk(q);
        let w = self.nodes_of(q);
        assert(self.reaches(self.node(p[0]), self.node(p[p.len() - 1]), q.len() - 1));
        if q.len() < p.len() {
            self.lemma_reaches_mono(self.node(p[0]), self.node(p[p.len() - 1]), q.len() - 1, p.len() - 2);
        }
    }

    /// A path no walk between its ends undercuts (what `smoothest_path`
    /// returns) weighs no more than any path between them, the shortest one
    /// included.
    pub proof fn law_smoothest_lightest(self, p: Seq<Chord>, q: Seq<Chord>)
        requires
            self.is_path(q),
            q.len() >= 1,
            self.cost_at_least(self.node(q[0]), self.node(q[q.len() - 1]), self.path_cost(p)),
        ensures
            self.path_cost(p) <= self.path_cost(q),
    {
        self.lemma_path_walk(q);
        let w = self.nodes_of(q);
        assert(self.idx_walk(w) && w[0] == self.node(q[0]) && w.last() == self.node(q[q.len() - 1]));
    }
}

// ─── Note name parsing ──────────────────────────────────────────────────────

/// Characters with the Unicode `White_Space` property.
pub open spec fn is_white_space(c: char) -> bool {
    let v = c as int;
    ||| 0x09 <= v <= 0x0D
    ||| v == 0x20 || v == 0x85 || v == 0xA0 || v == 0x1680
    ||| 0x2000 <= v <= 0x200A
    ||| v == 0x2028 || v == 0x2029 || v == 0x202F || v == 0x205F || v == 0x3000
}

/// `s` without its leading white space.
pub open spec fn trim_front(s: Seq<char>) -> Seq<char>
    decreases s.len(),
{
    if s.len() > 0 && is_white_space(s[0]) { trim_front(s.drop_first()) } else { s }
}

/// `s` without its trailing white space.
pub open spec fn trim_back(s: Seq<char>) -> Seq<char>
    decreases s.len(),
{
    if s.len() > 0 && is_white_space(s.last()) { trim_back(s.drop_last()) } else { s }
}

/// `s` without leading and trailing white space.
pub open spec fn trimmed(s: Seq<char>) -> Seq<char> {
    trim_back(trim_front(s))
}

/// Whether `c` has the Unicode `White_Space` property.
fn is_ws(c: char) -> (b: bool)
    ensures
        b == is_white_space(c),
{
    let v = c as u32;
    (0x09 <= v && v <= 0x0D) || v == 0x20 || v == 0x85 || v == 0xA0 || v == 0x1680
        || (0x2000 <= v && v <= 0x200A) || v == 0x2028 || v == 0x2029 || v == 0x202F
        || v == 0x205F || v == 0x3000
}

/// The slice of `s` without leading and trailing white space.
fn trim_str(s: &str) -> (r: &str)
    ensures
        r@ == trimmed(s@),
{
    let n = s.unicode_len();
    let mut a: usize = 0;
    proof {
        assert(s@.subrange(0, n as int) =~= s@);
    }
    while a < n
        invariant
            0 <= a <= n,
            n == s@.len(),
            trim_front(s@.subrange(a as int, n as int)) == trim_front(s@),
        ensures
            0 <= a <= n,
            trim_front(s@.subrange(a as int, n as int)) == trim_front(s@),
            a < n ==> !is_white_space(s@[a as int]),
        decreases n - a,
    {
        if !is_ws(s.get_char(a)) {
            break;
        }
        proof {
            assert(s@.subrange(a as int + 1, n as int) =~= s@.subrange(a as int, n as int).drop_first());
        }
        a += 1;
    }
    let ghost t = s@.subrange(a as int, n as int);
    assert(trim_front(t) == t);
    let mut b: usize = n;
    while b > a
        invariant
            a <= b <= n,
            n == s@.len(),
            trim_back(s@.subrange(a as int, b as int)) == trim_back(t),
        ensures
            a <= b <= n,
            trim_back(s@.subrange(a as int, b as int)) == trim_back(t),
            b > a ==> !is_white_space(s@[b - 1]),
        decreases b,
    {
        if !is_ws(s.get_char(b - 1)) {
            break;
        }
        proof {
            assert(s@.subrange(a as int, b - 1) =~= s@.subrange(a as int, b as int).drop_last());
        }
        b -= 1;
    }
    let r = s.substring_char(a, b);
    proof {
        let u = s@.subrange(a as int, b as int);
        assert(u.len() > 0 ==> u.last() == s@[b - 1]);
        assert(trim_back(u) == u);
    }
    r
}

/// Pitch class of a natural note letter, either case.
pub open spec fn letter_pc(c: char) -> Option<int> {
    if c == 'C' || c == 'c' { Some(0) } else if c == 'D' || c == 'd' { Some(2) }
    else if c == 'E' || c == 'e' { Some(4) } else if c == 'F' || c == 'f' { Some(5) }
    else if c == 'G' || c == 'g' { Some(7) } else if c == 'A' || c == 'a' { Some(9) }
    else if c == 'B' || c == 'b' { Some(11) } else { None }
}

/// The leading run of accidentals (`#` and `b`) of `s`.
pub open spec fn accidental_run(s: Seq<char>) -> Seq<char>
    decreases s.len(),
{
    if s.len() > 0 && (s[0] == '#' || s[0] == 'b') {
        seq![s[0]] + accidental_run(s.drop_first())
    } else {
        Seq::empty()
    }
}

/// Net semitone shift of a run of accidentals: `#` raises, `b` lowers.
pub open spec fn accidental_sum(a: Seq<char>) -> int
    decreases a.len(),
{
    if a.len() == 0 {
        0
    } else {
        accidental_sum(a.drop_last()) + (if a.last() == '#' { 1int } else { -1int })
    }
}

/// The running shift of the accidentals stays within a signed byte, and so
/// does the final sum with the letter's pitch class.
pub open spec fn note_to_pc_defined(name: Seq<char>) -> bool {
    let t = trimmed(name);
    t.len() > 0 && letter_pc(t[0]) is Some ==> {
        let run = accidental_run(t.drop_first());
        &&& forall|k: int| 0 <= k <= run.len() ==> -128 <= #[trigger] accidental_sum(run.take(k)) <= 127
        &&& -128 <= letter_pc(t[0])->0 + accidental_sum(run) <= 127
    }
}

/// Pitch class named by a note name: a letter, then sharps and flats, read
/// around the octave; `None` when there is no note letter first.
pub open spec fn note_pc(name: Seq<char>) -> Option<u8> {
    let t = trimmed(name);
    if t.len() == 0 {
        None
    } else {
        match letter_pc(t[0]) {
            None => None,
            Some(base) => Some(((base + accidental_sum(accidental_run(t.drop_first()))) % 12) as u8),
        }
    }
}

proof fn lemma_accidental_run_prefix(s: Seq<char>, i: int)
    requires
        0 <= i <= s.len(),
        forall|k: int| 0 <= k < i ==> (#[trigger] s[k] == '#' || s[k] == 'b'),
    ensures
        i <= accidental_run(s).len() <= s.len(),
        accidental_run(s).take(i) =~= s.take(i),
        i < s.len() && s[i] != '#' && s[i] != 'b' ==> accidental_run(s) =~= s.take(i),
    decreases i,
{
    lemma_accidental_run_len(s);
    if i > 0 {
        let t = s.drop_first();
        assert forall|k: int| 0 <= k < i - 1 implies (#[trigger] t[k] == '#' || t[k] == 'b') by {
            assert(t[k] == s[k + 1]);
        }
        lemma_accidental_run_prefix(t, i - 1);
        assert(s[0] == '#' || s[0] == 'b');
        assert(accidental_run(s) =~= seq![s[0]] + accidental_run(t));
        assert(accidental_run(s).take(i) =~= seq![s[0]] + accidental_run(t).take(i - 1));
        assert(s.take(i) =~= seq![s[0]] + t.take(i - 1));
        if i < s.len() && s[i] != '#' && s[i] != 'b' {
            assert(t[i - 1] == s[i]);
            assert(s.take(i) =~= seq![s[0]] + t.take(i - 1));
        }
    }
}

proof fn lemma_accidental_run_len(s: Seq<char>)
    ensures
        accidental_run(s).len() <= s.len(),
    decreases s.len(),
{
    if s.len() > 0 {
        lemma_accidental_run_len(s.drop_first());
    }
}

proof fn lemma_accidental_run_all(s: Seq<char>)
    requires
        forall|k: int| 0 <= k < s.len() ==> (#[trigger] s[k] == '#' || s[k] == 'b'),
    ensures
        accidental_run(s) =~= s,
{
    lemma_accidental_run_prefix(s, s.len() as int);
    assert(accidental_run(s).take(s.len() as int) =~= accidental_run(s));
    assert(s.take(s.len() as int) =~= s);
}

/// `c` in upper case when it is an ASCII lower-case letter, else `c`.
pub open spec fn ascii_upper(c: char) -> char {
    if 'a' <= c && c <= 'z' { ((c as int) - 32) as char } else { c }
}

proof fn lemma_trim_front_fixed(u: Seq<char>)
    requires
        u.len() == 0 || !is_white_space(u[0]),
    ensures
        trim_front(u) == u,
{
}

proof fn lemma_trim_back_fixed(u: Seq<char>)
    requires
        u.len() == 0 || !is_white_space(u.last()),
    ensures
        trim_back(u) == u,
{
}

/// Trimming the front leaves nothing, or a suffix starting with a
/// non-space.
proof fn lemma_trim_front_shape(s: Seq<char>)
    ensures
        trim_front(s).len() == 0 || !is_white_space(trim_front(s)[0]),
    decreases s.len(),
{
    if s.len() > 0 && is_white_space(s[0]) {
        lemma_trim_front_shape(s.drop_first());
    }
}

/// Trimming the back leaves nothing, or a prefix ending with a non-space and
/// keeping the first character.
proof fn lemma_trim_back_shape(s: Seq<char>)
    ensures
        trim_back(s).len() <= s.len(),
        trim_back(s).len() == 0 || !is_white_space(trim_back(s).last()),
        trim_back(s).len() > 0 ==> trim_back(s)[0] == s[0],
    decreases s.len(),
{
    if s.len() > 0 && is_white_space(s.last()) {
        lemma_trim_back_shape(s.drop_last());
    }
}

/// Trimming twice is trimming once.
proof fn lemma_trimmed_twice(s: Seq<char>)
    ensures
        trimmed(trimmed(s)) == trimmed(s),
{
    let f = trim_front(s);
    let t = trim_back(f);
    lemma_trim_front_shape(s);
    lemma_trim_back_shape(f);
    lemma_trim_front_fixed(t);
    lemma_trim_back_fixed(t);
}

/// White space around a note name does not change the pitch class it names.
pub proof fn law_note_pc_ignores_surrounding_space(s: Seq<char>)
    ensures
        note_pc(s) == note_pc(trimmed(s)),
{
    lemma_trimmed_twice(s);
}

/// The note letter is read in either case: a name without surrounding white
/// space names the same pitch class, or none, with its first character in
/// upper case.
pub proof fn law_note_letter_any_case(s: Seq<char>)
    requires
        s.len() > 0,
        !is_white_space(s[0]),
        !is_white_space(s.last()),
    ensures
        note_pc(s) == note_pc(s.update(0, ascii_upper(s[0]))),
{
    let c = s[0];
    let u = s.update(0, ascii_upper(c));
    if 'a' <= c && c <= 'z' {
        assert((ascii_upper(c) as int) == (c as int) - 32);
    }
    assert(!is_white_space(ascii_upper(c)));
    assert(u.last() == if s.len() == 1 { ascii_upper(c) } else { s.last() });
    lemma_trim_front_fixed(s);
    lemma_trim_back_fixed(s);
    lemma_trim_front_fixed(u);
    lemma_trim_back_fixed(u);
    assert(trimmed(s) == s);
    assert(trimmed(u) == u);
    assert(u.drop_first() =~= s.drop_first());
    assert(letter_pc(ascii_upper(c)) == letter_pc(c));
}

/// Each natural note letter, in either case, names its pitch class: C 0,
/// D 2, E 4, F 5, G 7, A 9, B 11.
pub proof fn law_natural_notes()
    ensures
        note_pc(seq!['C']) == Some(0u8) && note_pc(seq!['c']) == Some(0u8),
        note_pc(seq!['D']) == Some(2u8) && note_pc(seq!['d']) == Some(2u8),
        note_pc(seq!['E']) == Some(4u8) && note_pc(seq!['e']) == Some(4u8),
        note_pc(seq!['F']) == Some(5u8) && note_pc(seq!['f']) == Some(5u8),
        note_pc(seq!['G']) == Some(7u8) && note_pc(seq!['g']) == Some(7u8),
        note_pc(seq!['A']) == Some(9u8) && note_pc(seq!['a']) == Some(9u8),
        note_pc(seq!['B']) == Some(11u8) && note_pc(seq!['b']) == Some(11u8),
{
    assert forall|c: char| !is_white_space(c) implies #[trigger] trimmed(seq![c]) == seq![c] by {
        lemma_trim_front_fixed(seq![c]);
        lemma_trim_back_fixed(seq![c]);
    }
    assert forall|c: char| #[trigger] accidental_run(seq![c].drop_first()) == Seq::<char>::empty() by {
        assert(seq![c].drop_first().len() == 0);
    }
    assert(trimmed(seq!['C']) == seq!['C']);
    assert(trimmed(seq!['c']) == seq!['c']);
    assert(trimmed(seq!['D']) == seq!['D']);
    assert(trimmed(seq!['d']) == seq!['d']);
    assert(trimmed(seq!['E']) == seq!['E']);
    assert(trimmed(seq!['e']) == seq!['e']);
    assert(trimmed(seq!['F']) == seq!['F']);
    assert(trimmed(seq!['f']) == seq!['f']);
    assert(trimmed(seq!['G']) == seq!['G']);
    assert(trimmed(seq!['g']) == seq!['g']);
    assert(trimmed(seq!['A']) == seq!['A']);
    assert(trimmed(seq!['a']) == seq!['a']);
    assert(trimmed(seq!['B']) == seq!['B']);
    assert(trimmed(seq!['b']) == seq!['b']);
    assert(accidental_run(seq!['C'].drop_first()) == Seq::<char>::empty());
}

/// A sharp after a note name raises its pitch class by one semitone, a flat
/// lowers it by one, around the octave: for a note letter followed only by
/// sharps and flats.
pub proof fn law_note_accidentals(s: Seq<char>)
    requires
        s.len() > 0,
        !is_white_space(s[0]),
        note_pc(s) is Some,
        forall|k: int| 1 <= k < s.len() ==> (#[trigger] s[k] == '#' || s[k] == 'b'),
    ensures
        note_pc(s.push('#')) == Some(((note_pc(s)->0 as int + 1) % 12) as u8),
        note_pc(s.push('b')) == Some(((note_pc(s)->0 as int + 11) % 12) as u8),
{
    assert(!is_white_space(s.last()));
    lemma_trim_front_fixed(s);
    lemma_trim_back_fixed(s);
    let d = s.drop_first();
    lemma_accidental_run_all(d);
    let base = letter_pc(s[0])->0;
    let total = base + accidental_sum(d);
    assert(note_pc(s) == Some((total % 12) as u8));
    assert forall|x: char| x == '#' || x == 'b' implies #[trigger] note_pc(s.push(x))
        == Some(((total + if x == '#' { 1int } else { -1int }) % 12) as u8) by {
        let u = s.push(x);
        lemma_trim_front_fixed(u);
        lemma_trim_back_fixed(u);
        assert(u.drop_first() =~= d.push(x));
        assert forall|k: int| 0 <= k < d.push(x).len() implies (#[trigger] d.push(x)[k] == '#' || d.push(x)[k] == 'b') by {
            if k < d.len() {
                assert(d.push(x)[k] == s[k + 1]);
            }
        }
        lemma_accidental_run_all(d.push(x));
        assert(d.push(x).drop_last() =~= d);
        assert(u[0] == s[0]);
    }
    assert(note_pc(s.push('#')) == Some(((total + 1) % 12) as u8));
    assert(note_pc(s.push('b')) == Some(((total - 1) % 12) as u8));
    assert((total + 1) % 12 == ((total % 12) + 1) % 12) by (nonlinear_arith);
    assert((total - 1) % 12 == ((total % 12) + 11) % 12) by (nonlinear_arith);
}

/// Text after the sharps and flats does not change the pitch class: for a
/// note letter followed only by sharps and flats, anything appended that
/// starts with neither and ends in a non-space names the same pitch class.
pub proof fn law_note_ignores_trailing_text(s: Seq<char>, t: Seq<char>)
    requires
        s.len() > 0,
        !is_white_space(s[0]),
        forall|k: int| 1 <= k < s.len() ==> (#[trigger] s[k] == '#' || s[k] == 'b'),
        t.len() > 0,
        t[0] != '#' && t[0] != 'b',
        !is_white_space(t.last()),
    ensures
        note_pc(s + t) == note_pc(s),
{
    let u = s + t;
    assert(!is_white_space(s.last()));
    lemma_trim_front_fixed(s);
    lemma_trim_back_fixed(s);
    assert(u[0] == s[0]);
    assert(u.last() == t.last());
    lemma_trim_front_fixed(u);
    lemma_trim_back_fixed(u);
    let d = s.drop_first();
    let v = u.drop_first();
    assert(v =~= d + t);
    lemma_accidental_run_all(d);
    let i = d.len() as int;
    assert forall|k: int| 0 <= k < i implies (#[trigger] v[k] == '#' || v[k] == 'b') by {
        assert(v[k] == s[k + 1]);
    }
    assert(v[i] == t[0]);
    lemma_accidental_run_prefix(v, i);
    assert(v.take(i) =~= d);
}

/// A name whose first character after any white space is not a note letter
/// (A to G, either case) names no pitch class, and neither does a blank name.
pub proof fn law_note_needs_letter(s: Seq<char>)
    requires
        trimmed(s).len() == 0 || !seq!['A', 'B', 'C', 'D', 'E', 'F', 'G', 'a', 'b', 'c', 'd', 'e', 'f', 'g'].contains(trimmed(s)[0]),
    ensures
        note_pc(s) is None,
{
    let letters = seq!['A', 'B', 'C', 'D', 'E', 'F', 'G', 'a', 'b', 'c', 'd', 'e', 'f', 'g'];
    if trimmed(s).len() > 0 {
        let c = trimmed(s)[0];
        assert(letters[0] == 'A' && letters[1] == 'B' && letters[2] == 'C' && letters[3] == 'D');
        assert(letters[4] == 'E' && letters[5] == 'F' && letters[6] == 'G' && letters[7] == 'a');
        assert(letters[8] == 'b' && letters[9] == 'c' && letters[10] == 'd' && letters[11] == 'e');
        assert(letters[12] == 'f' && letters[13] == 'g');
        assert(letter_pc(c) is None);
    }
}

/// Parse a note name to a pitch class (0-11).
pub fn note_to_pc(name: &str) -> (r: Option<u8>)
    requires
        note_to_pc_defined(name@),
    ensures
        r == note_pc(name@),
{
    let t = trim_str(name);
    let n = t.unicode_len();
    if n == 0 {
        return None;
    }
    let c0 = t.get_char(0);
    let base: i8 = if c0 == 'C' || c0 == 'c' { 0 } else if c0 == 'D' || c0 == 'd' { 2 }
        else if c0 == 'E' || c0 == 'e' { 4 } else if c0 == 'F' || c0 == 'f' { 5 }
        else if c0 == 'G' || c0 == 'g' { 7 } else if c0 == 'A' || c0 == 'a' { 9 }
        else if c0 == 'B' || c0 == 'b' { 11 } else {
        return None;
    };
    let ghost rest = t@.drop_first();
    let ghost run = accidental_run(rest);
    let mut offset: i8 = 0;
    let mut i: usize = 1;
    while i < n
        invariant
            n == t@.len(),
            rest == t@.drop_first(),
            run == accidental_run(rest),
            t@ == trimmed(name@),
            note_to_pc_defined(name@),
            letter_pc(t@[0]) == Some(base as int),
            1 <= i <= n,
            forall|k: int| 0 <= k < i - 1 ==> (#[trigger] rest[k] == '#' || rest[k] == 'b'),
            offset == accidental_sum(rest.take(i - 1)),
        ensures
            1 <= i <= n,
            forall|k: int| 0 <= k < i - 1 ==> (#[trigger] rest[k] == '#' || rest[k] == 'b'),
            offset == accidental_sum(rest.take(i - 1)),
            i < n ==> rest[i - 1] != '#' && rest[i - 1] != 'b',
        decreases n - i,
    {
        let c = t.get_char(i);
        assert(c == rest[i - 1]);
        if c != '#' && c != 'b' {
            break;
        }
        proof {
            lemma_accidental_run_prefix(rest, i as int);
            assert(rest.take(i as int).drop_last() =~= rest.take(i - 1));
            assert(run.take(i as int) =~= rest.take(i as int));
            assert(-128 <= accidental_sum(run.take(i as int)) <= 127);
        }
        if c == '#' {
            offset = offset + 1;
        } else {
            offset = offset - 1;
        }
        i += 1;
    }
    proof {
        if i < n {
            lemma_accidental_run_prefix(rest, i - 1);
        } else {
            assert(rest.take(i - 1) =~= rest);
            lemma_accidental_run_all(rest);
        }
        assert(run =~= rest.take(i - 1));
    }
    let total: i8 = base + offset;
    let r: i8 = total % 12;
    let pc: i8 = if r < 0 { r + 12 } else { r };
    Some(pc as u8)
}

} // verus!

verus! {

// ─── The triad chord space ──────────────────────────────────────────────────

/// Sorted pitch classes of pair `q` of the triad types: the major triad on
/// `q` for `q < 12`, the minor triad on `q - 12` after.
pub open spec fn triad_pcs(q: int) -> Seq<u8> {
    if q == 0 { seq![0u8, 4, 7] } else if q == 1 { seq![1u8, 5, 8] } else if q == 2 { seq![2u8, 6, 9] } else if q == 3 { seq![3u8, 7, 10] } else if q == 4 { seq![4u8, 8, 11] } else if q == 5 { seq![0u8, 5, 9] } else if q == 6 { seq![1u8, 6, 10] } else if q == 7 { seq![2u8, 7, 11] } else if q == 8 { seq![0u8, 3, 8] } else if q == 9 { seq![1u8, 4, 9] } else if q == 10 { seq![2u8, 5, 10] } else if q == 11 { seq![3u8, 6, 11] } else if q == 12 { seq![0u8, 3, 7] } else if q == 13 { seq![1u8, 4, 8] } else if q == 14 { seq![2u8, 5, 9] } else if q == 15 { seq![3u8, 6, 10] } else if q == 16 { seq![4u8, 7, 11] } else if q == 17 { seq![0u8, 5, 8] } else if q == 18 { seq![1u8, 6, 9] } else if q == 19 { seq![2u8, 7, 10] } else if q == 20 { seq![3u8, 8, 11] } else if q == 21 { seq![0u8, 4, 9] } else if q == 22 { seq![1u8, 5, 10] } else { seq![2u8, 6, 11] }
}

/// A number that tells the triads of `triad_pcs` apart.
pub open spec fn triad_code(q: int) -> int {
    if q == 0 { 55 } else if q == 1 { 212 } else if q == 2 { 369 } else if q == 3 { 526 } else if q == 4 { 683 } else if q == 5 { 69 } else if q == 6 { 226 } else if q == 7 { 383 } else if q == 8 { 44 } else if q == 9 { 201 } else if q == 10 { 358 } else if q == 11 { 515 } else if q == 12 { 43 } else if q == 13 { 200 } else if q == 14 { 357 } else if q == 15 { 514 } else if q == 16 { 671 } else if q == 17 { 68 } else if q == 18 { 225 } else if q == 19 { 382 } else if q == 20 { 539 } else if q == 21 { 57 } else if q == 22 { 214 } else { 371 }
}

/// The pair whose triad has the number `c`.
pub open spec fn triad_of_code(c: int) -> int {
    if c == 55 { 0 } else if c == 212 { 1 } else if c == 369 { 2 } else if c == 526 { 3 } else if c == 683 { 4 } else if c == 69 { 5 } else if c == 226 { 6 } else if c == 383 { 7 } else if c == 44 { 8 } else if c == 201 { 9 } else if c == 358 { 10 } else if c == 515 { 11 } else if c == 43 { 12 } else if c == 200 { 13 } else if c == 357 { 14 } else if c == 514 { 15 } else if c == 671 { 16 } else if c == 68 { 17 } else if c == 225 { 18 } else if c == 382 { 19 } else if c == 539 { 20 } else if c == 57 { 21 } else if c == 214 { 22 } else if c == 371 { 23 } else { -1 }
}

/// The elements of the three values `x < y < z` below `v`, in order.
pub open spec fn three_below(x: u8, y: u8, z: u8, v: int) -> Seq<u8> {
    (if x < v { seq![x] } else { Seq::empty() }) + (if y < v { seq![y] } else { Seq::empty() })
        + (if z < v { seq![z] } else { Seq::empty() })
}

proof fn lemma_only_three(s: Seq<u8>, w: u8)
    requires
        s.len() == 3,
        s[0] != s[1] && s[0] != s[2] && s[1] != s[2],
    ensures
        only(s, w) == if s[0] == w || s[1] == w || s[2] == w { seq![w] } else { Seq::<u8>::empty() },
{
    let s2 = s.drop_last();
    let s1 = s2.drop_last();
    let s0 = s1.drop_last();
    assert(s0.len() == 0);
    assert(only(s0, w) == Seq::<u8>::empty());
    assert(s1.last() == s[0] && s2.last() == s[1] && s.last() == s[2]);
    assert(only(s1, w) == only(s0, w) + (if s[0] == w { seq![w] } else { Seq::<u8>::empty() }));
    assert(only(s2, w) == only(s1, w) + (if s[1] == w { seq![w] } else { Seq::<u8>::empty() }));
    assert(only(s, w) == only(s2, w) + (if s[2] == w { seq![w] } else { Seq::<u8>::empty() }));
    assert(only(s, w) =~= if s[0] == w || s[1] == w || s[2] == w { seq![w] } else { Seq::<u8>::empty() });
}

/// Sorting three distinct values `x < y < z` gives them in that order.
proof fn lemma_ascending_three(s: Seq<u8>, x: u8, y: u8, z: u8, v: nat)
    requires
        s.len() == 3,
        x < y < z < 12,
        v <= 12,
        s[0] == x || s[0] == y || s[0] == z,
        s[1] == x || s[1] == y || s[1] == z,
        s[2] == x || s[2] == y || s[2] == z,
        s[0] != s[1] && s[0] != s[2] && s[1] != s[2],
    ensures
        ascending_upto(s, v) =~= three_below(x, y, z, v as int),
    decreases v,
{
    if v > 0 {
        let w = (v - 1) as nat;
        lemma_ascending_three(s, x, y, z, w);
        lemma_only_three(s, w as u8);
    }
}

proof fn lemma_triad_pcs(q: int)
    requires
        0 <= q < 24,
    ensures
        chord_pcs(triad_types_spec()[q / 12].1, q % 12) == triad_pcs(q),
{
    let tpl = triad_types_spec()[q / 12].1;
    let tr = transposed(tpl, q % 12);
    assert(tr.len() == 3);
    assert(tr[0] == ((tpl[0] + q % 12) % 12) as u8);
    assert(tr[1] == ((tpl[1] + q % 12) % 12) as u8);
    assert(tr[2] == ((tpl[2] + q % 12) % 12) as u8);
    if q == 0 {
        lemma_ascending_three(tr, 0, 4, 7, 12);
    } else if q == 1 {
        lemma_ascending_three(tr, 1, 5, 8, 12);
    } else if q == 2 {
        lemma_ascending_three(tr, 2, 6, 9, 12);
    } else if q == 3 {
        lemma_ascending_three(tr, 3, 7, 10, 12);
    } else if q == 4 {
        lemma_ascending_three(tr, 4, 8, 11, 12);
    } else if q == 5 {
        lemma_ascending_three(tr, 0, 5, 9, 12);
    } else if q == 6 {
        lemma_ascending_three(tr, 1, 6, 10, 12);
    } else if q == 7 {
        lemma_ascending_three(tr, 2, 7, 11, 12);
    } else if q == 8 {
        lemma_ascending_three(tr, 0, 3, 8, 12);
    } else if q == 9 {
        lemma_ascending_three(tr, 1, 4, 9, 12);
    } else if q == 10 {
        lemma_ascending_three(tr, 2, 5, 10, 12);
    } else if q == 11 {
        lemma_ascending_three(tr, 3, 6, 11, 12);
    } else if q == 12 {
        lemma_ascending_three(tr, 0, 3, 7, 12);
    } else if q == 13 {
        lemma_ascending_three(tr, 1, 4, 8, 12);
    } else if q == 14 {
        lemma_ascending_three(tr, 2, 5, 9, 12);
    } else if q == 15 {
        lemma_ascending_three(tr, 3, 6, 10, 12);
    } else if q == 16 {
        lemma_ascending_three(tr, 4, 7, 11, 12);
    } else if q == 17 {
        lemma_ascending_three(tr, 0, 5, 8, 12);
    } else if q == 18 {
        lemma_ascending_three(tr, 1, 6, 9, 12);
    } else if q == 19 {
        lemma_ascending_three(tr, 2, 7, 10, 12);
    } else if q == 20 {
        lemma_ascending_three(tr, 3, 8, 11, 12);
    } else if q == 21 {
        lemma_ascending_three(tr, 0, 4, 9, 12);
    } else if q == 22 {
        lemma_ascending_three(tr, 1, 5, 10, 12);
    } else if q == 23 {
        lemma_ascending_three(tr, 2, 6, 11, 12);
    }
    assert(three_below(triad_pcs(q)[0], triad_pcs(q)[1], triad_pcs(q)[2], 12) =~= triad_pcs(q));
}

proof fn lemma_generated_prefix(ts: Seq<(Seq<char>, Seq<u8>)>, m1: nat, m2: nat)
    requires
        m1 <= m2,
    ensures
        generated(ts, m1).len() <= generated(ts, m2).len(),
        forall|i: int| 0 <= i < generated(ts, m1).len() ==> #[trigger] generated(ts, m2)[i] == generated(ts, m1)[i],
    decreases m2,
{
    if m2 > m1 {
        lemma_generated_prefix(ts, m1, (m2 - 1) as nat);
    }
}

/// The first 24 pairs of the triad types (every major, then every minor
/// triad) all have sets of their own.
proof fn lemma_triad_generated(p: nat)
    requires
        p <= 24,
    ensures
        generated(triad_types_spec(), p) == Seq::new(p, |q: int| pair_chord(triad_types_spec(), q)),
    decreases p,
{
    let ts = triad_types_spec();
    if p == 0 {
        assert(generated(ts, 0) =~= Seq::new(0, |q: int| pair_chord(ts, q)));
    } else {
        let q = (p - 1) as int;
        lemma_triad_generated((p - 1) as nat);
        let prev = generated(ts, (p - 1) as nat);
        lemma_triad_pcs(q);
        if has_notes(prev, chord_pcs(ts[q / 12].1, q % 12)) {
            let i = choose|i: int| 0 <= i < prev.len() && #[trigger] prev[i].2 == chord_pcs(ts[q / 12].1, q % 12);
            assert(prev[i] == pair_chord(ts, i));
            lemma_triad_pcs(i);
            lemma_triad_distinct(i, q);
        }
        assert(generated(ts, p) =~= Seq::new(p, |q: int| pair_chord(ts, q)));
    }
}

/// Pitch classes of `a` that also sound in `b`, counted along `a`.
pub open spec fn common_count(a: Seq<u8>, b: Seq<u8>) -> nat
    decreases a.len(),
{
    if a.len() == 0 {
        0
    } else {
        common_count(a.drop_last(), b) + if b.contains(a.last()) { 1nat } else { 0nat }
    }
}

proof fn lemma_common_three(a: Seq<u8>, b: Seq<u8>)
    requires
        a.len() == 3,
        b.len() == 3,
    ensures
        common_count(a, b) == (if b[0] == a[0] || b[1] == a[0] || b[2] == a[0] { 1int } else { 0int })
            + (if b[0] == a[1] || b[1] == a[1] || b[2] == a[1] { 1int } else { 0int })
            + (if b[0] == a[2] || b[1] == a[2] || b[2] == a[2] { 1int } else { 0int }),
{
    let a2 = a.drop_last();
    let a1 = a2.drop_last();
    let a0 = a1.drop_last();
    assert(a0.len() == 0);
    assert(a1.last() == a[0] && a2.last() == a[1] && a.last() == a[2]);
    assert(common_count(a0, b) == 0);
    assert(b.contains(a[0]) <==> (b[0] == a[0] || b[1] == a[0] || b[2] == a[0]));
    assert(b.contains(a[1]) <==> (b[0] == a[1] || b[1] == a[1] || b[2] == a[1]));
    assert(b.contains(a[2]) <==> (b[0] == a[2] || b[1] == a[2] || b[2] == a[2]));
    assert(common_count(a1, b) == common_count(a0, b) + if b.contains(a[0]) { 1nat } else { 0nat });
    assert(common_count(a2, b) == common_count(a1, b) + if b.contains(a[1]) { 1nat } else { 0nat });
    assert(common_count(a, b) == common_count(a2, b) + if b.contains(a[2]) { 1nat } else { 0nat });
}

/// Position among the first 24 chords of the triad graph of the chord an
/// operation leads to from chord `q`.
pub open spec fn plr_index(q: int, op: char) -> int {
    let r = q % 12;
    if q < 12 {
        if op == 'P' { 12 + r } else if op == 'L' { 12 + (r + 4) % 12 } else { 12 + (r + 9) % 12 }
    } else {
        if op == 'P' { r } else if op == 'L' { (r + 8) % 12 } else { (r + 3) % 12 }
    }
}

proof fn lemma_triad_shares(q: int, op: char)
    requires
        0 <= q < 24,
        op == 'P' || op == 'L' || op == 'R',
    ensures
        common_count(triad_pcs(q), triad_pcs(plr_index(q, op))) == 2,
        plr_index(plr_index(q, op), op) == q,
{
    lemma_common_three(triad_pcs(q), triad_pcs(plr_index(q, op)));
}

proof fn lemma_triad_distinct(q1: int, q2: int)
    requires
        0 <= q1 < 24,
        0 <= q2 < 24,
        q1 != q2,
    ensures
        triad_pcs(q1) != triad_pcs(q2),
{
    let a = triad_pcs(q1);
    let b = triad_pcs(q2);
    assert(a[0] * 144 + a[1] * 12 + a[2] == triad_code(q1));
    assert(b[0] * 144 + b[1] * 12 + b[2] == triad_code(q2));
    assert(triad_of_code(triad_code(q1)) == q1);
    assert(triad_of_code(triad_code(q2)) == q2);
}

} // verus!
