//! Combining two event streams into pairs of values.
//!
//! Rhythm + melody → events. Different combination strategies produce
//! different music from the same material. Pairing by position is done
//! here; pairing by nearest onset time is done by the caller, which holds
//! the times.

use vstd::prelude::*;

verus! {

/// Strategy for combining two patterns.
#[derive(Debug, Clone, Copy, PartialEq, Eq, Structural)]
pub enum Combine {
    /// Pair events 1:1 by index. Truncates to the shorter pattern.
    Zip,
    /// The shorter pattern's events cycle to match the longer.
    /// E.g. if `a` has 5 events and `b` has 3, `b` cycles: b0 b1 b2 b0 b1.
    Cycle,
    /// Both patterns keep independent timing. Each event from `a` is paired
    /// with the nearest-in-time event from `b`.
    Polymetric,
}

/// Pairs by index, as long as the shorter list.
pub open spec fn zip_spec<A, B>(a: Seq<A>, b: Seq<B>) -> Seq<(A, B)> {
    let n = if a.len() <= b.len() { a.len() } else { b.len() };
    Seq::new(n, |i: int| (a[i], b[i]))
}

/// Pairs by index as long as the longer list, the shorter one starting over
/// from its beginning each time it runs out.
pub open spec fn cycle_spec<A, B>(a: Seq<A>, b: Seq<B>) -> Seq<(A, B)> {
    let n = if a.len() >= b.len() { a.len() } else { b.len() };
    Seq::new(n, |i: int| (a[i % a.len() as int], b[i % b.len() as int]))
}

/// Pair values 1:1 by index; truncate to the shorter list.
pub fn zip<A: Copy, B: Copy>(a: &Vec<A>, b: &Vec<B>) -> (r: Vec<(A, B)>)
    ensures
        r@ == zip_spec(a@, b@),
{
    let n = if a.len() <= b.len() { a.len() } else { b.len() };
    let mut r: Vec<(A, B)> = Vec::new();
    let mut i: usize = 0;
    while i < n
        invariant
            n <= a.len(),
            n <= b.len(),
            0 <= i <= n,
            r@ =~= zip_spec(a@, b@).take(i as int),
        decreases n - i,
    {
        r.push((a[i], b[i]));
        i += 1;
    }
    r
}

/// The shorter list cycles to match the length of the longer.
pub fn cycle<A: Copy, B: Copy>(a: &Vec<A>, b: &Vec<B>) -> (r: Vec<(A, B)>)
    requires
        a.len() > 0,
        b.len() > 0,
    ensures
        r@ == cycle_spec(a@, b@),
{
    let n = if a.len() >= b.len() { a.len() } else { b.len() };
    let mut r: Vec<(A, B)> = Vec::new();
    let mut i: usize = 0;
    while i < n
        invariant
            a.len() > 0,
            b.len() > 0,
            n == if a.len() >= b.len() { a.len() } else { b.len() },
            0 <= i <= n,
            r@ =~= cycle_spec(a@, b@).take(i as int),
        decreases n - i,
    {
        r.push((a[i % a.len()], b[i % b.len()]));
        i += 1;
    }
    r
}

/// On lists of equal length, cycling pairs exactly as zipping does.
pub proof fn law_cycle_equal_lengths_is_zip<A, B>(a: Seq<A>, b: Seq<B>)
    requires
        a.len() == b.len(),
    ensures
        cycle_spec(a, b) == zip_spec(a, b),
{
    assert forall|i: int| 0 <= i < a.len() implies #[trigger] cycle_spec(a, b)[i] == zip_spec(a, b)[i] by {
        vstd::arithmetic::div_mod::lemma_small_mod(i as nat, a.len());
    }
    assert(cycle_spec(a, b) =~= zip_spec(a, b));
}

/// Cycling keeps the longer list whole and repeats the shorter one: the
/// result is as long as the longer list; the first `a.len()` first components
/// are `a` and each later one repeats the one `a.len()` places before it;
/// likewise for `b` in the second components. So the longer list appears
/// exactly once, in order.
pub proof fn law_cycle_repeats_shorter<A, B>(a: Seq<A>, b: Seq<B>)
    requires
        a.len() > 0,
        b.len() > 0,
    ensures
        ({
            let r = cycle_spec(a, b);
            &&& r.len() == if a.len() >= b.len() { a.len() } else { b.len() }
            &&& forall|i: int| 0 <= i < a.len() ==> #[trigger] r[i].0 == a[i]
            &&& forall|i: int| a.len() <= i < r.len() ==> #[trigger] r[i].0 == r[i - a.len()].0
            &&& forall|i: int| 0 <= i < b.len() ==> #[trigger] r[i].1 == b[i]
            &&& forall|i: int| b.len() <= i < r.len() ==> #[trigger] r[i].1 == r[i - b.len()].1
            &&& a.len() >= b.len() ==> forall|i: int| 0 <= i < r.len() ==> #[trigger] r[i].0 == a[i]
            &&& b.len() >= a.len() ==> forall|i: int| 0 <= i < r.len() ==> #[trigger] r[i].1 == b[i]
        }),
{
    let r = cycle_spec(a, b);
    assert forall|i: int| 0 <= i < a.len() implies #[trigger] r[i].0 == a[i] by {
        vstd::arithmetic::div_mod::lemma_small_mod(i as nat, a.len());
    }
    assert forall|i: int| 0 <= i < b.len() implies #[trigger] r[i].1 == b[i] by {
        vstd::arithmetic::div_mod::lemma_small_mod(i as nat, b.len());
    }
    assert forall|i: int| a.len() <= i < r.len() implies #[trigger] r[i].0 == r[i - a.len()].0 by {
        vstd::arithmetic::div_mod::lemma_mod_sub_multiples_vanish(i, a.len() as int);
    }
    assert forall|i: int| b.len() <= i < r.len() implies #[trigger] r[i].1 == r[i - b.len()].1 by {
        vstd::arithmetic::div_mod::lemma_mod_sub_multiples_vanish(i, b.len() as int);
    }
}

} // verus!
