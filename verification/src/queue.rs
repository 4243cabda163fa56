//! The unbounded FIFO queue of `crossbeam_queue`, as the lock-free books use
//! it, with arithmetic modulo the width of a machine word for the counters
//! that sit beside it.

use vstd::prelude::*;

verus! {

/// `crossbeam_queue::SegQueue`, carried opaquely; what a queue holds is
/// named per element type where it is used.
#[verifier::external_type_specification]
#[verifier::external_body]
#[verifier::reject_recursive_types(T)]
pub struct ExSegQueue<T>(crossbeam_queue::SegQueue<T>);

/// Number of values of a `u64`.
pub open spec fn u64_range() -> int {
    0x1_0000_0000_0000_0000
}

/// Number of values of a `usize`.
pub open spec fn usize_range() -> int {
    usize::MAX + 1
}

/// A count of `n` things as a `usize` counter that wraps around shows it.
pub open spec fn wrapped_count(n: int) -> nat {
    (n % usize_range()) as nat
}

/// A sum `s` as a `u64` counter that wraps around shows it.
pub open spec fn wrapped_sum(s: int) -> u64 {
    (s % u64_range()) as u64
}

pub proof fn lemma_wrapped_sum_add(x: u64, y: u64, s: int)
    requires
        s >= 0,
        x == wrapped_sum(s),
    ensures
        x.wrapping_add(y) == wrapped_sum(s + y),
{
    vstd::arithmetic::div_mod::lemma_add_mod_noop(s, y as int, u64_range());
    vstd::arithmetic::div_mod::lemma_small_mod(y as nat, u64_range() as nat);
    if x + y <= u64::MAX {
        vstd::arithmetic::div_mod::lemma_small_mod((x + y) as nat, u64_range() as nat);
    } else {
        vstd::arithmetic::div_mod::lemma_small_mod((x + y - u64_range()) as nat, u64_range() as nat);
        vstd::arithmetic::div_mod::lemma_mod_sub_multiples_vanish(x + y, u64_range());
    }
}

pub proof fn lemma_wrapped_sum_sub(x: u64, y: u64, s: int)
    requires
        s >= 0,
        x == wrapped_sum(s),
        y <= s,
    ensures
        x.wrapping_sub(y) == wrapped_sum(s - y),
{
    vstd::arithmetic::div_mod::lemma_sub_mod_noop(s, y as int, u64_range());
    vstd::arithmetic::div_mod::lemma_small_mod(y as nat, u64_range() as nat);
    if x >= y {
        vstd::arithmetic::div_mod::lemma_small_mod((x - y) as nat, u64_range() as nat);
    } else {
        vstd::arithmetic::div_mod::lemma_mod_add_multiples_vanish(x - y, u64_range());
        vstd::arithmetic::div_mod::lemma_small_mod((x - y + u64_range()) as nat, u64_range() as nat);
    }
}

pub proof fn lemma_wrapped_count_inc(x: usize, n: int)
    requires
        n >= 0,
        x == wrapped_count(n),
    ensures
        x.wrapping_add(1) == wrapped_count(n + 1),
{
    vstd::arithmetic::div_mod::lemma_add_mod_noop(n, 1, usize_range());
    vstd::arithmetic::div_mod::lemma_small_mod(1, usize_range() as nat);
    if x + 1 <= usize::MAX {
        vstd::arithmetic::div_mod::lemma_small_mod((x + 1) as nat, usize_range() as nat);
    } else {
        vstd::arithmetic::div_mod::lemma_mod_self_0(usize_range());
    }
}

pub proof fn lemma_wrapped_count_dec(x: usize, n: int)
    requires
        n >= 0,
        x == wrapped_count(n),
        x > 0,
    ensures
        n > 0,
        x - 1 == wrapped_count(n - 1),
{
    vstd::arithmetic::div_mod::lemma_sub_mod_noop(n, 1, usize_range());
    vstd::arithmetic::div_mod::lemma_small_mod(1, usize_range() as nat);
    vstd::arithmetic::div_mod::lemma_small_mod((x - 1) as nat, usize_range() as nat);
    if n == 0 {
        vstd::arithmetic::div_mod::lemma_small_mod(0, usize_range() as nat);
    }
}

} // verus!
