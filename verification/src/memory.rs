//! Estimates of memory use.

use std::collections::VecDeque;
use vstd::prelude::*;

verus! {

/// `n` bytes, as far as that can be counted.
pub open spec fn countable(n: int) -> usize {
    if n <= usize::MAX {
        n as usize
    } else {
        usize::MAX
    }
}

/// `bytes` is the room reserved for `len` elements of `size` bytes each: that of a capacity
/// which they fit in. How much is reserved beyond them is up to the allocator, but it is no
/// more than one allocation can have.
pub open spec fn room_for(bytes: usize, len: nat, size: nat) -> bool {
    exists|capacity: usize|
        capacity >= len && #[trigger] (capacity * size) <= isize::MAX && bytes == capacity * size
}

/// The room reserved for elements is at least what they take, and at most one allocation.
pub proof fn lemma_room_for(bytes: usize, len: nat, size: nat)
    requires
        room_for(bytes, len, size),
    ensures
        len * size <= bytes <= isize::MAX,
{
    let capacity = choose|capacity: usize|
        capacity >= len && #[trigger] (capacity * size) <= isize::MAX && bytes == capacity * size;
    assert(capacity * size >= len * size) by (nonlinear_arith)
        requires
            capacity >= len,
            size >= 0,
    ;
}

/// Counting a product by countable factors comes to the same.
pub proof fn lemma_countable_product(a: int, b: int)
    requires
        a >= 0,
        b > 0,
    ensures
        countable(countable(a) * countable(b)) == countable(a * b),
{
    let m = usize::MAX as int;
    if a > m {
        assert(m * countable(b) >= m && a * b >= m) by (nonlinear_arith)
            requires
                a > m,
                m > 0,
                b > 0,
                countable(b) > 0,
        ;
        assert(a * b > m) by (nonlinear_arith)
            requires
                a > m,
                m > 0,
                b > 0,
        ;
    } else if b > m && a > 0 {
        assert(a * m >= m && a * b > m) by (nonlinear_arith)
            requires
                b > m,
                m > 0,
                a > 0,
        ;
    } else if a == 0 {
        assert(a * countable(b) == 0 && a * b == 0) by (nonlinear_arith)
            requires
                a == 0,
        ;
    }
}

/// `VecDeque::capacity`: the number of elements the deque can hold without reallocating, which
/// is at least the number it holds. They take no more than `isize::MAX` bytes, which is as much
/// as one allocation can have.
#[verifier::external_body]
fn deque_capacity<A>(deque: &VecDeque<A>) -> (res: usize)
    ensures
        res >= deque@.len(),
        res * vstd::layout::size_of::<A>() <= isize::MAX,
{
    deque.capacity()
}

/// `Vec::capacity`: the number of elements the vector can hold without reallocating, which is
/// at least the number it holds. They take no more than `isize::MAX` bytes, which is as much as
/// one allocation can have.
#[verifier::external_body]
fn vec_capacity<A>(vec: &Vec<A>) -> (res: usize)
    ensures
        res >= vec@.len(),
        res * vstd::layout::size_of::<A>() <= isize::MAX,
{
    vec.capacity()
}

/// `count * size` bytes, as far as that can be counted.
pub fn bytes_of(count: usize, size: usize) -> (res: usize)
    ensures
        res == countable(count * size),
{
    match count.checked_mul(size) {
        Some(bytes) => bytes,
        None => usize::MAX,
    }
}

/// `a + b` bytes, as far as that can be counted.
pub fn sum_of(a: usize, b: usize) -> (res: usize)
    ensures
        res == countable(a + b),
{
    match a.checked_add(b) {
        Some(bytes) => bytes,
        None => usize::MAX,
    }
}

/// The heap memory held by a deque.
pub fn deque_heap_size<A>(deque: &VecDeque<A>) -> (res: usize)
    ensures
        room_for(res, deque@.len(), vstd::layout::size_of::<A>()),
{
    let capacity: usize = deque_capacity(deque);
    capacity * core::mem::size_of::<A>()
}

/// The heap memory held by a vector.
pub fn vec_heap_size<A>(vec: &Vec<A>) -> (res: usize)
    ensures
        room_for(res, vec@.len(), vstd::layout::size_of::<A>()),
{
    let capacity: usize = vec_capacity(vec);
    capacity * core::mem::size_of::<A>()
}

} // verus!
