//! Solver buffers: resizing, padding to whole SIMD lanes, and the rows of a generic vector that
//! belong to one multibody.

use vstd::prelude::*;
use vstd::arithmetic::div_mod::{
    lemma_fundamental_div_mod, lemma_fundamental_div_mod_converse, lemma_mod_multiples_basic,
};
use vstd::arithmetic::mul::{lemma_mul_is_commutative, lemma_mul_is_distributive_sub_other_way};

verus! {

/// `n` copies of a value.
pub open spec fn filled<T>(n: nat, value: T) -> Seq<T> {
    Seq::new(n, |i: int| value)
}

/// A sequence cut or extended to `n` elements. The elements that both lengths have stay as they
/// are, those that are new are `fill`.
pub open spec fn resized<T>(s: Seq<T>, n: nat, fill: T) -> Seq<T> {
    Seq::new(
        n,
        |i: int|
            if i < s.len() {
                s[i]
            } else {
                fill
            },
    )
}

/// The `n` rows that start at `base`.
pub open spec fn rows<T>(s: Seq<T>, base: int, n: nat) -> Seq<T> {
    s.subrange(base, base + n)
}

/// A sequence whose rows from `base` on are replaced by those given.
pub open spec fn with_rows<T>(s: Seq<T>, base: int, values: Seq<T>) -> Seq<T> {
    Seq::new(
        s.len(),
        |i: int|
            if base <= i < base + values.len() {
                values[i - base]
            } else {
                s[i]
            },
    )
}

/// The least multiple of `width` that is at least `n`.
pub open spec fn aligned_len(n: nat, width: nat) -> nat {
    ((n + width - 1) as nat / width) * width
}

/// Rounding up to whole lanes adds less than one lane group, and what comes out is made of whole
/// groups. No smaller multiple of the width would do.
pub proof fn law_aligned_len(n: nat, width: nat)
    requires
        width > 0,
    ensures
        n <= aligned_len(n, width) < n + width,
        aligned_len(n, width) % width == 0,
        forall|m: nat| m >= n && #[trigger] (m % width) == 0 ==> m >= aligned_len(n, width),
{
    let groups = (n + width - 1) / (width as int);
    lemma_fundamental_div_mod(n + width - 1, width as int);
    lemma_mul_is_commutative(width as int, groups);
    assert(aligned_len(n, width) == groups * width);
    lemma_mod_multiples_basic(groups, width as int);
    assert forall|m: nat| m >= n && #[trigger] (m % width) == 0 implies m >= aligned_len(
        n,
        width,
    ) by {
        let k = m / width;
        lemma_fundamental_div_mod(m as int, width as int);
        lemma_mul_is_commutative(width as int, k as int);
        if m < aligned_len(n, width) {
            lemma_mul_is_distributive_sub_other_way(width as int, groups, k as int);
            assert(groups - k <= 0 || (groups - k) * width >= width) by (nonlinear_arith)
                requires
                    width > 0,
            ;
            assert(groups - k <= 0 ==> (groups - k) * width <= 0) by (nonlinear_arith)
                requires
                    width > 0,
            ;
        }
    }
}

/// The number of lanes of a SIMD number.
pub open spec fn simd_lanes() -> nat {
    4
}

/// The number of lanes of a SIMD number.
///
/// This is the constant `parry3d::math::SIMD_WIDTH`. It is taken to be four, which is what that
/// crate declares unless its eight-lane feature is switched on.
#[verifier::external_body]
fn simd_width() -> (width: usize)
    ensures
        width == simd_lanes(),
{
    parry3d::math::SIMD_WIDTH
}

/// Rounds a length up to a whole number of SIMD lane groups.
pub fn align_to_simd(n: usize) -> (aligned: usize)
    requires
        aligned_len(n as nat, simd_lanes()) <= usize::MAX,
    ensures
        aligned == aligned_len(n as nat, simd_lanes()),
        aligned % 4 == 0,
        n <= aligned < n + 4,
{
    align(n, simd_width())
}

/// Rounds a length up to a multiple of a width.
pub fn align(n: usize, width: usize) -> (aligned: usize)
    requires
        width > 0,
        aligned_len(n as nat, width as nat) <= usize::MAX,
    ensures
        aligned == aligned_len(n as nat, width as nat),
        aligned % width == 0,
        n <= aligned < n + width,
{
    proof {
        law_aligned_len(n as nat, width as nat);
        let d = n as int / width as int;
        let r = n as int % width as int;
        lemma_fundamental_div_mod(n as int, width as int);
        lemma_mul_is_commutative(d, width as int);
        if r == 0 {
            lemma_fundamental_div_mod_converse(n + width - 1, width as int, d, width - 1);
        } else {
            assert(d <= d * width) by (nonlinear_arith)
                requires
                    d >= 0,
                    width > 0,
            ;
            assert((d + 1) * width == d * width + width) by (nonlinear_arith);
            lemma_mul_is_commutative(d + 1, width as int);
            lemma_fundamental_div_mod_converse(n + width - 1, width as int, d + 1, r - 1);
        }
    }
    let groups: usize = if n % width == 0 {
        n / width
    } else {
        n / width + 1
    };
    groups * width
}

/// Cuts or extends a buffer to `n` elements.
pub fn resize<T: Copy>(buffer: &mut Vec<T>, n: usize, fill: T)
    ensures
        final(buffer)@ == resized(old(buffer)@, n as nat, fill),
        final(buffer)@.len() == n,
        forall|i: int|
            0 <= i < n && i < old(buffer)@.len() ==> #[trigger] final(buffer)@[i]
                == old(buffer)@[i],
        forall|i: int| old(buffer)@.len() <= i < n ==> #[trigger] final(buffer)@[i] == fill,
{
    let ghost before = buffer@;
    buffer.truncate(n);
    while buffer.len() < n
        invariant
            buffer.len() <= n,
            buffer@ == resized(before, buffer@.len(), fill),
            before.len() <= n ==> buffer.len() >= before.len(),
            before.len() > n ==> buffer.len() == n,
        decreases n - buffer.len(),
    {
        buffer.push(fill);
    }
}

/// Empties a buffer and fills it with `n` copies of a value.
pub fn refill<T: Copy>(buffer: &mut Vec<T>, n: usize, value: T)
    ensures
        final(buffer)@ == filled(n as nat, value),
        final(buffer)@.len() == n,
        forall|i: int| 0 <= i < n ==> #[trigger] final(buffer)@[i] == value,
{
    buffer.clear();
    resize(buffer, n, value);
}

/// Copies rows out of a generic vector.
pub fn read_rows<T: Copy>(vector: &Vec<T>, base: usize, n: usize) -> (out: Vec<T>)
    requires
        base + n <= vector.len(),
    ensures
        out@ == rows(vector@, base as int, n as nat),
        out@ == vector@.subrange(base as int, base + n),
{
    let mut out: Vec<T> = Vec::new();
    while out.len() < n
        invariant
            base + n <= vector.len(),
            out.len() <= n,
            out@ == rows(vector@, base as int, out@.len()),
        decreases n - out.len(),
    {
        let i: usize = base + out.len();
        out.push(vector[i]);
    }
    out
}

/// Copies values into the rows of a generic vector.
pub fn write_rows<T: Copy>(vector: &mut Vec<T>, base: usize, values: &Vec<T>)
    requires
        base + values.len() <= old(vector).len(),
    ensures
        final(vector)@ == with_rows(old(vector)@, base as int, values@),
        final(vector)@ == old(vector)@.subrange(0, base as int) + values@ + old(vector)@.subrange(
            base + values@.len(),
            old(vector)@.len() as int,
        ),
{
    let ghost before = vector@;
    let mut k: usize = 0;
    while k < values.len()
        invariant
            k <= values.len(),
            base + values.len() <= vector.len(),
            vector@ == with_rows(before, base as int, values@.take(k as int)),
        decreases values.len() - k,
    {
        vector.set(base + k, values[k]);
        k += 1;
    }
    assert(values@.take(k as int) == values@);
    assert(vector@ =~= before.subrange(0, base as int) + values@ + before.subrange(
        base + values@.len(),
        before.len() as int,
    ));
}

/// A reference to each element of a buffer, to change it in place.
pub fn each_mut<'a, T>(buffer: &'a mut Vec<T>) -> (refs: Vec<&'a mut T>)
    ensures
        refs@.len() == old(buffer)@.len(),
        final(buffer)@.len() == old(buffer)@.len(),
        forall|i: int| 0 <= i < refs@.len() ==> *(#[trigger] refs@[i]) == old(buffer)@[i],
        forall|i: int| 0 <= i < refs@.len() ==> *final(#[trigger] refs@[i]) == final(buffer)@[i],
{
    let ghost before = buffer@;
    let mut refs: Vec<&'a mut T> = Vec::new();
    let mut rest: &'a mut [T] = buffer.as_mut_slice();
    while rest.len() > 0
        invariant
            refs@.len() + rest@.len() == before.len(),
            rest@ == before.skip(refs@.len() as int),
            forall|i: int| 0 <= i < refs@.len() ==> *(#[trigger] refs@[i]) == before[i],
            after_borrow(buffer)@.len() == refs@.len() + final(rest)@.len(),
            forall|i: int|
                0 <= i < refs@.len() ==> *final(#[trigger] refs@[i]) == after_borrow(buffer)@[i],
            forall|i: int|
                0 <= i < final(rest)@.len() ==> (#[trigger] final(rest)@[i]) == after_borrow(
                    buffer,
                )@[refs@.len() + i],
        decreases rest@.len(),
    {
        let ghost n = refs@.len() as int;
        assert(final(rest)@.len() > 0 ==> final(rest)@[0] == after_borrow(buffer)@[n]);
        let (head, tail) = rest.split_at_mut(1);
        assert(after_borrow(rest)@ == final(head)@ + final(tail)@);
        let first = head.first_mut().unwrap();
        assert(after_borrow(head)@ =~= seq![*final(first)]);
        refs.push(first);
        assert(after_borrow(rest)@[0] == *final(refs@[n]));
        assert(forall|i: int|
            0 <= i < final(tail)@.len() ==> (#[trigger] final(tail)@[i]) == after_borrow(rest)@[i
                + 1]);
        rest = tail;
    }
    refs
}

} // verus!
