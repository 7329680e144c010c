//! Natural numbers of any size, as lists of 32-bit limbs with the least
//! significant limb first. The signed integers of the crate are built on
//! them.

use vstd::arithmetic::div_mod::{lemma_fundamental_div_mod, lemma_mod_bound};
use vstd::prelude::*;

verus! {

/// The base of the representation: one more than the largest limb.
pub open spec fn radix() -> int {
    0x1_0000_0000
}

/// The weight of limb `i`: the `i`-th power of the radix.
pub open spec fn weight(i: nat) -> int
    decreases i,
{
    if i == 0 {
        1
    } else {
        radix() * weight((i - 1) as nat)
    }
}

/// The number that a list of limbs stands for.
pub open spec fn limbs_value(limbs: Seq<u32>) -> int
    decreases limbs.len(),
{
    if limbs.len() == 0 {
        0
    } else {
        limbs_value(limbs.drop_last()) + limbs.last() * weight((limbs.len() - 1) as nat)
    }
}

/// The number that the lowest `count` limbs stand for; all of them where
/// `count` is past the end.
pub open spec fn low_value(limbs: Seq<u32>, count: int) -> int {
    if count >= limbs.len() {
        limbs_value(limbs)
    } else if count <= 0 {
        0
    } else {
        limbs_value(limbs.take(count))
    }
}

/// Limb `i`, or 0 past the end.
pub open spec fn limb_at(limbs: Seq<u32>, i: int) -> int {
    if 0 <= i < limbs.len() {
        limbs[i] as int
    } else {
        0
    }
}

pub proof fn lemma_weight_positive(i: nat)
    ensures
        weight(i) >= 1,
    decreases i,
{
    if i > 0 {
        lemma_weight_positive((i - 1) as nat);
        assert(radix() * weight((i - 1) as nat) >= 1) by (nonlinear_arith)
            requires
                weight((i - 1) as nat) >= 1,
                radix() == 0x1_0000_0000,
        ;
    }
}

/// Appending a limb adds it at the weight of its position.
pub proof fn lemma_value_push(limbs: Seq<u32>, limb: u32)
    ensures
        limbs_value(limbs.push(limb)) == limbs_value(limbs) + limb * weight(limbs.len()),
{
    assert(limbs.push(limb).drop_last() =~= limbs);
}

/// A list of limbs stands for a number below the weight of its length.
pub proof fn lemma_value_bounds(limbs: Seq<u32>)
    ensures
        0 <= limbs_value(limbs) < weight(limbs.len()),
    decreases limbs.len(),
{
    if limbs.len() > 0 {
        let n = (limbs.len() - 1) as nat;
        lemma_value_bounds(limbs.drop_last());
        lemma_weight_positive(n);
        let top = limbs.last() as int;
        let w = weight(n);
        assert(0 <= top * w && top * w + w <= radix() * w) by (nonlinear_arith)
            requires
                0 <= top < radix(),
                w >= 1,
        ;
    }
}

/// One more limb of a prefix adds that limb at its weight.
pub proof fn lemma_low_value_step(limbs: Seq<u32>, i: int)
    requires
        0 <= i,
    ensures
        low_value(limbs, i + 1) == low_value(limbs, i) + limb_at(limbs, i) * weight(i as nat),
{
    if i < limbs.len() {
        let upto = limbs.take(i + 1);
        assert(upto.drop_last() =~= limbs.take(i));
        assert(upto.last() == limbs[i]);
        assert(limbs_value(upto) == limbs_value(upto.drop_last()) + upto.last() * weight(i as nat));
        if i + 1 == limbs.len() {
            assert(upto =~= limbs);
        }
        if i == 0 {
            assert(limbs.take(0) =~= Seq::<u32>::empty());
            assert(limbs_value(limbs.take(0)) == 0);
        }
    }
}

/// A number whose lowest limb is split off: the limb plus the radix times
/// the rest.
pub proof fn lemma_value_front(limbs: Seq<u32>)
    requires
        limbs.len() > 0,
    ensures
        limbs_value(limbs) == limbs[0] + radix() * limbs_value(limbs.drop_first()),
    decreases limbs.len(),
{
    if limbs.len() == 1 {
        assert(limbs.drop_last() =~= Seq::<u32>::empty());
        assert(limbs.drop_first() =~= Seq::<u32>::empty());
    } else {
        let n = (limbs.len() - 1) as nat;
        let body = limbs.drop_last();
        lemma_value_front(body);
        assert(body.drop_first() =~= limbs.drop_first().drop_last());
        assert(limbs.drop_first().last() == limbs.last());
        let top = limbs.last() as int;
        let w = weight((n - 1) as nat);
        assert(top * (radix() * w) == radix() * (top * w)) by (nonlinear_arith);
        assert(radix() * (limbs_value(body.drop_first()) + top * w) == radix() * limbs_value(
            body.drop_first(),
        ) + radix() * (top * w)) by (nonlinear_arith);
    }
}

/// Drops the zero limbs at the top.
pub fn trim(limbs: &mut Vec<u32>)
    ensures
        limbs_value(final(limbs)@) == limbs_value(old(limbs)@),
        final(limbs)@.len() <= old(limbs)@.len(),
        final(limbs)@.len() > 0 ==> final(limbs)@.last() != 0,
{
    while limbs.len() > 0 && limbs[limbs.len() - 1] == 0
        invariant
            limbs_value(limbs@) == limbs_value(old(limbs)@),
            limbs@.len() <= old(limbs)@.len(),
        decreases limbs@.len(),
    {
        let ghost before = limbs@;
        assert(limbs_value(before) == limbs_value(before.drop_last()) + before.last() * weight(
            (before.len() - 1) as nat,
        ));
        let ghost top = before.last() as int;
        let ghost w = weight((before.len() - 1) as nat);
        assert(top * w == 0) by (nonlinear_arith)
            requires
                top == 0,
        ;
        limbs.pop();
        assert(limbs@ =~= before.drop_last());
    }
}

/// The sum of two numbers.
pub fn add_limbs(a: &Vec<u32>, b: &Vec<u32>) -> (sum: Vec<u32>)
    ensures
        limbs_value(sum@) == limbs_value(a@) + limbs_value(b@),
{
    let n = if a.len() >= b.len() { a.len() } else { b.len() };
    let mut sum: Vec<u32> = Vec::new();
    let mut carry: u64 = 0;
    let mut i: usize = 0;
    while i < n
        invariant
            i <= n,
            n >= a@.len(),
            n >= b@.len(),
            sum@.len() == i,
            carry <= 1,
            limbs_value(sum@) + carry * weight(i as nat) == low_value(a@, i as int) + low_value(
                b@,
                i as int,
            ),
        decreases n - i,
    {
        let x: u64 = if i < a.len() { a[i] as u64 } else { 0 };
        let y: u64 = if i < b.len() { b[i] as u64 } else { 0 };
        let total: u64 = x + y + carry;
        let low: u32 = (total % 0x1_0000_0000) as u32;
        let high: u64 = total / 0x1_0000_0000;
        proof {
            lemma_low_value_step(a@, i as int);
            lemma_low_value_step(b@, i as int);
            lemma_value_push(sum@, low);
            let w = weight(i as nat);
            assert(total == low + high * radix());
            assert(total * w == low * w + high * (radix() * w)) by (nonlinear_arith)
                requires
                    total == low + high * radix(),
            ;
            assert((x + y + carry) * w == x * w + y * w + carry * w) by (nonlinear_arith);
        }
        sum.push(low);
        carry = high;
        i += 1;
    }
    proof {
        lemma_value_push(sum@, carry as u32);
    }
    if carry > 0 {
        sum.push(carry as u32);
    }
    sum
}

/// The sign of a number.
#[derive(Debug, Clone, Copy, PartialEq, Eq, Structural)]
pub enum Sign {
    /// Below zero.
    Minus,
    /// Zero.
    Zero,
    /// Above zero.
    Plus,
}

/// The sign of `x`.
pub open spec fn sign_of(x: int) -> Sign {
    if x < 0 {
        Sign::Minus
    } else if x == 0 {
        Sign::Zero
    } else {
        Sign::Plus
    }
}

pub proof fn lemma_weight_monotone(i: nat, j: nat)
    requires
        i <= j,
    ensures
        weight(i) <= weight(j),
    decreases j,
{
    if i < j {
        lemma_weight_monotone(i, (j - 1) as nat);
        lemma_weight_positive((j - 1) as nat);
        assert(weight((j - 1) as nat) <= radix() * weight((j - 1) as nat)) by (nonlinear_arith)
            requires
                weight((j - 1) as nat) >= 1,
                radix() == 0x1_0000_0000,
        ;
    }
}

/// The lowest `count` limbs stand for a number below the weight of `count`.
pub proof fn lemma_low_value_bounds(limbs: Seq<u32>, count: int)
    requires
        0 <= count,
    ensures
        0 <= low_value(limbs, count) < weight(count as nat),
{
    if count >= limbs.len() {
        lemma_value_bounds(limbs);
        lemma_weight_monotone(limbs.len(), count as nat);
    } else if count > 0 {
        lemma_value_bounds(limbs.take(count));
    }
}

/// The sign of the difference of two numbers.
pub fn compare_limbs(a: &Vec<u32>, b: &Vec<u32>) -> (sign: Sign)
    ensures
        sign == sign_of(limbs_value(a@) - limbs_value(b@)),
{
    let n = if a.len() >= b.len() { a.len() } else { b.len() };
    let mut i: usize = n;
    while i > 0
        invariant
            i <= n,
            n >= a@.len(),
            n >= b@.len(),
            limbs_value(a@) - limbs_value(b@) == low_value(a@, i as int) - low_value(b@, i as int),
        decreases i,
    {
        i -= 1;
        let x: u32 = if i < a.len() { a[i] } else { 0 };
        let y: u32 = if i < b.len() { b[i] } else { 0 };
        proof {
            lemma_low_value_step(a@, i as int);
            lemma_low_value_step(b@, i as int);
            lemma_low_value_bounds(a@, i as int);
            lemma_low_value_bounds(b@, i as int);
            let w = weight(i as nat);
            if x < y {
                assert(x * w + w <= y * w) by (nonlinear_arith)
                    requires
                        x + 1 <= y,
                        w >= 0,
                ;
            }
            if x > y {
                assert(y * w + w <= x * w) by (nonlinear_arith)
                    requires
                        y + 1 <= x,
                        w >= 0,
                ;
            }
        }
        if x < y {
            return Sign::Minus;
        }
        if x > y {
            return Sign::Plus;
        }
    }
    Sign::Zero
}

/// The difference of two numbers, the first of which is not the smaller.
pub fn sub_limbs(a: &Vec<u32>, b: &Vec<u32>) -> (difference: Vec<u32>)
    requires
        limbs_value(a@) >= limbs_value(b@),
    ensures
        limbs_value(difference@) == limbs_value(a@) - limbs_value(b@),
{
    let n = if a.len() >= b.len() { a.len() } else { b.len() };
    let mut difference: Vec<u32> = Vec::new();
    let mut borrow: u64 = 0;
    let mut i: usize = 0;
    while i < n
        invariant
            i <= n,
            n >= a@.len(),
            n >= b@.len(),
            difference@.len() == i,
            borrow <= 1,
            limbs_value(difference@) - borrow * weight(i as nat) == low_value(a@, i as int)
                - low_value(b@, i as int),
        decreases n - i,
    {
        let x: u64 = if i < a.len() { a[i] as u64 } else { 0 };
        let y: u64 = if i < b.len() { b[i] as u64 } else { 0 };
        let taken: u64 = y + borrow;
        let (digit, next): (u32, u64) = if x >= taken {
            ((x - taken) as u32, 0)
        } else {
            ((x + 0x1_0000_0000 - taken) as u32, 1)
        };
        proof {
            lemma_low_value_step(a@, i as int);
            lemma_low_value_step(b@, i as int);
            lemma_value_push(difference@, digit);
            let w = weight(i as nat);
            assert(digit - next * radix() == x - y - borrow);
            assert((digit - next * radix()) * w == digit * w - next * (radix() * w))
                by (nonlinear_arith);
            assert((x - y - borrow) * w == x * w - y * w - borrow * w) by (nonlinear_arith);
        }
        difference.push(digit);
        borrow = next;
        i += 1;
    }
    proof {
        lemma_value_bounds(difference@);
        let w = weight(n as nat);
        assert(borrow * w == if borrow == 0 { 0 } else { w }) by (nonlinear_arith)
            requires
                borrow <= 1,
        ;
    }
    trim(&mut difference);
    difference
}

/// Weights multiply by adding their positions.
pub proof fn lemma_weight_adds(i: nat, j: nat)
    ensures
        weight(i + j) == weight(i) * weight(j),
    decreases j,
{
    if j == 0 {
        assert(weight(i) * 1 == weight(i)) by (nonlinear_arith);
    } else {
        lemma_weight_adds(i, (j - 1) as nat);
        let x = weight(i);
        let y = weight((j - 1) as nat);
        assert(radix() * (x * y) == x * (radix() * y)) by (nonlinear_arith);
    }
}

/// Replacing one limb changes the number by the change of the limb at its
/// weight.
pub proof fn lemma_value_update(limbs: Seq<u32>, k: int, limb: u32)
    requires
        0 <= k < limbs.len(),
    ensures
        limbs_value(limbs.update(k, limb)) == limbs_value(limbs) + (limb - limbs[k]) * weight(
            k as nat,
        ),
    decreases limbs.len(),
{
    let changed = limbs.update(k, limb);
    let top = (limbs.len() - 1) as nat;
    if k == limbs.len() - 1 {
        assert(changed.drop_last() =~= limbs.drop_last());
        assert((limb - limbs[k]) * weight(top) == limb * weight(top) - limbs[k] * weight(top))
            by (nonlinear_arith);
    } else {
        assert(changed.drop_last() =~= limbs.drop_last().update(k, limb));
        lemma_value_update(limbs.drop_last(), k, limb);
    }
}

/// The product of two numbers.
pub fn mul_limbs(a: &Vec<u32>, b: &Vec<u32>) -> (product: Vec<u32>)
    ensures
        limbs_value(product@) == limbs_value(a@) * limbs_value(b@),
{
    let rows = a.len();
    let columns = b.len();
    let mut product: Vec<u32> = Vec::new();
    let mut filled: usize = 0;
    while filled < rows
        invariant
            filled <= rows,
            product@.len() == filled,
            forall|k: int| 0 <= k < filled ==> product@[k] == 0,
        decreases rows - filled,
    {
        product.push(0);
        filled += 1;
    }
    filled = 0;
    while filled < columns
        invariant
            filled <= columns,
            product@.len() == rows + filled,
            forall|k: int| 0 <= k < rows + filled ==> product@[k] == 0,
        decreases columns - filled,
    {
        product.push(0);
        filled += 1;
    }
    let length = product.len();
    proof {
        lemma_zero_limbs(product@);
        assert(0 * limbs_value(b@) == 0) by (nonlinear_arith);
    }
    let mut i: usize = 0;
    while i < rows
        invariant
            i <= rows,
            rows == a@.len(),
            columns == b@.len(),
            length == rows + columns,
            product@.len() == length,
            limbs_value(product@) == low_value(a@, i as int) * limbs_value(b@),
            forall|k: int| i + columns <= k < length ==> product@[k] == 0,
        decreases rows - i,
    {
        let x: u64 = a[i] as u64;
        let ghost done = low_value(a@, i as int) * limbs_value(b@);
        let ghost place = weight(i as nat);
        let mut carry: u64 = 0;
        let mut j: usize = 0;
        proof {
            assert(x * place * 0 == 0) by (nonlinear_arith);
            assert(carry * weight((i + j) as nat) == 0) by (nonlinear_arith)
                requires
                    carry == 0,
            ;
        }
        while j < columns
            invariant
                i < rows,
                j <= columns,
                rows == a@.len(),
                columns == b@.len(),
                length == rows + columns,
                product@.len() == length,
                x == a@[i as int],
                place == weight(i as nat),
                carry < 0x1_0000_0000,
                limbs_value(product@) + carry * weight((i + j) as nat) == done + x * place
                    * low_value(b@, j as int),
                forall|k: int| i + columns <= k < length ==> product@[k] == 0,
            decreases columns - j,
        {
            let y: u64 = b[j] as u64;
            let old: u64 = product[i + j] as u64;
            assert(x * y <= 0xffff_ffff * 0xffff_ffff) by (nonlinear_arith)
                requires
                    x <= 0xffff_ffff,
                    y <= 0xffff_ffff,
            ;
            let total: u64 = old + x * y + carry;
            let low: u32 = (total % 0x1_0000_0000) as u32;
            let high: u64 = total / 0x1_0000_0000;
            proof {
                lemma_value_update(product@, (i + j) as int, low);
                lemma_low_value_step(b@, j as int);
                lemma_weight_adds(i as nat, j as nat);
                let here = weight((i + j) as nat);
                let column = weight(j as nat);
                let seen = low_value(b@, j as int);
                assert(total == low + high * radix());
                assert((low - old) * here + high * (radix() * here) == (x * y + carry) * here)
                    by (nonlinear_arith)
                    requires
                        old + x * y + carry == low + high * radix(),
                ;
                assert((x * y + carry) * here == x * place * (y * column) + carry * here)
                    by (nonlinear_arith)
                    requires
                        here == place * column,
                ;
                assert(x * place * (seen + y * column) == x * place * seen + x * place * (y
                    * column)) by (nonlinear_arith);
            }
            product.set(i + j, low);
            carry = high;
            j += 1;
        }
        proof {
            lemma_value_update(product@, (i + columns) as int, carry as u32);
            lemma_low_value_step(a@, i as int);
            let other = limbs_value(b@);
            let before = low_value(a@, i as int);
            assert((before + x * place) * other == before * other + x * place * other)
                by (nonlinear_arith);
            assert((carry - 0) * weight((i + columns) as nat) == carry * weight(
                (i + columns) as nat,
            )) by (nonlinear_arith);
        }
        product.set(i + columns, carry as u32);
        i += 1;
    }
    trim(&mut product);
    product
}

/// Limbs that are all zero stand for zero.
pub proof fn lemma_zero_limbs(limbs: Seq<u32>)
    requires
        forall|k: int| 0 <= k < limbs.len() ==> limbs[k] == 0,
    ensures
        limbs_value(limbs) == 0,
    decreases limbs.len(),
{
    if limbs.len() > 0 {
        lemma_zero_limbs(limbs.drop_last());
        let top = limbs.last() as int;
        let w = weight((limbs.len() - 1) as nat);
        assert(top * w == 0) by (nonlinear_arith)
            requires
                top == 0,
        ;
    }
}

/// The quotient and the remainder of a number by one limb.
pub fn divide_limbs(a: &Vec<u32>, divisor: u32) -> (result: (Vec<u32>, u32))
    requires
        divisor > 0,
    ensures
        limbs_value(result.0@) * divisor + result.1 == limbs_value(a@),
        result.1 < divisor,
{
    let n = a.len();
    let mut quotient: Vec<u32> = Vec::new();
    let mut i: usize = 0;
    while i < n
        invariant
            i <= n,
            quotient@.len() == i,
        decreases n - i,
    {
        quotient.push(0);
        i += 1;
    }
    let mut rest: u64 = 0;
    assert(a@.skip(n as int) =~= Seq::<u32>::empty());
    assert(quotient@.skip(n as int) =~= Seq::<u32>::empty());
    assert(0 * divisor == 0) by (nonlinear_arith);
    while i > 0
        invariant
            i <= n,
            n == a@.len(),
            n == quotient@.len(),
            divisor > 0,
            rest < divisor,
            limbs_value(quotient@.skip(i as int)) * divisor + rest == limbs_value(a@.skip(i as int)),
        decreases i,
    {
        i -= 1;
        let ghost before = quotient@;
        let current: u64 = rest * 0x1_0000_0000 + a[i] as u64;
        let digit: u64 = current / (divisor as u64);
        let left: u64 = current % (divisor as u64);
        proof {
            lemma_fundamental_div_mod(current as int, divisor as int);
            lemma_mod_bound(current as int, divisor as int);
            assert(current < divisor * 0x1_0000_0000) by (nonlinear_arith)
                requires
                    current == rest * 0x1_0000_0000 + a@[i as int],
                    a@[i as int] < 0x1_0000_0000,
                    rest + 1 <= divisor,
            ;
            assert(digit < 0x1_0000_0000) by (nonlinear_arith)
                requires
                    current == divisor * digit + left,
                    current < divisor * 0x1_0000_0000,
                    0 <= left,
                    divisor > 0,
            ;
        }
        quotient.set(i, digit as u32);
        proof {
            let tail = a@.skip(i as int);
            lemma_value_front(tail);
            assert(tail.drop_first() =~= a@.skip(i + 1));
            let found = quotient@.skip(i as int);
            lemma_value_front(found);
            assert(found.drop_first() =~= before.skip(i + 1));
            let high = limbs_value(before.skip(i + 1));
            assert((digit + radix() * high) * divisor + left == divisor * digit + left + radix() * (
            high * divisor)) by (nonlinear_arith);
            assert(radix() * (high * divisor + rest) == radix() * (high * divisor) + rest * radix())
                by (nonlinear_arith);
        }
        rest = left;
    }
    assert(a@.skip(0) =~= a@);
    assert(quotient@.skip(0) =~= quotient@);
    trim(&mut quotient);
    (quotient, rest as u32)
}

} // verus!
