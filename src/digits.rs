//! Password rules over the decimal digits of a number: the digits never
//! decrease from left to right, and some digit repeats.
use smallvec::SmallVec;
use vstd::prelude::*;

verus! {

/// Group sizes, kept in a `SmallVec` that stays on the stack for the few
/// groups a number has.
#[verifier::external_body]
pub struct DigitGroups {
    items: SmallVec<[u8; 6]>,
}

/// The group sizes held, in order.
pub uninterp spec fn digit_groups(v: DigitGroups) -> Seq<u8>;

/// Relies on `SmallVec::new`: the new vector is empty.
#[verifier::external_body]
fn groups_new() -> (r: DigitGroups)
    ensures
        digit_groups(r) == Seq::<u8>::empty(),
{
    DigitGroups { items: SmallVec::new() }
}

/// Relies on `SmallVec::push`: appends the item at the end.
#[verifier::external_body]
fn groups_push(v: &mut DigitGroups, x: u8)
    requires
        digit_groups(*old(v)).len() < usize::MAX,
    ensures
        digit_groups(*final(v)) == digit_groups(*old(v)).push(x),
{
    v.items.push(x)
}

/// Relies on `SmallVec::len`: the number of items held.
#[verifier::external_body]
fn groups_len(v: &DigitGroups) -> (r: usize)
    ensures
        r == digit_groups(*v).len(),
{
    v.items.len()
}

/// Relies on indexing a `SmallVec` (through its slice): the item at `i`.
#[verifier::external_body]
fn groups_get(v: &DigitGroups, i: usize) -> (r: u8)
    requires
        i < digit_groups(*v).len(),
    ensures
        r == digit_groups(*v)[i as int],
{
    v.items[i]
}

/// Relies on mutable indexing of a `SmallVec`: replaces the item at `i`.
#[verifier::external_body]
fn groups_set(v: &mut DigitGroups, i: usize, x: u8)
    requires
        i < digit_groups(*old(v)).len(),
    ensures
        digit_groups(*final(v)) == digit_groups(*old(v)).update(i as int, x),
{
    v.items[i] = x;
}

/// The decimal digits of `n`, least significant first; none for zero.
pub open spec fn reverse_digits_of(n: nat) -> Seq<u8>
    decreases n,
{
    if n == 0 {
        Seq::<u8>::empty()
    } else {
        seq![(n % 10) as u8] + reverse_digits_of(n / 10)
    }
}

/// Read from the most significant digit, the digits never decrease.
pub open spec fn never_decreasing(d: Seq<u8>) -> bool {
    forall|i: int| 0 <= i < d.len() - 1 ==> #[trigger] d[i + 1] <= d[i]
}

/// Two adjacent digits are equal.
pub open spec fn has_pair(d: Seq<u8>) -> bool {
    exists|i: int| 0 <= i < d.len() - 1 && #[trigger] d[i] == d[i + 1]
}

/// For each run of equal adjacent digits, in order, its length less one.
pub open spec fn run_extras(d: Seq<u8>) -> Seq<int>
    decreases d.len(),
{
    if d.len() == 0 {
        Seq::<int>::empty()
    } else {
        let r = run_extras(d.drop_last());
        if d.len() >= 2 && d.last() == d[d.len() - 2] {
            r.update(r.len() - 1, r.last() + 1)
        } else {
            r.push(0)
        }
    }
}

/// The first rule: digits never decrease and two adjacent ones are equal.
pub open spec fn valid_first(n: nat) -> bool {
    never_decreasing(reverse_digits_of(n)) && has_pair(reverse_digits_of(n))
}

/// The second rule: digits never decrease and some run of equal digits is
/// exactly two long.
pub open spec fn valid_second(n: nat) -> bool {
    never_decreasing(reverse_digits_of(n)) && run_extras(reverse_digits_of(n)).contains(1)
}

/// How many numbers in `lo..=hi` meet the chosen rule.
pub open spec fn valid_count(lo: int, hi: int, second: bool) -> nat
    decreases hi - lo + 1,
{
    if lo > hi {
        0
    } else {
        valid_count(lo, hi - 1, second) + if (if second {
            valid_second(hi as nat)
        } else {
            valid_first(hi as nat)
        }) {
            1nat
        } else {
            0nat
        }
    }
}

/// Ten to the power `k`.
pub open spec fn pow10(k: nat) -> nat
    decreases k,
{
    if k == 0 {
        1
    } else {
        10 * pow10((k - 1) as nat)
    }
}

proof fn lemma_reverse_digits_bounds(n: nat, k: nat)
    requires
        n < pow10(k),
    ensures
        reverse_digits_of(n).len() <= k,
        forall|j: int| 0 <= j < reverse_digits_of(n).len() ==> #[trigger] reverse_digits_of(n)[j] <= 9,
    decreases k,
{
    if n > 0 {
        lemma_reverse_digits_bounds(n / 10, (k - 1) as nat);
        let d = reverse_digits_of(n);
        assert forall|j: int| 0 <= j < d.len() implies #[trigger] d[j] <= 9 by {
            if j > 0 {
                assert(d[j] == reverse_digits_of(n / 10)[j - 1]);
            }
        }
    }
}

proof fn lemma_u32_digits(num: u32)
    ensures
        reverse_digits_of(num as nat).len() <= 10,
        forall|j: int|
            0 <= j < reverse_digits_of(num as nat).len() ==> #[trigger] reverse_digits_of(num as nat)[j]
                <= 9,
{
    assert(pow10(0) == 1);
    assert(pow10(1) == 10);
    assert(pow10(2) == 100);
    assert(pow10(3) == 1000);
    assert(pow10(4) == 10000);
    assert(pow10(5) == 100000);
    assert(pow10(6) == 1000000);
    assert(pow10(7) == 10000000);
    assert(pow10(8) == 100000000);
    assert(pow10(9) == 1000000000);
    assert(pow10(10) == 10000000000);
    lemma_reverse_digits_bounds(num as nat, 10);
}

proof fn lemma_run_extras_shape(d: Seq<u8>)
    ensures
        run_extras(d).len() <= d.len(),
        d.len() > 0 ==> run_extras(d).len() > 0,
        forall|i: int| 0 <= i < run_extras(d).len() ==> 0 <= #[trigger] run_extras(d)[i] < d.len(),
    decreases d.len(),
{
    if d.len() > 0 {
        lemma_run_extras_shape(d.drop_last());
    }
}

/// The decimal digits of `num`, least significant first.
pub fn reverse_digits(num: u32) -> (r: Vec<u8>)
    ensures
        r@ == reverse_digits_of(num as nat),
{
    let mut n = num;
    let mut v: Vec<u8> = Vec::new();
    while n != 0
        invariant
            v@ + reverse_digits_of(n as nat) == reverse_digits_of(num as nat),
        decreases n,
    {
        let ghost prev = v@;
        v.push((n % 10) as u8);
        proof {
            assert(prev + reverse_digits_of(n as nat) =~= v@ + reverse_digits_of((n / 10) as nat));
        }
        n = n / 10;
    }
    assert(v@ + Seq::<u8>::empty() =~= v@);
    v
}

/// The digits never decrease and two adjacent digits are equal.
pub fn check_part1(num: u32) -> (r: bool)
    ensures
        r == valid_first(num as nat),
{
    let digits = reverse_digits(num);
    let ghost d = digits@;
    proof {
        lemma_u32_digits(num);
    }
    let mut last_digit: u8 = 255;
    let mut found_duplicate = false;
    let mut i: usize = 0;
    while i < digits.len()
        invariant
            d == digits@,
            d == reverse_digits_of(num as nat),
            i <= d.len(),
            forall|j: int| 0 <= j < d.len() ==> #[trigger] d[j] <= 9,
            i == 0 ==> last_digit == 255,
            i > 0 ==> last_digit == d[i - 1],
            never_decreasing(d.subrange(0, i as int)),
            found_duplicate == has_pair(d.subrange(0, i as int)),
        decreases digits.len() - i,
    {
        let digit = digits[i];
        let ghost before = d.subrange(0, i as int);
        let ghost after = d.subrange(0, i + 1);
        if digit > last_digit {
            proof {
                assert(d[i - 1 + 1] > d[i - 1]);
            }
            return false;
        } else if digit == last_digit {
            found_duplicate = true;
            proof {
                assert(after[i - 1] == after[i - 1 + 1]);
            }
        } else {
            proof {
                if has_pair(after) {
                    let k = choose|k: int| 0 <= k < after.len() - 1 && #[trigger] after[k] == after[k + 1];
                    assert(before[k] == before[k + 1]);
                }
            }
        }
        proof {
            assert forall|j: int| 0 <= j < after.len() - 1 implies #[trigger] after[j + 1] <= after[j] by {
                if j < i - 1 {
                    assert(before[j + 1] <= before[j]);
                }
            }
            if has_pair(before) {
                let k = choose|k: int| 0 <= k < before.len() - 1 && #[trigger] before[k] == before[k + 1];
                assert(after[k] == after[k + 1]);
            }
        }
        last_digit = digit;
        i = i + 1;
    }
    assert(d.subrange(0, d.len() as int) =~= d);
    found_duplicate
}

/// The digits never decrease and some run of equal digits is exactly two long.
pub fn check_part2(num: u32) -> (r: bool)
    ensures
        r == valid_second(num as nat),
{
    let digits = reverse_digits(num);
    let ghost d = digits@;
    proof {
        lemma_u32_digits(num);
    }
    let mut last_digit: u8 = 255;
    let mut groups = groups_new();
    let mut i: usize = 0;
    while i < digits.len()
        invariant
            d == digits@,
            d == reverse_digits_of(num as nat),
            i <= d.len(),
            d.len() <= 10,
            forall|j: int| 0 <= j < d.len() ==> #[trigger] d[j] <= 9,
            i == 0 ==> last_digit == 255,
            i > 0 ==> last_digit == d[i - 1],
            never_decreasing(d.subrange(0, i as int)),
            digit_groups(groups).len() == run_extras(d.subrange(0, i as int)).len(),
            forall|j: int|
                0 <= j < digit_groups(groups).len() ==> #[trigger] digit_groups(groups)[j] as int
                    == run_extras(d.subrange(0, i as int))[j],
        decreases digits.len() - i,
    {
        let digit = digits[i];
        let ghost before = d.subrange(0, i as int);
        let ghost after = d.subrange(0, i + 1);
        proof {
            assert(after.drop_last() =~= before);
            lemma_run_extras_shape(before);
            lemma_run_extras_shape(after);
        }
        if digit > last_digit {
            proof {
                assert(d[i - 1 + 1] > d[i - 1]);
            }
            return false;
        } else if digit == last_digit {
            let n = groups_len(&groups);
            let g = groups_get(&groups, n - 1);
            groups_set(&mut groups, n - 1, g + 1);
        } else {
            groups_push(&mut groups, 0);
        }
        proof {
            assert forall|j: int| 0 <= j < after.len() - 1 implies #[trigger] after[j + 1] <= after[j] by {
                if j < i - 1 {
                    assert(before[j + 1] <= before[j]);
                }
            }
        }
        last_digit = digit;
        i = i + 1;
    }
    assert(d.subrange(0, d.len() as int) =~= d);
    let n = groups_len(&groups);
    let mut k: usize = 0;
    while k < n
        invariant
            n == digit_groups(groups).len() == run_extras(d).len(),
            d == reverse_digits_of(num as nat),
            never_decreasing(d),
            forall|j: int| 0 <= j < n ==> #[trigger] digit_groups(groups)[j] as int == run_extras(d)[j],
            k <= n,
            forall|j: int| 0 <= j < k ==> run_extras(d)[j] != 1,
        decreases n - k,
    {
        if groups_get(&groups, k) == 1 {
            assert(run_extras(d)[k as int] == 1);
            return true;
        }
        k = k + 1;
    }
    false
}

/// Counts the numbers in `start..=end` that meet the first rule, or the
/// second one when `second` is set.
pub fn complexity(start: u32, end: u32, second: bool) -> (r: usize)
    requires
        end - start < usize::MAX,
    ensures
        r == valid_count(start as int, end as int, second),
{
    let mut count: usize = 0;
    let mut x: u64 = start as u64;
    while x <= end as u64
        invariant
            start <= x <= end as int + 1 || (x == start && start > end),
            end - start < usize::MAX,
            count == valid_count(start as int, x - 1, second),
            count <= x - start,
        decreases end as int + 1 - x,
    {
        let ok = if second {
            check_part2(x as u32)
        } else {
            check_part1(x as u32)
        };
        if ok {
            count = count + 1;
        }
        x = x + 1;
    }
    count
}

} // verus!
