//! Moons along one axis: each pair pulls the other one unit closer per step,
//! then every moon moves by its velocity. Also reading moon positions from
//! text, their total energy, and the period of all axes together.
use num::Integer;
use vstd::prelude::*;

use crate::program::{digits_value, is_digit};

verus! {

/// A moon's position and velocity along one axis.
#[derive(Clone, Copy, Debug, PartialEq, Eq, Hash, Structural)]
pub struct Momentum {
    pub pos: i16,
    pub vel: i16,
}

impl Momentum {
    /// A moon at rest at `pos`.
    pub fn new(pos: i16) -> (r: Momentum)
        ensures
            r == (Momentum { pos, vel: 0 }),
    {
        Momentum { pos, vel: 0 }
    }
}

/// The pull on a moon at `a` from a moon at `b`.
pub open spec fn pull(a: i16, b: i16) -> int {
    if a < b {
        1
    } else if a > b {
        -1
    } else {
        0
    }
}

/// The pull on moon `i` from the first `n` moons.
pub open spec fn pull_from(axis: Seq<Momentum>, i: int, n: int) -> int
    decreases n,
{
    if n <= 0 {
        0
    } else {
        pull_from(axis, i, n - 1) + pull(axis[i].pos, axis[n - 1].pos)
    }
}

/// The change in velocity of moon `i` in one step.
pub open spec fn gravity(axis: Seq<Momentum>, i: int) -> int {
    pull_from(axis, i, axis.len() as int)
}

/// Moon `i` after one step, as unbounded integers: new velocity, new position.
pub open spec fn moved(axis: Seq<Momentum>, i: int) -> (int, int) {
    let v = axis[i].vel + gravity(axis, i);
    (v, axis[i].pos + v)
}

pub open spec fn fits_i16(x: int) -> bool {
    i16::MIN <= x <= i16::MAX
}

/// Every velocity and position after one step fits an `i16`.
pub open spec fn step_fits(axis: Seq<Momentum>) -> bool {
    forall|i: int| 0 <= i < axis.len() ==> fits_i16(#[trigger] moved(axis, i).0) && fits_i16(moved(axis, i).1)
}

/// One step of all moons, or `None` if a velocity or position would leave
/// the range of `i16`.
pub open spec fn stepped(axis: Seq<Momentum>) -> Option<Seq<Momentum>> {
    if step_fits(axis) {
        Some(
            Seq::new(
                axis.len(),
                |i: int| Momentum { pos: moved(axis, i).1 as i16, vel: moved(axis, i).0 as i16 },
            ),
        )
    } else {
        None
    }
}

/// The moons after `k` steps, if every step stays in range.
pub open spec fn after_steps(axis: Seq<Momentum>, k: nat) -> Option<Seq<Momentum>>
    decreases k,
{
    if k == 0 {
        Some(axis)
    } else {
        match after_steps(axis, (k - 1) as nat) {
            Some(s) => stepped(s),
            None => None,
        }
    }
}

proof fn lemma_pull_from_positions(a: Seq<Momentum>, b: Seq<Momentum>, i: int, n: int)
    requires
        a.len() == b.len(),
        0 <= i < a.len(),
        n <= a.len(),
        forall|j: int| 0 <= j < a.len() ==> #[trigger] a[j].pos == b[j].pos,
    ensures
        pull_from(a, i, n) == pull_from(b, i, n),
    decreases n,
{
    if n > 0 {
        lemma_pull_from_positions(a, b, i, n - 1);
        assert(a[n - 1].pos == b[n - 1].pos);
    }
}

/// A step can be undone: two states that step to the same state are equal.
pub proof fn lemma_step_injective(a: Seq<Momentum>, b: Seq<Momentum>)
    requires
        a.len() == b.len(),
        stepped(a) is Some,
        stepped(a) == stepped(b),
    ensures
        a == b,
{
    let sa = stepped(a)->Some_0;
    assert forall|j: int| 0 <= j < a.len() implies #[trigger] a[j].pos == b[j].pos by {
        assert(sa[j] == stepped(b)->Some_0[j]);
        assert(fits_i16(moved(a, j).0) && fits_i16(moved(a, j).1));
        assert(fits_i16(moved(b, j).0) && fits_i16(moved(b, j).1));
    }
    assert forall|j: int| 0 <= j < a.len() implies #[trigger] a[j] == b[j] by {
        lemma_pull_from_positions(a, b, j, a.len() as int);
        assert(sa[j] == stepped(b)->Some_0[j]);
        assert(fits_i16(moved(a, j).0) && fits_i16(moved(a, j).1));
        assert(fits_i16(moved(b, j).0) && fits_i16(moved(b, j).1));
    }
    assert(a =~= b);
}

proof fn lemma_after_steps_len(axis: Seq<Momentum>, k: nat)
    ensures
        after_steps(axis, k) is Some ==> after_steps(axis, k)->Some_0.len() == axis.len(),
    decreases k,
{
    if k > 0 {
        lemma_after_steps_len(axis, (k - 1) as nat);
    }
}

/// The first state that repeats an earlier one is the starting state: if
/// the state after `k` steps equals the one after `j < k` steps, the state
/// after `k - j` steps is the starting one.
pub proof fn lemma_first_repeat_is_start(axis: Seq<Momentum>, j: nat, k: nat)
    requires
        j < k,
        after_steps(axis, k) is Some,
        after_steps(axis, j) == after_steps(axis, k),
    ensures
        after_steps(axis, (k - j) as nat) == Some(axis),
    decreases j,
{
    if j > 0 {
        let pj = after_steps(axis, (j - 1) as nat);
        let pk = after_steps(axis, (k - 1) as nat);
        lemma_after_steps_ok_prefix(axis, (k - 1) as nat, k);
        lemma_after_steps_ok_prefix(axis, (j - 1) as nat, k);
        lemma_after_steps_len(axis, (j - 1) as nat);
        lemma_after_steps_len(axis, (k - 1) as nat);
        lemma_step_injective(pj->Some_0, pk->Some_0);
        lemma_first_repeat_is_start(axis, (j - 1) as nat, (k - 1) as nat);
    }
}

proof fn lemma_after_steps_ok_prefix(axis: Seq<Momentum>, j: nat, k: nat)
    requires
        j <= k,
        after_steps(axis, k) is Some,
    ensures
        after_steps(axis, j) is Some,
    decreases k,
{
    if j < k {
        lemma_after_steps_ok_prefix(axis, j, (k - 1) as nat);
    }
}

/// Advances every moon by one step. Returns `false`, leaving the moons as
/// they were, if a velocity or position would leave the range of `i16`.
pub fn step(axis: &mut Vec<Momentum>) -> (ok: bool)
    ensures
        ok == stepped(old(axis)@) is Some,
        ok ==> Some(final(axis)@) == stepped(old(axis)@),
        !ok ==> final(axis)@ == old(axis)@,
{
    let ghost a = axis@;
    let n = axis.len();
    let mut next: Vec<Momentum> = Vec::new();
    let mut i: usize = 0;
    while i < n
        invariant
            a == axis@,
            n == a.len(),
            i <= n,
            next@.len() == i,
            forall|k: int|
                0 <= k < i ==> fits_i16(#[trigger] moved(a, k).0) && fits_i16(moved(a, k).1) && next@[k]
                    == (Momentum { pos: moved(a, k).1 as i16, vel: moved(a, k).0 as i16 }),
        decreases n - i,
    {
        let mut g: i128 = 0;
        let mut j: usize = 0;
        while j < n
            invariant
                a == axis@,
                n == a.len(),
                i < n,
                j <= n,
                g == pull_from(a, i as int, j as int),
                -(j as int) <= g <= j,
            decreases n - j,
        {
            let pi = axis[i].pos;
            let pj = axis[j].pos;
            if pi < pj {
                g = g + 1;
            } else if pi > pj {
                g = g - 1;
            }
            j = j + 1;
        }
        let v = axis[i].vel as i128 + g;
        assert(moved(a, i as int).0 == v);
        if v < i16::MIN as i128 || v > i16::MAX as i128 {
            assert(!fits_i16(moved(a, i as int).0));
            return false;
        }
        let p = axis[i].pos as i128 + v;
        assert(moved(a, i as int).1 == p);
        if p < i16::MIN as i128 || p > i16::MAX as i128 {
            assert(!fits_i16(moved(a, i as int).1));
            return false;
        }
        let ghost prev = next@;
        next.push(Momentum { pos: p as i16, vel: v as i16 });
        proof {
            assert forall|k: int| 0 <= k < i + 1 implies fits_i16(#[trigger] moved(a, k).0) && fits_i16(
                moved(a, k).1,
            ) && next@[k] == (Momentum { pos: moved(a, k).1 as i16, vel: moved(a, k).0 as i16 }) by {
                if k < i {
                    assert(next@[k] == prev[k]);
                }
            }
        }
        i = i + 1;
    }
    *axis = next;
    proof {
        assert(step_fits(a));
        assert(axis@ =~= stepped(a)->Some_0);
    }
    true
}

/// How many steps the moons take to come back to where they started: the
/// number of distinct states seen before one repeats. A step can be undone
/// (`lemma_step_injective`), so the first repeated state is always the
/// starting one (`lemma_first_repeat_is_start`), and comparing with it
/// finds the first repeat. Leaves the moons in that state.
/// `None` if a step would leave the range of `i16`, or if no repeat comes
/// within `usize::MAX` steps.
pub fn cycle(axis: &mut Vec<Momentum>) -> (r: Option<usize>)
    ensures
        r is Some ==> r->0 >= 1,
        r is Some ==> after_steps(old(axis)@, r->0 as nat) == Some(old(axis)@),
        r is Some ==> forall|j: nat| 1 <= j < r->0 ==> #[trigger] after_steps(old(axis)@, j) != Some(old(axis)@),
        r is Some ==> final(axis)@ == old(axis)@,
        r is Some ==> forall|i: nat, j: nat|
            #![trigger after_steps(old(axis)@, i), after_steps(old(axis)@, j)]
            i < j < r->0 ==> after_steps(old(axis)@, i) != after_steps(old(axis)@, j),
        r is None ==> exists|j: nat|
            #[trigger] after_steps(old(axis)@, j) == Some(final(axis)@) && (stepped(final(axis)@) is None
                || j == usize::MAX),
{
    let start = axis.clone();
    let ghost s0 = axis@;
    assert(start@ == s0);
    let mut count: usize = 0;
    loop
        invariant
            start@ == s0,
            s0 == old(axis)@,
            after_steps(s0, count as nat) == Some(axis@),
            forall|j: nat| 1 <= j <= count ==> #[trigger] after_steps(s0, j) != Some(s0),
        decreases usize::MAX - count,
    {
        if count == usize::MAX {
            assert(after_steps(s0, count as nat) == Some(axis@));
            return None;
        }
        let ghost before = axis@;
        if !step(axis) {
            assert(after_steps(s0, count as nat) == Some(axis@));
            return None;
        }
        count = count + 1;
        assert(after_steps(s0, count as nat) == Some(axis@));
        if vec_equal(axis, &start) {
            assert(axis@ == s0);
            assert(after_steps(s0, count as nat) == Some(s0));
            proof {
                assert forall|i: nat, j: nat|
                    #![trigger after_steps(s0, i), after_steps(s0, j)]
                    i < j < count implies after_steps(s0, i) != after_steps(s0, j) by {
                    if after_steps(s0, i) == after_steps(s0, j) {
                        lemma_after_steps_ok_prefix(s0, j, count as nat);
                        lemma_first_repeat_is_start(s0, i, j);
                        assert(after_steps(s0, (j - i) as nat) == Some(s0));
                    }
                }
            }
            return Some(count);
        }
        assert(after_steps(s0, count as nat) != Some(s0));
    }
}

/// Whether two lists of moons are equal.
fn vec_equal(a: &Vec<Momentum>, b: &Vec<Momentum>) -> (r: bool)
    ensures
        r == (a@ == b@),
{
    if a.len() != b.len() {
        return false;
    }
    let mut i: usize = 0;
    while i < a.len()
        invariant
            a@.len() == b@.len(),
            i <= a@.len(),
            forall|k: int| 0 <= k < i ==> a@[k] == b@[k],
        decreases a.len() - i,
    {
        if a[i].pos != b[i].pos || a[i].vel != b[i].vel {
            return false;
        }
        i = i + 1;
    }
    assert(a@ =~= b@);
    true
}

/// The end of the run of decimal digits that starts at `q`.
pub open spec fn digit_run_end(s: Seq<char>, q: int) -> int
    decreases s.len() - q,
{
    if 0 <= q < s.len() && is_digit(s[q]) {
        digit_run_end(s, q + 1)
    } else {
        q
    }
}

/// The integer `-?[0-9]+` written at `p`, taking every digit there, and
/// where it ends.
pub open spec fn number_at(s: Seq<char>, p: int) -> Option<(int, int)> {
    let q = if 0 <= p < s.len() && s[p] == '-' {
        p + 1
    } else {
        p
    };
    let e = digit_run_end(s, q);
    if e == q {
        None
    } else if q == p + 1 {
        Some((-digits_value(s.subrange(q, e)), e))
    } else {
        Some((digits_value(s.subrange(q, e)), e))
    }
}

/// The text `lit` stands at `p`.
pub open spec fn literal_at(s: Seq<char>, p: int, lit: Seq<char>) -> bool {
    0 <= p && p + lit.len() <= s.len() && s.subrange(p, p + lit.len() as int) == lit
}

/// A moon `<x=X, y=Y, z=Z>` written at `p`: its coordinates and where it ends.
pub open spec fn moon_at(s: Seq<char>, p: int) -> Option<(int, int, int, int)> {
    if !literal_at(s, p, seq!['<', 'x', '=']) {
        None
    } else {
        match number_at(s, p + 3) {
            None => None,
            Some((x, e1)) => if !literal_at(s, e1, seq![',', ' ', 'y', '=']) {
                None
            } else {
                match number_at(s, e1 + 4) {
                    None => None,
                    Some((y, e2)) => if !literal_at(s, e2, seq![',', ' ', 'z', '=']) {
                        None
                    } else {
                        match number_at(s, e2 + 4) {
                            None => None,
                            Some((z, e3)) => if literal_at(s, e3, seq!['>']) {
                                Some((x, y, z, e3 + 1))
                            } else {
                                None
                            },
                        }
                    },
                }
            },
        }
    }
}

proof fn lemma_digit_run_end_bounds(s: Seq<char>, q: int)
    requires
        0 <= q <= s.len(),
    ensures
        q <= digit_run_end(s, q) <= s.len(),
        forall|i: int| q <= i < digit_run_end(s, q) ==> is_digit(#[trigger] s[i]),
        digit_run_end(s, q) < s.len() ==> !is_digit(s[digit_run_end(s, q)]),
    decreases s.len() - q,
{
    if q < s.len() && is_digit(s[q]) {
        lemma_digit_run_end_bounds(s, q + 1);
    }
}

proof fn lemma_number_at_ends_later(s: Seq<char>, p: int)
    requires
        0 <= p <= s.len(),
    ensures
        number_at(s, p) matches Some((_, e)) ==> p < e <= s.len(),
{
    let q = if 0 <= p < s.len() && s[p] == '-' {
        p + 1
    } else {
        p
    };
    lemma_digit_run_end_bounds(s, q);
}

proof fn lemma_moon_at_ends_later(s: Seq<char>, p: int)
    requires
        0 <= p < s.len(),
    ensures
        moon_at(s, p) matches Some((_, _, _, e)) ==> p < e <= s.len(),
{
    if moon_at(s, p) is Some {
        lemma_number_at_ends_later(s, p + 3);
        let (x, e1) = number_at(s, p + 3)->Some_0;
        lemma_number_at_ends_later(s, e1 + 4);
        let (y, e2) = number_at(s, e1 + 4)->Some_0;
        lemma_number_at_ends_later(s, e2 + 4);
    }
}

/// Every moon written in `s` from `p` on, scanning left to right and
/// resuming after each one found.
pub open spec fn moons_from(s: Seq<char>, p: int) -> Seq<(int, int, int)>
    decreases s.len() - p,
{
    if p < 0 || p >= s.len() {
        Seq::empty()
    } else {
        match moon_at(s, p) {
            Some((x, y, z, e)) => if e > p {
                seq![(x, y, z)] + moons_from(s, e)
            } else {
                Seq::empty()
            },
            None => moons_from(s, p + 1),
        }
    }
}

pub open spec fn fits_moon(m: (int, int, int)) -> bool {
    fits_i16(m.0) && fits_i16(m.1) && fits_i16(m.2)
}

/// Whether `chars[p..]` starts with `lit`.
fn starts_with(chars: &Vec<char>, p: usize, lit: &Vec<char>) -> (r: bool)
    ensures
        r == literal_at(chars@, p as int, lit@),
{
    if p > chars.len() || lit.len() > chars.len() - p {
        return false;
    }
    let n = chars.len();
    let mut i: usize = 0;
    while i < lit.len()
        invariant
            n == chars@.len(),
            p + lit@.len() <= chars@.len(),
            p <= chars@.len(),
            i <= lit@.len(),
            forall|k: int| 0 <= k < i ==> chars@[p + k] == lit@[k],
        decreases lit.len() - i,
    {
        if chars[p + i] != lit[i] {
            assert(chars@.subrange(p as int, p + lit@.len())[i as int] != lit@[i as int]);
            return false;
        }
        i = i + 1;
    }
    assert(chars@.subrange(p as int, p + lit@.len()) =~= lit@);
    true
}

/// The integer at `p`: its value if it fits an `i16`, and where it ends.
fn read_number(chars: &Vec<char>, p: usize) -> (r: Option<(Option<i16>, usize)>)
    ensures
        number_at(chars@, p as int) matches Some((_, e)) ==> p < e <= chars@.len(),
        match number_at(chars@, p as int) {
            Some((v, e)) => r == Some((if fits_i16(v) { Some(v as i16) } else { None::<i16> }, e as usize)),
            None => r is None,
        },
{
    let n = chars.len();
    if p > n {
        proof {
            assert(digit_run_end(chars@, p as int) == p);
        }
        return None;
    }
    proof {
        lemma_number_at_ends_later(chars@, p as int);
    }
    let negative = p < n && chars[p] == '-';
    let q = if negative {
        p + 1
    } else {
        p
    };
    proof {
        lemma_digit_run_end_bounds(chars@, q as int);
    }
    let mut e = q;
    let mut acc: u32 = 0;
    while e < n && '0' <= chars[e] && chars[e] <= '9'
        invariant
            q <= e <= n == chars@.len(),
            digit_run_end(chars@, q as int) == digit_run_end(chars@, e as int),
            forall|i: int| q <= i < e ==> is_digit(#[trigger] chars@[i]),
            acc == if digits_value(chars@.subrange(q as int, e as int)) < 40000 {
                digits_value(chars@.subrange(q as int, e as int))
            } else {
                40000
            },
        decreases n - e,
    {
        let d = (chars[e] as u32) - ('0' as u32);
        proof {
            assert(chars@.subrange(q as int, e + 1).drop_last() =~= chars@.subrange(q as int, e as int));
            lemma_digits_nonneg(chars@.subrange(q as int, e as int));
        }
        acc = if acc >= 40000 {
            40000
        } else if acc * 10 + d >= 40000 {
            40000
        } else {
            acc * 10 + d
        };
        e = e + 1;
    }
    if e == q {
        return None;
    }
    let value: i32 = if negative {
        -(acc as i32)
    } else {
        acc as i32
    };
    if value < i16::MIN as i32 || value > i16::MAX as i32 {
        Some((None, e))
    } else {
        Some((Some(value as i16), e))
    }
}

proof fn lemma_digits_nonneg(d: Seq<char>)
    requires
        forall|i: int| 0 <= i < d.len() ==> is_digit(#[trigger] d[i]),
    ensures
        digits_value(d) >= 0,
    decreases d.len(),
{
    if d.len() > 0 {
        lemma_digits_nonneg(d.drop_last());
        assert(is_digit(d[d.len() - 1]));
    }
}

/// The moon written at `p`: coordinates that fit `i16` (or `None` for one
/// that does not), and where it ends.
fn read_moon(chars: &Vec<char>, p: usize) -> (r: Option<(Option<(i16, i16, i16)>, usize)>)
    ensures
        match moon_at(chars@, p as int) {
            Some((x, y, z, e)) => r == Some((
                if fits_moon((x, y, z)) {
                    Some((x as i16, y as i16, z as i16))
                } else {
                    None::<(i16, i16, i16)>
                },
                e as usize,
            )),
            None => r is None,
        },
{
    let n = chars.len();
    let lit_x = vec!['<', 'x', '='];
    let lit_y = vec![',', ' ', 'y', '='];
    let lit_z = vec![',', ' ', 'z', '='];
    let lit_end = vec!['>'];
    assert(lit_x@ =~= seq!['<', 'x', '=']);
    assert(lit_y@ =~= seq![',', ' ', 'y', '=']);
    assert(lit_z@ =~= seq![',', ' ', 'z', '=']);
    assert(lit_end@ =~= seq!['>']);
    if !starts_with(chars, p, &lit_x) {
        return None;
    }
    let (x, e1) = match read_number(chars, p + 3) {
        Some(n) => n,
        None => {
            return None;
        },
    };
    if !starts_with(chars, e1, &lit_y) {
        return None;
    }
    let (y, e2) = match read_number(chars, e1 + 4) {
        Some(n) => n,
        None => {
            return None;
        },
    };
    if !starts_with(chars, e2, &lit_z) {
        return None;
    }
    let (z, e3) = match read_number(chars, e2 + 4) {
        Some(n) => n,
        None => {
            return None;
        },
    };
    if !starts_with(chars, e3, &lit_end) {
        return None;
    }
    match (x, y, z) {
        (Some(x), Some(y), Some(z)) => Some((Some((x, y, z)), e3 + 1)),
        _ => Some((None, e3 + 1)),
    }
}

/// The moons written in a text as `<x=X, y=Y, z=Z>`, in order. `None` if a
/// coordinate does not fit an `i16`.
pub fn parse_moons(text: &str) -> (r: Option<Vec<(i16, i16, i16)>>)
    ensures
        (forall|i: int| 0 <= i < moons_from(text@, 0).len() ==> fits_moon(#[trigger] moons_from(text@, 0)[i]))
            ==> r is Some && r->0@.len() == moons_from(text@, 0).len() && forall|i: int|
            0 <= i < r->0@.len() ==> {
                let m = #[trigger] moons_from(text@, 0)[i];
                r->0@[i] == (m.0 as i16, m.1 as i16, m.2 as i16)
            },
        !(forall|i: int| 0 <= i < moons_from(text@, 0).len() ==> fits_moon(#[trigger] moons_from(text@, 0)[i]))
            ==> r is None,
{
    let chars = crate::program::collect_chars(text);
    let ghost s = chars@;
    let n = chars.len();
    let mut found: Vec<(i16, i16, i16)> = Vec::new();
    let ghost mut seen: Seq<(int, int, int)> = Seq::empty();
    let mut p: usize = 0;
    while p < n
        invariant
            s == chars@,
            s == text@,
            n == s.len(),
            p <= n,
            moons_from(s, 0) == seen + moons_from(s, p as int),
            forall|i: int| 0 <= i < seen.len() ==> fits_moon(#[trigger] seen[i]),
            found@.len() == seen.len(),
            forall|i: int|
                0 <= i < seen.len() ==> #[trigger] found@[i] == (seen[i].0 as i16, seen[i].1 as i16, seen[i].2 as i16),
        decreases n - p,
    {
        proof {
            lemma_moon_at_ends_later(s, p as int);
        }
        match read_moon(&chars, p) {
            Some((m, e)) => {
                let ghost mm = moon_at(s, p as int)->Some_0;
                let ghost prev = seen;
                proof {
                    seen = seen.push((mm.0, mm.1, mm.2));
                    assert(prev + moons_from(s, p as int) =~= seen + moons_from(s, e as int));
                }
                match m {
                    Some(v) => {
                        found.push(v);
                    },
                    None => {
                        proof {
                            assert(!fits_moon(moons_from(s, 0)[prev.len() as int]));
                        }
                        return None;
                    },
                }
                p = e;
            },
            None => {
                p = p + 1;
            },
        }
    }
    proof {
        assert(moons_from(s, p as int) =~= Seq::<(int, int, int)>::empty());
        assert(seen + Seq::<(int, int, int)>::empty() =~= seen);
    }
    Some(found)
}

/// Steps the moons `n` times. `false` as soon as a step would leave the
/// range of `i16`, leaving the moons after the steps that succeeded.
pub fn simulate(axis: &mut Vec<Momentum>, n: usize) -> (ok: bool)
    ensures
        ok == after_steps(old(axis)@, n as nat) is Some,
        ok ==> Some(final(axis)@) == after_steps(old(axis)@, n as nat),
        !ok ==> exists|j: nat|
            j < n && #[trigger] after_steps(old(axis)@, j) == Some(final(axis)@) && stepped(final(axis)@) is None,
{
    let ghost a = axis@;
    let mut i: usize = 0;
    while i < n
        invariant
            i <= n,
            a == old(axis)@,
            after_steps(a, i as nat) == Some(axis@),
        decreases n - i,
    {
        if !step(axis) {
            proof {
                lemma_none_stays(a, (i + 1) as nat, n as nat);
                assert(after_steps(a, i as nat) == Some(axis@));
            }
            return false;
        }
        i = i + 1;
    }
    true
}

proof fn lemma_none_stays(a: Seq<Momentum>, j: nat, k: nat)
    requires
        j <= k,
        after_steps(a, j) is None,
    ensures
        after_steps(a, k) is None,
    decreases k,
{
    if j < k {
        lemma_none_stays(a, j, (k - 1) as nat);
    }
}

pub open spec fn abs16(x: i16) -> int {
    if x < 0 {
        -x
    } else {
        x as int
    }
}

/// The energy of moon `i`: the sum of its absolute positions over the axes
/// times the sum of its absolute velocities.
pub open spec fn moon_energy(xs: Seq<Momentum>, ys: Seq<Momentum>, zs: Seq<Momentum>, i: int) -> int {
    (abs16(xs[i].pos) + abs16(ys[i].pos) + abs16(zs[i].pos)) * (abs16(xs[i].vel) + abs16(ys[i].vel)
        + abs16(zs[i].vel))
}

/// The energy of the first `n` moons.
pub open spec fn energy_upto(xs: Seq<Momentum>, ys: Seq<Momentum>, zs: Seq<Momentum>, n: int) -> int
    decreases n,
{
    if n <= 0 {
        0
    } else {
        energy_upto(xs, ys, zs, n - 1) + moon_energy(xs, ys, zs, n - 1)
    }
}

/// The total energy of the moons, given their three axes.
pub fn total_energy(xs: &Vec<Momentum>, ys: &Vec<Momentum>, zs: &Vec<Momentum>) -> (r: i128)
    requires
        xs@.len() == ys@.len() == zs@.len(),
    ensures
        r == energy_upto(xs@, ys@, zs@, xs@.len() as int),
{
    let mut total: i128 = 0;
    let mut i: usize = 0;
    while i < xs.len()
        invariant
            xs@.len() == ys@.len() == zs@.len(),
            i <= xs@.len(),
            total == energy_upto(xs@, ys@, zs@, i as int),
            0 <= total <= i * 0x4_0000_0000,
        decreases xs.len() - i,
    {
        let pot = abs_i16(xs[i].pos) + abs_i16(ys[i].pos) + abs_i16(zs[i].pos);
        let kin = abs_i16(xs[i].vel) + abs_i16(ys[i].vel) + abs_i16(zs[i].vel);
        assert(0 <= pot * kin <= 0x4_0000_0000) by (nonlinear_arith)
            requires
                0 <= pot <= 98304,
                0 <= kin <= 98304,
        ;
        assert(total + pot * kin <= (i + 1) * 0x4_0000_0000) by (nonlinear_arith)
            requires
                total <= i * 0x4_0000_0000,
                pot * kin <= 0x4_0000_0000,
        ;
        total = total + pot * kin;
        i = i + 1;
    }
    total
}

fn abs_i16(x: i16) -> (r: i128)
    ensures
        r == abs16(x),
        0 <= r <= 32768,
{
    if x < 0 {
        -(x as i128)
    } else {
        x as i128
    }
}

/// Euclid's greatest common divisor.
pub open spec fn gcd(a: nat, b: nat) -> nat
    decreases b,
{
    if b == 0 {
        a
    } else {
        gcd(b, a % b)
    }
}

/// The least common multiple; zero when both are zero.
pub open spec fn lcm(a: nat, b: nat) -> nat {
    if a == 0 && b == 0 {
        0
    } else {
        (a * b / gcd(a, b)) as nat
    }
}

/// Relies on num-integer's `Integer::lcm` for `usize`, which computes
/// `a * (b / gcd(a, b))`, and 0 for two zeros.
#[verifier::external_body]
fn lcm_usize(a: usize, b: usize) -> (r: usize)
    requires
        a * b <= usize::MAX,
    ensures
        r == lcm(a as nat, b as nat),
{
    a.lcm(&b)
}

/// The least common multiple of the first `n` periods, starting from 1;
/// `None` once the product of the running value and the next period
/// exceeds `usize::MAX`.
pub open spec fn combined_upto(ps: Seq<usize>, n: int) -> Option<nat>
    decreases n,
{
    if n <= 0 {
        Some(1)
    } else {
        match combined_upto(ps, n - 1) {
            Some(acc) => if acc * ps[n - 1] <= usize::MAX {
                Some(lcm(acc, ps[n - 1] as nat))
            } else {
                None
            },
            None => None,
        }
    }
}

/// The period of several axes together: the least common multiple of
/// their periods. `None` when an intermediate product would exceed
/// `usize::MAX`.
pub fn combined_period(periods: &Vec<usize>) -> (r: Option<usize>)
    ensures
        match combined_upto(periods@, periods@.len() as int) {
            Some(v) => r == Some(v as usize),
            None => r is None,
        },
{
    let mut acc: usize = 1;
    let mut i: usize = 0;
    while i < periods.len()
        invariant
            i <= periods@.len(),
            combined_upto(periods@, i as int) == Some(acc as nat),
        decreases periods.len() - i,
    {
        let p = periods[i];
        match acc.checked_mul(p) {
            Some(_) => {
                acc = lcm_usize(acc, p);
            },
            None => {
                proof {
                    lemma_combined_none_stays(periods@, i + 1, periods@.len() as int);
                }
                return None;
            },
        }
        i = i + 1;
    }
    Some(acc)
}

proof fn lemma_combined_none_stays(ps: Seq<usize>, j: int, k: int)
    requires
        1 <= j <= k,
        combined_upto(ps, j) is None,
    ensures
        combined_upto(ps, k) is None,
    decreases k,
{
    if j < k {
        lemma_combined_none_stays(ps, j, k - 1);
    }
}

} // verus!
