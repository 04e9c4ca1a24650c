//! Reading an asteroid map (`#` marks an asteroid, one text line per row)
//! and choosing a monitoring station. Angles between asteroids come in as
//! integers, one row per asteroid: `angles[i][j]` is the angle from
//! asteroid `i` to asteroid `j`, computed in floating point by the caller.
use std::collections::BTreeSet;
use vstd::prelude::*;

use crate::program::{trim_end, trim_start, trimmed_chars};

verus! {

/// A position on the map: column, then row.
pub type Point = (i64, i64);

/// Scanning `s`: the column and row reached, and the asteroids seen so far.
pub open spec fn scan_map(s: Seq<char>) -> (int, int, Seq<Point>)
    decreases s.len(),
{
    if s.len() == 0 {
        (0, 0, Seq::<Point>::empty())
    } else {
        let (x, y, found) = scan_map(s.drop_last());
        let c = s.last();
        if c == '\n' {
            (0, y + 1, found)
        } else if c == '#' {
            (x + 1, y, found.push((x as i64, y as i64)))
        } else {
            (x + 1, y, found)
        }
    }
}

proof fn lemma_scan_bounds(s: Seq<char>)
    ensures
        0 <= scan_map(s).0 <= s.len(),
        0 <= scan_map(s).1 <= s.len(),
    decreases s.len(),
{
    if s.len() > 0 {
        lemma_scan_bounds(s.drop_last());
    }
}

/// The asteroids of a map, row by row and left to right within a row, with
/// surrounding whitespace trimmed first.
pub fn parse_asteroids(data: &str) -> (r: Vec<Point>)
    requires
        data@.len() <= i64::MAX,
    ensures
        r@ == scan_map(trim_end(trim_start(data@))).2,
{
    let (chars, lo, hi) = trimmed_chars(data);
    let mut found: Vec<Point> = Vec::new();
    let mut x: usize = 0;
    let mut y: usize = 0;
    let mut i = lo;
    while i < hi
        invariant
            lo <= i <= hi <= chars@.len() == data@.len() <= i64::MAX,
            scan_map(chars@.subrange(lo as int, i as int)) == (x as int, y as int, found@),
        decreases hi - i,
    {
        let ghost prefix = chars@.subrange(lo as int, i + 1);
        proof {
            assert(prefix.drop_last() =~= chars@.subrange(lo as int, i as int));
            lemma_scan_bounds(chars@.subrange(lo as int, i as int));
        }
        let c = chars[i];
        if c == '\n' {
            x = 0;
            y = y + 1;
        } else {
            if c == '#' {
                found.push((x as i64, y as i64));
            }
            x = x + 1;
        }
        i = i + 1;
    }
    found
}

broadcast use vstd::laws_cmp::group_laws_cmp;

/// The distinct angles at which the first `n` asteroids other than `p` lie.
pub open spec fn visible_angles(asteroids: Seq<Point>, p: Point, angles: Seq<i64>, n: int) -> Set<i64> {
    Set::new(|x: i64| exists|i: int| 0 <= i < n && asteroids[i] != p && angles[i] == x)
}

/// How many asteroids `p` sees: one per distinct angle.
pub open spec fn visible_count(asteroids: Seq<Point>, p: Point, angles: Seq<i64>) -> nat {
    visible_angles(asteroids, p, angles, asteroids.len() as int).len()
}

/// Every row of angles has one entry per asteroid.
pub open spec fn angle_table(asteroids: Seq<Point>, angles: Seq<Vec<i64>>) -> bool {
    angles.len() == asteroids.len() && forall|i: int| 0 <= i < angles.len() ==> (#[trigger] angles[i])@.len()
        == asteroids.len()
}

/// The number of asteroids visible from `p`, given the angle from `p` to
/// each asteroid: asteroids at the same angle hide one another.
pub fn count_visible(asteroids: &Vec<Point>, p: Point, angles: &Vec<i64>) -> (r: usize)
    requires
        angles@.len() == asteroids@.len(),
    ensures
        r == visible_count(asteroids@, p, angles@),
{
    let mut seen: BTreeSet<i64> = BTreeSet::new();
    let mut i: usize = 0;
    while i < asteroids.len()
        invariant
            angles@.len() == asteroids@.len(),
            i <= asteroids@.len(),
            seen@ == visible_angles(asteroids@, p, angles@, i as int),
        decreases asteroids.len() - i,
    {
        let ghost before = seen@;
        let q = asteroids[i];
        if q.0 != p.0 || q.1 != p.1 {
            seen.insert(angles[i]);
        }
        proof {
            assert(seen@ =~= visible_angles(asteroids@, p, angles@, i + 1)) by {
                assert forall|x: i64| seen@.contains(x) implies visible_angles(asteroids@, p, angles@, i + 1).contains(x) by {
                    if before.contains(x) {
                        let k = choose|k: int| 0 <= k < i && asteroids@[k] != p && angles@[k] == x;
                    }
                }
                assert forall|x: i64| visible_angles(asteroids@, p, angles@, i + 1).contains(x) implies seen@.contains(x) by {
                    let k = choose|k: int| 0 <= k < i + 1 && asteroids@[k] != p && angles@[k] == x;
                    if k < i {
                        assert(before.contains(x));
                    }
                }
            }
        }
        i = i + 1;
    }
    seen.len()
}

/// Among the first `k` asteroids, the one that sees the most others; on a
/// tie the last such, as `Iterator::max_by_key` picks.
pub open spec fn station_upto(asteroids: Seq<Point>, angles: Seq<Vec<i64>>, k: int) -> int
    decreases k,
{
    if k <= 1 {
        0
    } else {
        let b = station_upto(asteroids, angles, k - 1);
        if visible_count(asteroids, asteroids[k - 1], angles[k - 1]@) >= visible_count(
            asteroids,
            asteroids[b],
            angles[b]@,
        ) {
            k - 1
        } else {
            b
        }
    }
}

/// The asteroid chosen as the station.
pub open spec fn station(asteroids: Seq<Point>, angles: Seq<Vec<i64>>) -> int {
    station_upto(asteroids, angles, asteroids.len() as int)
}

proof fn lemma_station_upto_bounds(asteroids: Seq<Point>, angles: Seq<Vec<i64>>, k: int)
    requires
        1 <= k,
    ensures
        0 <= station_upto(asteroids, angles, k) < k,
    decreases k,
{
    if k > 1 {
        lemma_station_upto_bounds(asteroids, angles, k - 1);
    }
}

/// The asteroid that sees the most others, with that count; on a tie the
/// last such asteroid, as `Iterator::max_by_key` picks.
pub fn find_max_reachable(asteroids: &Vec<Point>, angles: &Vec<Vec<i64>>) -> (r: (Point, usize))
    requires
        asteroids@.len() > 0,
        angle_table(asteroids@, angles@),
    ensures
        r.0 == asteroids@[station(asteroids@, angles@)],
        r.1 == visible_count(asteroids@, r.0, angles@[station(asteroids@, angles@)]@),
        0 <= station(asteroids@, angles@) < asteroids@.len(),
{
    let (i, c) = station_index(asteroids, angles);
    (asteroids[i], c)
}

/// The position of the station in the list, with the count it sees.
fn station_index(asteroids: &Vec<Point>, angles: &Vec<Vec<i64>>) -> (r: (usize, usize))
    requires
        asteroids@.len() > 0,
        angle_table(asteroids@, angles@),
    ensures
        r.0 == station(asteroids@, angles@),
        r.0 < asteroids@.len(),
        r.1 == visible_count(asteroids@, asteroids@[r.0 as int], angles@[r.0 as int]@),
{
    let mut best_index: usize = 0;
    let mut best = count_visible(asteroids, asteroids[0], &angles[0]);
    let mut k: usize = 1;
    while k < asteroids.len()
        invariant
            angle_table(asteroids@, angles@),
            1 <= k <= asteroids@.len(),
            best_index == station_upto(asteroids@, angles@, k as int),
            best_index < k,
            best == visible_count(asteroids@, asteroids@[best_index as int], angles@[best_index as int]@),
        decreases asteroids.len() - k,
    {
        let c = count_visible(asteroids, asteroids[k], &angles[k]);
        if c >= best {
            best = c;
            best_index = k;
        }
        k = k + 1;
    }
    (best_index, best)
}

/// Squared distance between two points.
pub open spec fn dist2(p: Point, q: Point) -> int {
    (p.0 - q.0) * (p.0 - q.0) + (p.1 - q.1) * (p.1 - q.1)
}

/// Asteroid `j` is nearer the station than asteroid `i`, or as near and
/// earlier in the list: the order of a stable sort by distance.
pub open spec fn nearer(asteroids: Seq<Point>, t: Point, j: int, i: int) -> bool {
    dist2(asteroids[j], t) < dist2(asteroids[i], t) || (dist2(asteroids[j], t) == dist2(asteroids[i], t)
        && j < i)
}

/// How many asteroids other than the station, among the first `n`, lie at
/// the same angle as asteroid `i` and nearer: the turn of the laser on
/// which `i` is hit.
pub open spec fn rank_upto(asteroids: Seq<Point>, t: Point, row: Seq<i64>, i: int, n: int) -> nat
    decreases n,
{
    if n <= 0 {
        0
    } else {
        rank_upto(asteroids, t, row, i, n - 1) + if asteroids[n - 1] != t && row[n - 1] == row[i]
            && nearer(asteroids, t, n - 1, i) {
            1nat
        } else {
            0nat
        }
    }
}

pub open spec fn rank(asteroids: Seq<Point>, t: Point, row: Seq<i64>, i: int) -> nat {
    rank_upto(asteroids, t, row, i, asteroids.len() as int)
}

/// Asteroid `j` is hit before asteroid `i`: on an earlier turn, or on the
/// same turn at a smaller angle, or (at one angle) nearer.
pub open spec fn hit_before(asteroids: Seq<Point>, t: Point, row: Seq<i64>, j: int, i: int) -> bool {
    rank(asteroids, t, row, j) < rank(asteroids, t, row, i) || (rank(asteroids, t, row, j) == rank(
        asteroids,
        t,
        row,
        i,
    ) && (row[j] < row[i] || (row[j] == row[i] && nearer(asteroids, t, j, i))))
}

/// How many asteroids other than the station, among the first `n`, are hit
/// before asteroid `i`.
pub open spec fn hits_before_upto(asteroids: Seq<Point>, t: Point, row: Seq<i64>, i: int, n: int) -> nat
    decreases n,
{
    if n <= 0 {
        0
    } else {
        hits_before_upto(asteroids, t, row, i, n - 1) + if asteroids[n - 1] != t && hit_before(
            asteroids,
            t,
            row,
            n - 1,
            i,
        ) {
            1nat
        } else {
            0nat
        }
    }
}

/// How many asteroids other than the station are among the first `n`.
pub open spec fn others_upto(asteroids: Seq<Point>, t: Point, n: int) -> nat
    decreases n,
{
    if n <= 0 {
        0
    } else {
        others_upto(asteroids, t, n - 1) + if asteroids[n - 1] != t {
            1nat
        } else {
            0nat
        }
    }
}

proof fn lemma_hits_before_bound(asteroids: Seq<Point>, t: Point, row: Seq<i64>, i: int, n: int)
    requires
        0 <= i < asteroids.len(),
        n <= asteroids.len(),
        asteroids[i] != t,
    ensures
        hits_before_upto(asteroids, t, row, i, n) + (if 0 <= i < n {
            1int
        } else {
            0int
        }) <= others_upto(asteroids, t, n),
    decreases n,
{
    if n > 0 {
        lemma_hits_before_bound(asteroids, t, row, i, n - 1);
    }
}

proof fn lemma_hits_before_grow(asteroids: Seq<Point>, t: Point, row: Seq<i64>, x: int, y: int, n: int)
    requires
        0 <= x < asteroids.len(),
        0 <= y < asteroids.len(),
        n <= asteroids.len(),
        row.len() == asteroids.len(),
        asteroids[x] != t,
        hit_before(asteroids, t, row, x, y),
    ensures
        hits_before_upto(asteroids, t, row, x, n) + (if 0 <= x < n {
            1int
        } else {
            0int
        }) <= hits_before_upto(asteroids, t, row, y, n),
    decreases n,
{
    if n > 0 {
        lemma_hits_before_grow(asteroids, t, row, x, y, n - 1);
    }
}

/// Every coordinate fits an `i32`, so squared distances stay small.
pub open spec fn small_coordinates(asteroids: Seq<Point>) -> bool {
    forall|i: int|
        0 <= i < asteroids.len() ==> i32::MIN <= (#[trigger] asteroids[i]).0 <= i32::MAX && i32::MIN
            <= asteroids[i].1 <= i32::MAX
}

fn dist2_of(p: Point, q: Point) -> (r: i128)
    requires
        i32::MIN <= p.0 <= i32::MAX,
        i32::MIN <= p.1 <= i32::MAX,
        i32::MIN <= q.0 <= i32::MAX,
        i32::MIN <= q.1 <= i32::MAX,
    ensures
        r == dist2(p, q),
{
    let dx = p.0 as i128 - q.0 as i128;
    let dy = p.1 as i128 - q.1 as i128;
    assert(0 <= dx * dx <= 0x1_0000_0000_0000_0000) by (nonlinear_arith)
        requires
            -0x1_0000_0000 <= dx <= 0x1_0000_0000,
    ;
    assert(0 <= dy * dy <= 0x1_0000_0000_0000_0000) by (nonlinear_arith)
        requires
            -0x1_0000_0000 <= dy <= 0x1_0000_0000,
    ;
    dx * dx + dy * dy
}

/// The order in which a laser at the station, turning through increasing
/// angles and destroying the nearest asteroid at each angle per turn, hits
/// the other asteroids: each one stands at the position given by how many
/// are hit before it.
pub fn find_sweeping_hits(asteroids: &Vec<Point>, angles: &Vec<Vec<i64>>) -> (r: Vec<Point>)
    requires
        asteroids@.len() > 0,
        angle_table(asteroids@, angles@),
        small_coordinates(asteroids@),
    ensures
        ({
            let s = station(asteroids@, angles@);
            let t = asteroids@[s];
            let row = angles@[s]@;
            &&& r@.len() == others_upto(asteroids@, t, asteroids@.len() as int)
            &&& forall|i: int|
                0 <= i < asteroids@.len() && asteroids@[i] != t ==> r@[hits_before_upto(
                    asteroids@,
                    t,
                    row,
                    i,
                    asteroids@.len() as int,
                ) as int] == asteroids@[i]
        }),
{
    let n = asteroids.len();
    let (si, _) = station_index(asteroids, angles);
    let t = asteroids[si];
    let row = &angles[si];
    let ghost a = asteroids@;
    let mut m: usize = 0;
    let mut k: usize = 0;
    while k < n
        invariant
            n == a.len(),
            a == asteroids@,
            si < n,
            t == a[si as int],
            k <= n,
            m == others_upto(a, t, k as int),
            m <= k,
        decreases n - k,
    {
        let q = asteroids[k];
        if q.0 != t.0 || q.1 != t.1 {
            m = m + 1;
        }
        k = k + 1;
    }
    let mut ranks: Vec<usize> = Vec::new();
    let mut i: usize = 0;
    while i < n
        invariant
            n == a.len(),
            a == asteroids@,
            si < n,
            t == a[si as int],
            row@.len() == n,
            small_coordinates(a),
            i <= n,
            ranks@.len() == i,
            forall|x: int| 0 <= x < i ==> #[trigger] ranks@[x] == rank(a, t, row@, x),
        decreases n - i,
    {
        let di = dist2_of(asteroids[i], t);
        let mut c: usize = 0;
        let mut j: usize = 0;
        while j < n
            invariant
                n == a.len(),
                a == asteroids@,
                si < n,
                t == a[si as int],
                row@.len() == n,
                small_coordinates(a),
                i < n,
                j <= n,
                di == dist2(a[i as int], t),
                c == rank_upto(a, t, row@, i as int, j as int),
                c <= j,
            decreases n - j,
        {
            let q = asteroids[j];
            if (q.0 != t.0 || q.1 != t.1) && row[j] == row[i] {
                let dj = dist2_of(q, t);
                if dj < di || (dj == di && j < i) {
                    c = c + 1;
                }
            }
            j = j + 1;
        }
        ranks.push(c);
        i = i + 1;
    }
    let mut out: Vec<Point> = vec![t; m];
    let mut i: usize = 0;
    while i < n
        invariant
            n == a.len(),
            a == asteroids@,
            si < n,
            t == a[si as int],
            row@.len() == n,
            small_coordinates(a),
            ranks@.len() == n,
            forall|x: int| 0 <= x < n ==> #[trigger] ranks@[x] == rank(a, t, row@, x),
            m == others_upto(a, t, n as int),
            out@.len() == m,
            i <= n,
            forall|x: int|
                0 <= x < i && a[x] != t ==> #[trigger] out@[hits_before_upto(a, t, row@, x, n as int) as int]
                    == a[x],
        decreases n - i,
    {
        let q = asteroids[i];
        if q.0 != t.0 || q.1 != t.1 {
            let di = dist2_of(q, t);
            let mut c: usize = 0;
            let mut j: usize = 0;
            while j < n
                invariant
                    n == a.len(),
                    a == asteroids@,
                    si < n,
                    t == a[si as int],
                    row@.len() == n,
                    small_coordinates(a),
                    ranks@.len() == n,
                    forall|x: int| 0 <= x < n ==> #[trigger] ranks@[x] == rank(a, t, row@, x),
                    i < n,
                    j <= n,
                    di == dist2(a[i as int], t),
                    c == hits_before_upto(a, t, row@, i as int, j as int),
                    c <= j,
                decreases n - j,
            {
                let p = asteroids[j];
                if p.0 != t.0 || p.1 != t.1 {
                    let dj = dist2_of(p, t);
                    let rj = ranks[j];
                    let ri = ranks[i];
                    if rj < ri || (rj == ri && (row[j] < row[i] || (row[j] == row[i] && (dj < di || (dj
                        == di && j < i))))) {
                        c = c + 1;
                    }
                }
                j = j + 1;
            }
            proof {
                lemma_hits_before_bound(a, t, row@, i as int, n as int);
                assert forall|x: int| 0 <= x < i && a[x] != t implies hits_before_upto(a, t, row@, x, n as int)
                    != c by {
                    if hit_before(a, t, row@, x, i as int) {
                        lemma_hits_before_grow(a, t, row@, x, i as int, n as int);
                    } else {
                        lemma_hits_before_grow(a, t, row@, i as int, x, n as int);
                    }
                }
            }
            let ghost prev = out@;
            assert(c < m);
            out.set(c, q);
            proof {
                assert(out@ == prev.update(c as int, q));
                assert(q == a[i as int]);
                assert forall|x: int| 0 <= x < i + 1 && a[x] != t implies #[trigger] out@[hits_before_upto(
                    a,
                    t,
                    row@,
                    x,
                    n as int,
                ) as int] == a[x] by {
                    if x < i {
                        if hit_before(a, t, row@, x, i as int) {
                            lemma_hits_before_grow(a, t, row@, x, i as int, n as int);
                        } else {
                            lemma_hits_before_grow(a, t, row@, i as int, x, n as int);
                        }
                        assert(hits_before_upto(a, t, row@, x, n as int) != c);
                        lemma_hits_before_bound(a, t, row@, x, n as int);
                        assert(prev[hits_before_upto(a, t, row@, x, n as int) as int] == a[x]);
                    } else {
                        assert(x == i);
                        assert(c == hits_before_upto(a, t, row@, i as int, n as int));
                        assert(out@[c as int] == q);
                    }
                }
            }
        }
        i = i + 1;
    }
    out
}

} // verus!
