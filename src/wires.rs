//! Crossed wires: each line of the input is a wire, a comma-separated path of
//! moves such as `R75` from a common origin. Where all wires cross, the
//! best crossing is the one nearest the origin, by Manhattan distance or by
//! the combined length of wire that reaches it.
use std::collections::BTreeMap;
use vstd::prelude::*;
use vstd::std_specs::iter::IteratorSpec;

use crate::orbits::strip_cr;
use crate::program::{collect_chars, lemma_split_at, lemma_split_none, parse_token, split_on, token_value};

verus! {

broadcast use vstd::laws_cmp::group_laws_cmp;

/// How a crossing is measured.
#[derive(Clone, Copy, Debug, PartialEq, Eq, Structural)]
pub enum DistanceMethod {
    /// `|x| + |y|` from the origin.
    Manhattan,
    /// The sum over the wires of the length each wire has run when it last
    /// reaches the crossing.
    WireLength,
}

pub open spec fn fits_i32(x: int) -> bool {
    i32::MIN <= x <= i32::MAX
}

/// The lines of a text as `str::lines` gives them: split at `\n`, with no
/// line after a final `\n` and none at all in an empty text; a `\r` before
/// a `\n` is dropped.
pub open spec fn text_lines(s: Seq<char>) -> Seq<Seq<char>> {
    if s.len() == 0 {
        Seq::empty()
    } else {
        let nl = s.last() == '\n';
        let body = if nl {
            s.drop_last()
        } else {
            s
        };
        let pieces = split_on(body, '\n');
        Seq::new(
            pieces.len(),
            |i: int|
                if i < pieces.len() - 1 || nl {
                    strip_cr(pieces[i])
                } else {
                    pieces[i]
                },
        )
    }
}

/// The unit step of a direction letter.
pub open spec fn unit_of(c: char) -> Option<(int, int)> {
    if c == 'L' {
        Some((-1, 0))
    } else if c == 'R' {
        Some((1, 0))
    } else if c == 'D' {
        Some((0, -1))
    } else if c == 'U' {
        Some((0, 1))
    } else {
        None
    }
}

/// A move such as `R75`: unit step and count.
pub open spec fn move_of(item: Seq<char>) -> Option<(int, int, int)> {
    if item.len() == 0 {
        None
    } else {
        match (unit_of(item[0]), token_value(item.drop_first())) {
            (Some((dx, dy)), Some(n)) => if fits_i32(n as int) {
                Some((dx, dy, n as int))
            } else {
                None
            },
            _ => None,
        }
    }
}

/// The moves of the items of a line, or `None` if one is malformed.
pub open spec fn moves_of(items: Seq<Seq<char>>) -> Option<Seq<(int, int, int)>>
    decreases items.len(),
{
    if items.len() == 0 {
        Some(Seq::empty())
    } else {
        match (move_of(items[0]), moves_of(items.drop_first())) {
            (Some(m), Some(rest)) => Some(seq![m] + rest),
            _ => None,
        }
    }
}

/// The moves of every line, or `None` if one is malformed.
pub open spec fn wire_moves(lines: Seq<Seq<char>>) -> Option<Seq<Seq<(int, int, int)>>>
    decreases lines.len(),
{
    if lines.len() == 0 {
        Some(Seq::empty())
    } else {
        match (moves_of(split_on(lines[0], ',')), wire_moves(lines.drop_first())) {
            (Some(m), Some(rest)) => Some(seq![m] + rest),
            _ => None,
        }
    }
}

/// For each panel a wire reached, the length of wire when it last got there.
pub type Visits = Map<(i32, i32), i32>;

/// `n` unit steps from `(x, y)` with `d` wire run so far, recording each
/// panel reached; `None` if a coordinate or the length leaves `i32`.
pub open spec fn trace_steps(x: int, y: int, d: int, m: Visits, dx: int, dy: int, n: int) -> Option<
    (int, int, int, Visits),
>
    decreases n,
{
    if n <= 0 {
        Some((x, y, d, m))
    } else if !(fits_i32(x + dx) && fits_i32(y + dy) && fits_i32(d + 1)) {
        None
    } else {
        trace_steps(
            x + dx,
            y + dy,
            d + 1,
            m.insert(((x + dx) as i32, (y + dy) as i32), (d + 1) as i32),
            dx,
            dy,
            n - 1,
        )
    }
}

/// Following the moves in turn.
pub open spec fn trace_moves(x: int, y: int, d: int, m: Visits, moves: Seq<(int, int, int)>) -> Option<
    Visits,
>
    decreases moves.len(),
{
    if moves.len() == 0 {
        Some(m)
    } else {
        match trace_steps(x, y, d, m, moves[0].0, moves[0].1, moves[0].2) {
            Some((x2, y2, d2, m2)) => trace_moves(x2, y2, d2, m2, moves.drop_first()),
            None => None,
        }
    }
}

/// Tracing wires `w..` from the origin, each into the record kept for its
/// number modulo 256 (so wires 256 apart share one).
pub open spec fn trace_wires(maps: Seq<Visits>, wires: Seq<Seq<(int, int, int)>>, w: int) -> Option<
    Seq<Visits>,
>
    decreases wires.len() - w,
{
    if w < 0 || w >= wires.len() {
        Some(maps)
    } else {
        match trace_moves(0, 0, 0, maps[w % 256], wires[w]) {
            Some(m) => trace_wires(maps.update(w % 256, m), wires, w + 1),
            None => None,
        }
    }
}

/// 256 records with no panel reached yet.
pub open spec fn empty_records() -> Seq<Visits> {
    Seq::new(256, |i: int| Map::<(i32, i32), i32>::empty())
}

/// Every one of the `l` wires reaches panel `c`; with more than 256 wires
/// sharing records, no panel counts.
pub open spec fn is_crossing(maps: Seq<Visits>, l: int, c: (i32, i32)) -> bool {
    1 <= l <= 256 && forall|w: int| 0 <= w < l ==> #[trigger] maps[w].contains_key(c)
}

/// The lengths of the first `n` wires at `c`, summed.
pub open spec fn wire_sum(maps: Seq<Visits>, c: (i32, i32), n: int) -> int
    decreases n,
{
    if n <= 0 {
        0
    } else {
        wire_sum(maps, c, n - 1) + maps[n - 1][c]
    }
}

/// How far crossing `c` is by `method`.
pub open spec fn crossing_distance(method: DistanceMethod, maps: Seq<Visits>, l: int, c: (i32, i32)) -> int {
    match method {
        DistanceMethod::Manhattan => (if c.0 < 0 {
            -c.0
        } else {
            c.0 as int
        }) + (if c.1 < 0 {
            -c.1
        } else {
            c.1 as int
        }),
        DistanceMethod::WireLength => wire_sum(maps, c, l),
    }
}

/// `r` is the smallest distance of a crossing, or `None` without one.
pub open spec fn is_best(method: DistanceMethod, maps: Seq<Visits>, l: int, r: Option<i64>) -> bool {
    match r {
        None => forall|c: (i32, i32)| !is_crossing(maps, l, c),
        Some(v) => {
            &&& exists|c: (i32, i32)| is_crossing(maps, l, c) && crossing_distance(method, maps, l, c) == v
            &&& forall|c: (i32, i32)|
                is_crossing(maps, l, c) ==> v <= #[trigger] crossing_distance(method, maps, l, c)
        },
    }
}

/// The answer for a text: `None` if a line is malformed or a wire runs out
/// of `i32` range, else the best crossing.
pub open spec fn best_for_text(method: DistanceMethod, text: Seq<char>, r: Option<i64>) -> bool {
    match wire_moves(text_lines(text)) {
        None => r is None,
        Some(ws) => match trace_wires(empty_records(), ws, 0) {
            None => r is None,
            Some(maps) => is_best(method, maps, ws.len() as int, r),
        },
    }
}

proof fn lemma_split_len(s: Seq<char>, sep: char)
    ensures
        split_on(s, sep).len() >= 1,
    decreases s.len(),
{
    if s.len() > 0 {
        lemma_split_len(s.drop_first(), sep);
    }
}

/// A move as read, in 32-bit integers, is the move `m`.
pub open spec fn same_move(e: (i32, i32, i32), m: (int, int, int)) -> bool {
    e.0 == m.0 && e.1 == m.1 && e.2 == m.2
}

/// Reads the move in `chars[a..b]`.
fn read_move(chars: &Vec<char>, a: usize, b: usize) -> (r: Option<(i32, i32, i32)>)
    requires
        a <= b <= chars@.len(),
    ensures
        match move_of(chars@.subrange(a as int, b as int)) {
            Some(m) => r is Some && same_move(r->0, m),
            None => r is None,
        },
{
    let ghost item = chars@.subrange(a as int, b as int);
    if a == b {
        return None;
    }
    let c = chars[a];
    let (dx, dy): (i32, i32) = if c == 'L' {
        (-1, 0)
    } else if c == 'R' {
        (1, 0)
    } else if c == 'D' {
        (0, -1)
    } else if c == 'U' {
        (0, 1)
    } else {
        return None;
    };
    assert(item.drop_first() =~= chars@.subrange(a + 1, b as int));
    match parse_token(chars, a + 1, b) {
        Some(n) => if n < i32::MIN as i64 || n > i32::MAX as i64 {
            None
        } else {
            Some((dx, dy, n as i32))
        },
        None => None,
    }
}

/// The moves of the line `chars[a..b]`.
fn read_line(chars: &Vec<char>, a: usize, b: usize) -> (r: Option<Vec<(i32, i32, i32)>>)
    requires
        a <= b <= chars@.len(),
    ensures
        match moves_of(split_on(chars@.subrange(a as int, b as int), ',')) {
            Some(ms) => r is Some && r->0@.len() == ms.len() && forall|i: int|
                0 <= i < ms.len() ==> same_move(#[trigger] r->0@[i], ms[i]),
            None => r is None,
        },
{
    let mut out: Vec<(i32, i32, i32)> = Vec::new();
    let ghost mut done: Seq<(int, int, int)> = Seq::empty();
    let mut st = a;
    loop
        invariant
            a <= st <= b <= chars@.len(),
            moves_of(split_on(chars@.subrange(a as int, b as int), ',')) == match moves_of(
                split_on(chars@.subrange(st as int, b as int), ','),
            ) {
                Some(rest) => Some(done + rest),
                None => None::<Seq<(int, int, int)>>,
            },
            out@.len() == done.len(),
            forall|i: int|
                0 <= i < done.len() ==> same_move(#[trigger] out@[i], done[i]),
        decreases b - st,
    {
        let mut k = st;
        while k < b && chars[k] != ','
            invariant
                st <= k <= b <= chars@.len(),
                forall|i: int| st <= i < k ==> #[trigger] chars@[i] != ',',
            decreases b - k,
        {
            k = k + 1;
        }
        let ghost w = chars@.subrange(st as int, b as int);
        let ghost tok = chars@.subrange(st as int, k as int);
        let ghost tail = if k < b {
            chars@.subrange(k + 1, b as int)
        } else {
            Seq::<char>::empty()
        };
        proof {
            if k < b {
                lemma_split_at(w, ',', k - st);
                assert(w.subrange(0, k - st) =~= tok);
                assert(w.subrange(k - st + 1, w.len() as int) =~= tail);
            } else {
                lemma_split_none(w, ',');
                assert(w =~= tok);
            }
        }
        let m = match read_move(chars, st, k) {
            Some(m) => m,
            None => {
                return None;
            },
        };
        let ghost mv = move_of(tok)->Some_0;
        let ghost prev = done;
        out.push(m);
        proof {
            done = done.push(mv);
        }
        if k == b {
            proof {
                assert(seq![tok].drop_first() =~= Seq::<Seq<char>>::empty());
                assert(moves_of(Seq::<Seq<char>>::empty()) == Some(Seq::<(int, int, int)>::empty()));
                assert(moves_of(seq![tok]) == Some(seq![mv] + Seq::<(int, int, int)>::empty()));
                assert(done =~= prev + (seq![mv] + Seq::<(int, int, int)>::empty()));
            }
            return Some(out);
        }
        proof {
            assert((seq![tok] + split_on(tail, ',')).drop_first() =~= split_on(tail, ','));
            if let Some(rest) = moves_of(split_on(tail, ',')) {
                assert(done + rest =~= prev + (seq![mv] + rest));
            }
        }
        st = k + 1;
    }
}

/// The moves of every line of `chars`, as `str::lines` splits it.
fn read_wires(chars: &Vec<char>) -> (r: Option<Vec<Vec<(i32, i32, i32)>>>)
    ensures
        match wire_moves(text_lines(chars@)) {
            Some(ws) => r is Some && r->0@.len() == ws.len() && forall|w: int|
                0 <= w < ws.len() ==> {
                    &&& (#[trigger] r->0@[w])@.len() == ws[w].len()
                    &&& forall|i: int|
                        0 <= i < ws[w].len() ==> same_move(#[trigger] r->0@[w]@[i], ws[w][i])
                },
            None => r is None,
        },
{
    let n = chars.len();
    let mut wires: Vec<Vec<(i32, i32, i32)>> = Vec::new();
    if n == 0 {
        assert(text_lines(chars@) =~= Seq::<Seq<char>>::empty());
        return Some(wires);
    }
    let ghost s = chars@;
    let nl = chars[n - 1] == '\n';
    let body_end = if nl {
        n - 1
    } else {
        n
    };
    let ghost body = s.subrange(0, body_end as int);
    let ghost pieces = split_on(body, '\n');
    let ghost lines = text_lines(s);
    proof {
        if nl {
            assert(body =~= s.drop_last());
        } else {
            assert(body =~= s);
        }
    }
    let ghost mut done: Seq<Seq<(int, int, int)>> = Seq::empty();
    let mut st: usize = 0;
    proof {
        assert(lines.subrange(0, lines.len() as int) =~= lines);
        lemma_split_len(body, '\n');
        assert(pieces.subrange(0, 0) + split_on(s.subrange(0, body_end as int), '\n') =~= pieces);
        if let Some(ws) = wire_moves(lines) {
            assert(done + ws =~= ws);
        }
    }
    loop
        invariant
            n == s.len() == chars@.len(),
            n > 0,
            s == chars@,
            nl == (s.last() == '\n'),
            body_end <= n,
            body == s.subrange(0, body_end as int),
            body == (if nl {
                s.drop_last()
            } else {
                s
            }),
            pieces == split_on(body, '\n'),
            lines == text_lines(s),
            lines.len() == pieces.len(),
            st <= body_end,
            done.len() == wires@.len(),
            done.len() < pieces.len(),
            pieces == pieces.subrange(0, done.len() as int) + split_on(s.subrange(st as int, body_end as int), '\n'),
            wire_moves(lines) == match wire_moves(lines.subrange(done.len() as int, lines.len() as int)) {
                Some(rest) => Some(done + rest),
                None => None::<Seq<Seq<(int, int, int)>>>,
            },
            forall|w: int|
                0 <= w < done.len() ==> {
                    &&& (#[trigger] wires@[w])@.len() == done[w].len()
                    &&& forall|i: int|
                        0 <= i < done[w].len() ==> same_move(#[trigger] wires@[w]@[i], done[w][i])
                },
        decreases body_end - st,
    {
        let mut k = st;
        while k < body_end && chars[k] != '\n'
            invariant
                st <= k <= body_end <= chars@.len(),
                forall|i: int| st <= i < k ==> #[trigger] chars@[i] != '\n',
            decreases body_end - k,
        {
            k = k + 1;
        }
        let ghost w = s.subrange(st as int, body_end as int);
        let ghost piece = s.subrange(st as int, k as int);
        let ghost tail = if k < body_end {
            s.subrange(k + 1, body_end as int)
        } else {
            Seq::<char>::empty()
        };
        proof {
            if k < body_end {
                lemma_split_at(w, '\n', k - st);
                assert(w.subrange(0, k - st) =~= piece);
                assert(w.subrange(k - st + 1, w.len() as int) =~= tail);
            } else {
                lemma_split_none(w, '\n');
                assert(w =~= piece);
            }
            lemma_split_len(tail, '\n');
            assert(split_on(w, '\n')[0] == piece);
            assert((pieces.subrange(0, done.len() as int) + split_on(w, '\n'))[done.len() as int] == split_on(
                w,
                '\n',
            )[0]);
            assert(pieces[done.len() as int] == piece);
        }
        let strip = (k < body_end || nl) && k > st && chars[k - 1] == '\r';
        let line_end = if strip {
            k - 1
        } else {
            k
        };
        let ghost i = done.len() as int;
        proof {
            if k < body_end {
                assert(pieces.len() > i + 1);
            } else {
                assert(pieces.len() == i + 1);
            }
            assert(lines[i] == (if i < pieces.len() - 1 || nl {
                strip_cr(pieces[i])
            } else {
                pieces[i]
            }));
            assert(lines[i] =~= s.subrange(st as int, line_end as int));
            assert(lines.subrange(i, lines.len() as int)[0] == lines[i]);
            assert(lines.subrange(i, lines.len() as int).drop_first() =~= lines.subrange(i + 1, lines.len() as int));
        }
        let moves = match read_line(chars, st, line_end) {
            Some(ms) => ms,
            None => {
                return None;
            },
        };
        let ghost mv = moves_of(split_on(lines[i], ','))->Some_0;
        let ghost prev = done;
        let ghost prev_wires = wires@;
        wires.push(moves);
        proof {
            done = done.push(mv);
            assert forall|w: int| 0 <= w < done.len() implies {
                &&& (#[trigger] wires@[w])@.len() == done[w].len()
                &&& forall|j: int|
                    0 <= j < done[w].len() ==> same_move(#[trigger] wires@[w]@[j], done[w][j])
            } by {
                if w < i {
                    assert(wires@[w] == prev_wires[w]);
                    assert(done[w] == prev[w]);
                }
            }
        }
        if k == body_end {
            proof {
                assert(lines.subrange(i + 1, lines.len() as int) =~= Seq::<Seq<char>>::empty());
                assert(wire_moves(Seq::<Seq<char>>::empty()) == Some(Seq::<Seq<(int, int, int)>>::empty()));
                assert(done =~= prev + (seq![mv] + Seq::<Seq<(int, int, int)>>::empty()));
                assert(done.len() == lines.len());
            }
            return Some(wires);
        }
        proof {
            lemma_split_len(tail, '\n');
            assert(pieces =~= pieces.subrange(0, done.len() as int) + split_on(tail, '\n'));
            if let Some(rest) = wire_moves(lines.subrange(i + 1, lines.len() as int)) {
                assert(done + rest =~= prev + (seq![mv] + rest));
            }
        }
        st = k + 1;
    }
}

/// The records as maps.
pub open spec fn record_views(maps: Seq<BTreeMap<(i32, i32), i32>>) -> Seq<Visits> {
    maps.map_values(|m: BTreeMap<(i32, i32), i32>| m@)
}

/// Traces every wire, in order, into the record for its number modulo 256.
fn trace_all(wires: &Vec<Vec<(i32, i32, i32)>>, Ghost(ws): Ghost<Seq<Seq<(int, int, int)>>>) -> (r: Option<
    Vec<BTreeMap<(i32, i32), i32>>,
>)
    requires
        wires@.len() == ws.len(),
        forall|w: int|
            0 <= w < ws.len() ==> {
                &&& (#[trigger] wires@[w])@.len() == ws[w].len()
                &&& forall|i: int| 0 <= i < ws[w].len() ==> same_move(#[trigger] wires@[w]@[i], ws[w][i])
            },
    ensures
        match trace_wires(empty_records(), ws, 0) {
            Some(maps) => r is Some && record_views(r->0@) == maps && r->0@.len() == 256,
            None => r is None,
        },
{
    let mut maps: Vec<BTreeMap<(i32, i32), i32>> = Vec::new();
    let mut k: usize = 0;
    while k < 256
        invariant
            k <= 256,
            maps@.len() == k,
            forall|j: int| 0 <= j < k ==> (#[trigger] maps@[j])@ == Map::<(i32, i32), i32>::empty(),
        decreases 256 - k,
    {
        maps.push(BTreeMap::new());
        k = k + 1;
    }
    assert(record_views(maps@) =~= empty_records());
    let mut w: usize = 0;
    while w < wires.len()
        invariant
            wires@.len() == ws.len(),
            forall|v: int|
                0 <= v < ws.len() ==> {
                    &&& (#[trigger] wires@[v])@.len() == ws[v].len()
                    &&& forall|i: int| 0 <= i < ws[v].len() ==> same_move(#[trigger] wires@[v]@[i], ws[v][i])
                },
            w <= ws.len(),
            maps@.len() == 256,
            trace_wires(empty_records(), ws, 0) == trace_wires(record_views(maps@), ws, w as int),
        decreases wires.len() - w,
    {
        let key = w % 256;
        let wire = &wires[w];
        let ghost mv = ws[w as int];
        let ghost m0 = maps@[key as int]@;
        let ghost before = record_views(maps@);
        let mut x: i32 = 0;
        let mut y: i32 = 0;
        let mut d: i32 = 0;
        let mut i: usize = 0;
        assert(mv.subrange(0, mv.len() as int) =~= mv);
        while i < wire.len()
            invariant
                wire@.len() == mv.len(),
                forall|t: int| 0 <= t < mv.len() ==> same_move(#[trigger] wire@[t], mv[t]),
                i <= mv.len(),
                key < 256,
                maps@.len() == 256,
                forall|j: int| 0 <= j < 256 && j != key ==> #[trigger] maps@[j]@ == before[j],
                before.len() == 256,
                w < ws.len(),
                mv == ws[w as int],
                key == w % 256,
                before[key as int] == m0,
                trace_wires(empty_records(), ws, 0) == trace_wires(before, ws, w as int),
                trace_moves(0, 0, 0, m0, mv) == trace_moves(
                    x as int,
                    y as int,
                    d as int,
                    maps@[key as int]@,
                    mv.subrange(i as int, mv.len() as int),
                ),
            decreases wire.len() - i,
        {
            let (dx, dy, n) = wire[i];
            let ghost rest = mv.subrange(i as int, mv.len() as int);
            proof {
                assert(rest[0] == mv[i as int]);
                assert(same_move(wire@[i as int], mv[i as int]));
                assert(rest.drop_first() =~= mv.subrange(i + 1, mv.len() as int));
            }
            let ghost xs = x as int;
            let ghost ys = y as int;
            let ghost ds = d as int;
            let ghost ms = maps@[key as int]@;
            let mut j: i32 = 0;
            while j < n
                invariant
                    0 <= j,
                    j <= n || n <= 0,
                    key < 256,
                    maps@.len() == 256,
                    forall|t: int| 0 <= t < 256 && t != key ==> #[trigger] maps@[t]@ == before[t],
                    w < ws.len(),
                    mv == ws[w as int],
                    key == w % 256,
                    before.len() == 256,
                    before[key as int] == m0,
                    trace_wires(empty_records(), ws, 0) == trace_wires(before, ws, w as int),
                    trace_moves(0, 0, 0, m0, mv) == trace_moves(xs, ys, ds, ms, rest),
                    rest.len() > 0,
                    rest[0] == (dx as int, dy as int, n as int),
                    trace_steps(xs, ys, ds, ms, dx as int, dy as int, n as int) == trace_steps(
                        x as int,
                        y as int,
                        d as int,
                        maps@[key as int]@,
                        dx as int,
                        dy as int,
                        n - j,
                    ),
                decreases n - j,
            {
                let x2 = match x.checked_add(dx) {
                    Some(v) => v,
                    None => {
                        return None;
                    },
                };
                let y2 = match y.checked_add(dy) {
                    Some(v) => v,
                    None => {
                        return None;
                    },
                };
                let d2 = match d.checked_add(1) {
                    Some(v) => v,
                    None => {
                        return None;
                    },
                };
                maps[key].insert((x2, y2), d2);
                x = x2;
                y = y2;
                d = d2;
                j = j + 1;
            }
            i = i + 1;
        }
        proof {
            assert(mv.subrange(i as int, mv.len() as int) =~= Seq::<(int, int, int)>::empty());
            assert(record_views(maps@) =~= before.update(key as int, maps@[key as int]@));
            assert(before[(w as int) % 256] == m0);
        }
        w = w + 1;
    }
    Some(maps)
}

/// Whether all of the first `l` records hold panel `c`.
fn reached_by_all(maps: &Vec<BTreeMap<(i32, i32), i32>>, l: usize, c: (i32, i32)) -> (r: bool)
    requires
        1 <= l <= maps@.len(),
    ensures
        r == forall|w: int| 0 <= w < l ==> #[trigger] maps@[w]@.contains_key(c),
{
    let mut w: usize = 0;
    while w < l
        invariant
            l <= maps@.len(),
            w <= l,
            forall|v: int| 0 <= v < w ==> #[trigger] maps@[v]@.contains_key(c),
        decreases l - w,
    {
        if !maps[w].contains_key(&c) {
            return false;
        }
        w = w + 1;
    }
    true
}

/// The distance of a crossing `c` of the first `l` records.
fn distance_of(method: DistanceMethod, maps: &Vec<BTreeMap<(i32, i32), i32>>, l: usize, c: (i32, i32)) -> (r: i64)
    requires
        1 <= l <= 256,
        l <= maps@.len(),
        forall|w: int| 0 <= w < l ==> #[trigger] maps@[w]@.contains_key(c),
    ensures
        r == crossing_distance(method, record_views(maps@), l as int, c),
{
    match method {
        DistanceMethod::Manhattan => {
            let ax: i64 = if c.0 < 0 {
                -(c.0 as i64)
            } else {
                c.0 as i64
            };
            let ay: i64 = if c.1 < 0 {
                -(c.1 as i64)
            } else {
                c.1 as i64
            };
            ax + ay
        },
        DistanceMethod::WireLength => {
            let ghost views = record_views(maps@);
            let mut sum: i64 = 0;
            let mut w: usize = 0;
            while w < l
                invariant
                    l <= 256,
                    l <= maps@.len(),
                    views == record_views(maps@),
                    forall|v: int| 0 <= v < l ==> #[trigger] maps@[v]@.contains_key(c),
                    w <= l,
                    sum == wire_sum(views, c, w as int),
                    -(w as int) * 0x8000_0000 <= sum <= (w as int) * 0x8000_0000,
                decreases l - w,
            {
                let value = match maps[w].get(&c) {
                    Some(v) => *v,
                    None => 0,
                };
                assert(views[w as int] == maps@[w as int]@);
                sum = sum + value as i64;
                w = w + 1;
            }
            sum
        },
    }
}

/// The smallest distance over the crossings of the first `l` records.
fn best_crossing(maps: &Vec<BTreeMap<(i32, i32), i32>>, l: usize, method: DistanceMethod) -> (r: Option<i64>)
    requires
        maps@.len() == 256,
    ensures
        is_best(method, record_views(maps@), l as int, r),
{
    let ghost views = record_views(maps@);
    if l == 0 || l > 256 {
        return None;
    }
    let first = &maps[0];
    let ghost m = first@;
    assert(views[0] == m);
    let ghost pairs = vstd::std_specs::btree::spec_btree_map_iter(first).remaining();
    let ghost mut visited: int = 0;
    let mut best: Option<i64> = None;
    for kv in it: first.iter()
        invariant
            maps@.len() == 256,
            1 <= l <= 256,
            views == record_views(maps@),
            m == maps@[0]@,
            m == first@,
            it.seq() == pairs,
            visited == it.index(),
            forall|t: int| 0 <= t < pairs.len() ==> m.contains_key(*(#[trigger] pairs[t]).0),
            best is None ==> forall|t: int| 0 <= t < visited ==> !is_crossing(views, l as int, *(#[trigger] pairs[t]).0),
            best is Some ==> exists|c: (i32, i32)|
                is_crossing(views, l as int, c) && crossing_distance(method, views, l as int, c) == best->0,
            best is Some ==> forall|t: int|
                0 <= t < visited && is_crossing(views, l as int, *(#[trigger] pairs[t]).0) ==> best->0
                    <= crossing_distance(method, views, l as int, *pairs[t].0),
    {
        let c = *kv.0;
        proof {
            assert(c == *pairs[visited].0);
        }
        if reached_by_all(maps, l, c) {
            proof {
                assert forall|w: int| 0 <= w < l implies #[trigger] views[w].contains_key(c) by {
                    assert(views[w] == maps@[w]@);
                }
            }
            assert(is_crossing(views, l as int, c));
            let dist = distance_of(method, maps, l, c);
            let better = match best {
                None => true,
                Some(b) => dist < b,
            };
            if better {
                best = Some(dist);
            }
        } else {
            proof {
                if is_crossing(views, l as int, c) {
                    assert forall|w: int| 0 <= w < l implies #[trigger] maps@[w]@.contains_key(c) by {
                        assert(views[w] == maps@[w]@);
                        assert(views[w].contains_key(c));
                    }
                }
            }
        }
        proof {
            visited = visited + 1;
        }
    }
    proof {
        assert(visited == pairs.len());
        assert forall|c: (i32, i32)| #[trigger] is_crossing(views, l as int, c) implies (best is Some && best->0
            <= crossing_distance(method, views, l as int, c)) by {
            assert(views[0].contains_key(c));
            assert(pairs.contains((&c, &m[c])));
            let t = choose|t: int| 0 <= t < pairs.len() && pairs[t] == (&c, &m[c]);
            assert(*pairs[t].0 == c);
        }
    }
    best
}

/// The crossing of all wires nearest the origin by `method`, over the
/// wires of `input`, one per line. `None` if no panel is reached by every
/// wire, if a line is malformed, or if a wire leaves the range of `i32`.
pub fn find_best_intersection(input: &str, method: DistanceMethod) -> (r: Option<i64>)
    ensures
        best_for_text(method, input@, r),
{
    let chars = collect_chars(input);
    let wires = match read_wires(&chars) {
        Some(w) => w,
        None => {
            return None;
        },
    };
    let ghost ws = wire_moves(text_lines(chars@))->Some_0;
    let maps = match trace_all(&wires, Ghost(ws)) {
        Some(m) => m,
        None => {
            return None;
        },
    };
    best_crossing(&maps, wires.len(), method)
}

} // verus!
