//! Orbit maps: lines `A)B` saying that `B` orbits `A`, and the chains of
//! objects that each object orbits directly or indirectly.
use vstd::prelude::*;

use crate::program::{lemma_split_at, lemma_split_none, split_on, trim_end, trim_start, trimmed_chars};

verus! {

/// A line without the carriage return that may end it.
pub open spec fn strip_cr(l: Seq<char>) -> Seq<char> {
    if l.len() > 0 && l.last() == '\r' {
        l.drop_last()
    } else {
        l
    }
}

/// `k` is the position of the first `)` in `l`.
pub open spec fn first_paren_at(l: Seq<char>, k: int) -> bool {
    0 <= k < l.len() && l[k] == ')' && forall|i: int| 0 <= i < k ==> #[trigger] l[i] != ')'
}

/// The orbits that lines state, each object mapped to the one it orbits; a
/// later line about an object replaces an earlier one, and lines without
/// `)` say nothing.
pub open spec fn orbit_lines(ls: Seq<Seq<char>>) -> Map<Seq<char>, Seq<char>>
    decreases ls.len(),
{
    if ls.len() == 0 {
        Map::empty()
    } else {
        let m = orbit_lines(ls.drop_last());
        let l = strip_cr(ls.last());
        if exists|k: int| first_paren_at(l, k) {
            let k = choose|k: int| first_paren_at(l, k);
            m.insert(l.subrange(k + 1, l.len() as int), l.subrange(0, k))
        } else {
            m
        }
    }
}

/// The orbit map of a text, trimmed and split into lines.
pub open spec fn orbit_map(text: Seq<char>) -> Map<Seq<char>, Seq<char>> {
    orbit_lines(split_on(trim_end(trim_start(text)), '\n'))
}

/// The objects that `x` orbits, nearest first, following at most `fuel` orbits.
pub open spec fn ancestors(g: Map<Seq<char>, Seq<char>>, x: Seq<char>, fuel: nat) -> Seq<Seq<char>>
    decreases fuel,
{
    if fuel == 0 || !g.contains_key(x) {
        Seq::<Seq<char>>::empty()
    } else {
        seq![g[x]] + ancestors(g, g[x], (fuel - 1) as nat)
    }
}

/// The chain of `x`: every object it orbits, directly or not.
pub open spec fn chain(g: Map<Seq<char>, Seq<char>>, x: Seq<char>) -> Seq<Seq<char>> {
    ancestors(g, x, usize::MAX as nat)
}

/// The total length of the chains of `ks`.
pub open spec fn chain_total(g: Map<Seq<char>, Seq<char>>, ks: Seq<Seq<char>>) -> nat
    decreases ks.len(),
{
    if ks.len() == 0 {
        0
    } else {
        chain_total(g, ks.drop_last()) + chain(g, ks.last()).len()
    }
}

/// The last position of `x` in `s`.
pub open spec fn last_index(s: Seq<Seq<char>>, x: Seq<char>) -> int
    decreases s.len(),
{
    if s.len() == 0 {
        -1
    } else if s.last() == x {
        s.len() - 1
    } else {
        last_index(s.drop_last(), x)
    }
}

/// Going up chain `a` from position `i`, the first object that chain `b`
/// holds: its position in `a` plus its last position in `b`.
pub open spec fn first_meeting(a: Seq<Seq<char>>, b: Seq<Seq<char>>, i: int) -> Option<int>
    decreases a.len() - i,
{
    if i < 0 || i >= a.len() {
        None
    } else if b.contains(a[i]) {
        Some(i + last_index(b, a[i]))
    } else {
        first_meeting(a, b, i + 1)
    }
}

/// The objects of an orbit map, each once, with the index of the object
/// each one orbits. Names are kept in a table of their own because a
/// `BTreeMap` keyed by `&str` gets no contract from vstd: it states no
/// ordering laws for `str`.
pub struct OrbitGraph {
    names: Vec<Vec<char>>,
    parent: Vec<Option<usize>>,
}

/// The names as character sequences.
pub open spec fn name_seqs(names: Seq<Vec<char>>) -> Seq<Seq<char>> {
    names.map_values(|n: Vec<char>| n@)
}

/// The orbits that a table of names and parents records.
pub open spec fn table_map(ns: Seq<Seq<char>>, ps: Seq<Option<usize>>) -> Map<Seq<char>, Seq<char>>
    decreases ps.len(),
{
    if ps.len() == 0 || ns.len() < ps.len() {
        Map::empty()
    } else {
        let m = table_map(ns, ps.drop_last());
        match ps.last() {
            Some(p) => m.insert(ns[ps.len() - 1], ns[p as int]),
            None => m,
        }
    }
}

/// One parent slot per name, names distinct, parents valid positions.
pub open spec fn table_ok(ns: Seq<Seq<char>>, ps: Seq<Option<usize>>) -> bool {
    &&& ns.len() == ps.len()
    &&& forall|i: int, j: int| 0 <= i < j < ns.len() ==> ns[i] != ns[j]
    &&& forall|i: int| 0 <= i < ps.len() && (#[trigger] ps[i]) is Some ==> ps[i]->0 < ns.len()
}

proof fn lemma_table_lookup(ns: Seq<Seq<char>>, ps: Seq<Option<usize>>, n: int)
    requires
        ns.len() >= ps.len(),
        0 <= n <= ps.len(),
        forall|i: int, j: int| 0 <= i < j < ns.len() ==> ns[i] != ns[j],
        forall|i: int| 0 <= i < ps.len() && (#[trigger] ps[i]) is Some ==> ps[i]->0 < ns.len(),
    ensures
        forall|i: int|
            0 <= i < n ==> (#[trigger] table_map(ns, ps.subrange(0, n)).contains_key(ns[i]) <==> ps[i] is Some),
        forall|i: int|
            0 <= i < n && ps[i] is Some ==> #[trigger] table_map(ns, ps.subrange(0, n))[ns[i]] == ns[ps[i]->0 as int],
        forall|k: Seq<char>|
            #[trigger] table_map(ns, ps.subrange(0, n)).contains_key(k) ==> exists|i: int| 0 <= i < n && ns[i] == k,
    decreases n,
{
    if n > 0 {
        lemma_table_lookup(ns, ps, n - 1);
        let sub = ps.subrange(0, n);
        assert(sub.drop_last() =~= ps.subrange(0, n - 1));
        let m0 = table_map(ns, ps.subrange(0, n - 1));
        assert forall|i: int| 0 <= i < n - 1 implies #[trigger] ns[i] != ns[n - 1] by {}
        assert forall|k: Seq<char>| #[trigger] table_map(ns, sub).contains_key(k) implies exists|i: int|
            0 <= i < n && ns[i] == k by {
            if k != ns[n - 1] {
                assert(m0.contains_key(k));
            }
        }
    }
}

/// Looks a table up as a map: which names have an orbit, and which.
proof fn lemma_table(ns: Seq<Seq<char>>, ps: Seq<Option<usize>>)
    requires
        table_ok(ns, ps),
    ensures
        forall|i: int| 0 <= i < ps.len() ==> (#[trigger] table_map(ns, ps).contains_key(ns[i]) <==> ps[i] is Some),
        forall|i: int|
            0 <= i < ps.len() && ps[i] is Some ==> #[trigger] table_map(ns, ps)[ns[i]] == ns[ps[i]->0 as int],
        forall|k: Seq<char>|
            #[trigger] table_map(ns, ps).contains_key(k) ==> exists|i: int| 0 <= i < ps.len() && ns[i] == k,
{
    lemma_table_lookup(ns, ps, ps.len() as int);
    assert(ps.subrange(0, ps.len() as int) =~= ps);
}

/// Setting the orbit of entry `c` inserts it into the map.
proof fn lemma_table_set(ns: Seq<Seq<char>>, ps: Seq<Option<usize>>, c: int, p: usize)
    requires
        table_ok(ns, ps),
        0 <= c < ps.len(),
        p < ns.len(),
    ensures
        table_ok(ns, ps.update(c, Some(p))),
        table_map(ns, ps.update(c, Some(p))) == table_map(ns, ps).insert(ns[c], ns[p as int]),
{
    let ps2 = ps.update(c, Some(p));
    assert(table_ok(ns, ps2));
    lemma_table(ns, ps);
    lemma_table(ns, ps2);
    let a = table_map(ns, ps2);
    let b = table_map(ns, ps).insert(ns[c], ns[p as int]);
    assert forall|k: Seq<char>| a.contains_key(k) <==> b.contains_key(k) by {
        if a.contains_key(k) {
            let i = choose|i: int| 0 <= i < ps2.len() && ns[i] == k;
            assert(a.contains_key(ns[i]));
        }
        if b.contains_key(k) && k != ns[c] {
            let i = choose|i: int| 0 <= i < ps.len() && ns[i] == k;
            assert(table_map(ns, ps).contains_key(ns[i]));
        }
    }
    assert forall|k: Seq<char>| a.contains_key(k) implies a[k] == b[k] by {
        let i = choose|i: int| 0 <= i < ps2.len() && ns[i] == k;
        assert(a.contains_key(ns[i]));
    }
    assert(a =~= b);
}

/// Adding a name without an orbit leaves the map as it was.
proof fn lemma_table_push(ns: Seq<Seq<char>>, ps: Seq<Option<usize>>, x: Seq<char>)
    requires
        table_ok(ns, ps),
        !ns.contains(x),
    ensures
        table_ok(ns.push(x), ps.push(None)),
        table_map(ns.push(x), ps.push(None)) == table_map(ns, ps),
{
    let ns2 = ns.push(x);
    let ps2 = ps.push(None);
    assert forall|i: int, j: int| 0 <= i < j < ns2.len() implies ns2[i] != ns2[j] by {
        if j == ns.len() {
            assert(ns[i] == ns2[i]);
        }
    }
    assert(ps2.drop_last() =~= ps);
    lemma_table_prefix(ns, x, ps);
}

proof fn lemma_table_prefix(ns: Seq<Seq<char>>, x: Seq<char>, ps: Seq<Option<usize>>)
    requires
        ns.len() >= ps.len(),
        forall|i: int| 0 <= i < ps.len() && (#[trigger] ps[i]) is Some ==> ps[i]->0 < ns.len(),
    ensures
        table_map(ns.push(x), ps) == table_map(ns, ps),
    decreases ps.len(),
{
    if ps.len() > 0 {
        let d = ps.drop_last();
        assert forall|i: int| 0 <= i < d.len() && (#[trigger] d[i]) is Some implies d[i]->0 < ns.len() by {
            assert(d[i] == ps[i]);
        }
        lemma_table_prefix(ns, x, d);
        assert(ns.push(x)[ps.len() - 1] == ns[ps.len() - 1]);
        if let Some(p) = ps.last() {
            assert(ps[ps.len() - 1] is Some);
            assert(ns.push(x)[p as int] == ns[p as int]);
        }
    }
}

impl View for OrbitGraph {
    type V = Map<Seq<char>, Seq<char>>;

    closed spec fn view(&self) -> Map<Seq<char>, Seq<char>> {
        table_map(name_seqs(self.names@), self.parent@)
    }
}

/// Copies `chars[start..end]`.
fn copy_range(chars: &Vec<char>, start: usize, end: usize) -> (r: Vec<char>)
    requires
        start <= end <= chars@.len(),
    ensures
        r@ == chars@.subrange(start as int, end as int),
{
    let mut r: Vec<char> = Vec::new();
    let mut i = start;
    while i < end
        invariant
            start <= i <= end <= chars@.len(),
            r@ == chars@.subrange(start as int, i as int),
        decreases end - i,
    {
        r.push(chars[i]);
        i = i + 1;
        assert(r@ =~= chars@.subrange(start as int, i as int));
    }
    r
}

fn same_chars(a: &Vec<char>, b: &Vec<char>) -> (r: bool)
    ensures
        r == (a@ == b@),
{
    if a.len() != b.len() {
        return false;
    }
    let mut i: usize = 0;
    while i < a.len()
        invariant
            a@.len() == b@.len(),
            i <= a@.len(),
            forall|k: int| 0 <= k < i ==> a@[k] == b@[k],
        decreases a.len() - i,
    {
        if a[i] != b[i] {
            return false;
        }
        i = i + 1;
    }
    assert(a@ =~= b@);
    true
}

impl OrbitGraph {
    /// The table is consistent.
    pub closed spec fn wf(&self) -> bool {
        table_ok(name_seqs(self.names@), self.parent@)
    }

    /// The position of `name` among the objects, if it is one.
    fn find(&self, name: &Vec<char>) -> (r: Option<usize>)
        requires
            self.wf(),
        ensures
            match r {
                Some(i) => i < self.names@.len() && self.names@[i as int]@ == name@,
                None => !name_seqs(self.names@).contains(name@),
            },
    {
        let mut i: usize = 0;
        while i < self.names.len()
            invariant
                i <= self.names@.len(),
                forall|k: int| 0 <= k < i ==> self.names@[k]@ != name@,
            decreases self.names.len() - i,
        {
            if same_chars(&self.names[i], name) {
                return Some(i);
            }
            i = i + 1;
        }
        proof {
            if name_seqs(self.names@).contains(name@) {
                let k = choose|k: int| 0 <= k < name_seqs(self.names@).len() && name_seqs(self.names@)[k] == name@;
                assert(self.names@[k]@ == name@);
            }
        }
        None
    }

    /// The position of `name`, adding it without an orbit if it is new.
    fn intern(&mut self, name: Vec<char>) -> (r: usize)
        requires
            old(self).wf(),
        ensures
            final(self).wf(),
            final(self)@ == old(self)@,
            r < final(self).names@.len(),
            final(self).names@[r as int]@ == name@,
            final(self).names@.len() == final(self).parent@.len(),
            final(self).names@.len() >= old(self).names@.len(),
            forall|i: int| 0 <= i < old(self).names@.len() ==> #[trigger] final(self).names@[i] == old(self).names@[i],
    {
        match self.find(&name) {
            Some(i) => i,
            None => {
                let ghost ns = name_seqs(self.names@);
                proof {
                    lemma_table_push(ns, self.parent@, name@);
                }
                self.names.push(name);
                self.parent.push(None);
                assert(name_seqs(self.names@) =~= ns.push(name@));
                self.names.len() - 1
            },
        }
    }

    /// Records that object `child` orbits object `center`.
    fn add_orbit(&mut self, child: Vec<char>, center: Vec<char>)
        requires
            old(self).wf(),
        ensures
            final(self).wf(),
            final(self)@ == old(self)@.insert(child@, center@),
    {
        let ghost child_name = child@;
        let ghost center_name = center@;
        let c = self.intern(child);
        let p = self.intern(center);
        proof {
            assert(self.names@[c as int]@ == child_name);
            assert(name_seqs(self.names@)[c as int] == child_name);
            assert(name_seqs(self.names@)[p as int] == center_name);
            lemma_table_set(name_seqs(self.names@), self.parent@, c as int, p);
        }
        self.parent.set(c, Some(p));
    }
}

/// Reads an orbit map: one `A)B` per line, `B` orbiting `A`.
pub fn parse_graph(s: &str) -> (r: OrbitGraph)
    ensures
        r.wf(),
        r@ == orbit_map(s@),
{
    let (chars, lo, hi) = trimmed_chars(s);
    let mut graph = OrbitGraph { names: Vec::new(), parent: Vec::new() };
    assert(graph@ == Map::<Seq<char>, Seq<char>>::empty());
    let ghost mut done: Seq<Seq<char>> = Seq::empty();
    let mut st = lo;
    loop
        invariant
            lo <= st <= hi <= chars@.len(),
            graph.wf(),
            graph@ == orbit_lines(done),
            split_on(trim_end(trim_start(s@)), '\n') == done + split_on(
                chars@.subrange(st as int, hi as int),
                '\n',
            ),
            chars@.subrange(lo as int, hi as int) == trim_end(trim_start(s@)),
        decreases hi - st,
    {
        let mut k = st;
        while k < hi && chars[k] != '\n'
            invariant
                st <= k <= hi <= chars@.len(),
                forall|i: int| st <= i < k ==> #[trigger] chars@[i] != '\n',
            decreases hi - k,
        {
            k = k + 1;
        }
        let ghost w = chars@.subrange(st as int, hi as int);
        let ghost line = chars@.subrange(st as int, k as int);
        let ghost tail = if k < hi {
            chars@.subrange(k + 1, hi as int)
        } else {
            Seq::<char>::empty()
        };
        proof {
            if k < hi {
                lemma_split_at(w, '\n', k - st);
                assert(w.subrange(0, k - st) =~= line);
                assert(w.subrange(k - st + 1, w.len() as int) =~= tail);
            } else {
                lemma_split_none(w, '\n');
                assert(w =~= line);
            }
        }
        let end = if k > st && chars[k - 1] == '\r' {
            k - 1
        } else {
            k
        };
        let ghost l = strip_cr(line);
        assert(l =~= chars@.subrange(st as int, end as int));
        let mut p = st;
        while p < end && chars[p] != ')'
            invariant
                st <= p <= end <= chars@.len(),
                forall|i: int| st <= i < p ==> #[trigger] chars@[i] != ')',
            decreases end - p,
        {
            p = p + 1;
        }
        let ghost prev = done;
        proof {
            done = done.push(line);
            assert(done.drop_last() =~= prev);
        }
        if p < end {
            let child = copy_range(&chars, p + 1, end);
            let center = copy_range(&chars, st, p);
            proof {
                let kk = p - st;
                assert(first_paren_at(l, kk));
                let c = choose|k: int| first_paren_at(l, k);
                if c < kk {
                    assert(l[c] == chars@[st + c]);
                }
                if kk < c {
                    assert(l[kk] == ')');
                }
                assert(c == kk);
                assert(l.subrange(kk + 1, l.len() as int) =~= child@);
                assert(l.subrange(0, kk) =~= center@);
            }
            let ghost gprev = graph@;
            graph.add_orbit(child, center);
            proof {
                assert(done.last() == line);
                assert(gprev == orbit_lines(prev));
                assert(graph@ == orbit_lines(done));
            }
        } else {
            proof {
                assert forall|kk: int| !first_paren_at(l, kk) by {
                    if 0 <= kk < l.len() {
                        assert(l[kk] == chars@[st + kk]);
                    }
                }
                assert(done.last() == line);
                assert(graph@ == orbit_lines(done));
            }
        }
        if k == hi {
            proof {
                assert(done =~= prev + split_on(chars@.subrange(st as int, hi as int), '\n'));
            }
            return graph;
        }
        proof {
            assert(prev + split_on(w, '\n') =~= done + split_on(tail, '\n'));
        }
        st = k + 1;
    }
}

impl OrbitGraph {
    /// The length of the orbit chain of entry `i`.
    fn chain_len_from(&self, i: usize) -> (r: usize)
        requires
            self.wf(),
            i < self.names@.len(),
        ensures
            r == chain(self@, self.names@[i as int]@).len(),
    {
        let ghost ns = name_seqs(self.names@);
        proof {
            lemma_table(ns, self.parent@);
        }
        let mut idx = i;
        let mut fuel: usize = usize::MAX;
        let mut count: usize = 0;
        while fuel > 0 && self.parent[idx].is_some()
            invariant
                self.wf(),
                ns == name_seqs(self.names@),
                idx < self.names@.len(),
                count + fuel == usize::MAX,
                count + ancestors(self@, ns[idx as int], fuel as nat).len() == chain(self@, ns[i as int]).len(),
                forall|j: int| 0 <= j < self.parent@.len() ==> (#[trigger] self@.contains_key(ns[j]) <==> self.parent@[j] is Some),
                forall|j: int|
                    0 <= j < self.parent@.len() && self.parent@[j] is Some ==> #[trigger] self@[ns[j]] == ns[self.parent@[j]->0 as int],
            decreases fuel,
        {
            let p = self.parent[idx].unwrap();
            proof {
                assert(self@.contains_key(ns[idx as int]));
            }
            idx = p;
            fuel = fuel - 1;
            count = count + 1;
        }
        proof {
            assert(ns[idx as int] == self.names@[idx as int]@);
            if fuel > 0 {
                assert(!self@.contains_key(ns[idx as int]));
            }
        }
        count
    }
}

/// The objects that `to` orbits, directly or indirectly, nearest first.
pub fn walk(graph: &OrbitGraph, to: &Vec<char>) -> (r: Vec<Vec<char>>)
    requires
        graph.wf(),
    ensures
        name_seqs(r@) == chain(graph@, to@),
{
    let ghost g = graph@;
    let ghost ns = name_seqs(graph.names@);
    proof {
        lemma_table(ns, graph.parent@);
    }
    let mut out: Vec<Vec<char>> = Vec::new();
    let start = match graph.find(to) {
        Some(i) => i,
        None => {
            proof {
                if g.contains_key(to@) {
                    let i = choose|i: int| 0 <= i < graph.parent@.len() && ns[i] == to@;
                    assert(ns.contains(to@));
                }
            }
            assert(name_seqs(out@) =~= Seq::<Seq<char>>::empty());
            return out;
        },
    };
    let mut idx = start;
    let mut fuel: usize = usize::MAX;
    assert(name_seqs(out@) =~= Seq::<Seq<char>>::empty());
    assert(ns[start as int] == to@);
    while fuel > 0 && graph.parent[idx].is_some()
        invariant
            graph.wf(),
            g == graph@,
            ns == name_seqs(graph.names@),
            idx < graph.names@.len(),
            name_seqs(out@) + ancestors(g, ns[idx as int], fuel as nat) == chain(g, to@),
            forall|j: int| 0 <= j < graph.parent@.len() ==> (#[trigger] g.contains_key(ns[j]) <==> graph.parent@[j] is Some),
            forall|j: int|
                0 <= j < graph.parent@.len() && graph.parent@[j] is Some ==> #[trigger] g[ns[j]] == ns[graph.parent@[j]->0 as int],
        decreases fuel,
    {
        let p = graph.parent[idx].unwrap();
        let ghost before = name_seqs(out@);
        proof {
            assert(g.contains_key(ns[idx as int]));
        }
        let name = copy_range(&graph.names[p], 0, graph.names[p].len());
        assert(name@ =~= ns[p as int]);
        out.push(name);
        proof {
            assert(name_seqs(out@) =~= before.push(ns[p as int]));
            assert(before + (seq![ns[p as int]] + ancestors(g, ns[p as int], (fuel - 1) as nat)) =~= before.push(
                ns[p as int],
            ) + ancestors(g, ns[p as int], (fuel - 1) as nat));
        }
        idx = p;
        fuel = fuel - 1;
    }
    proof {
        if fuel > 0 {
            assert(!g.contains_key(ns[idx as int]));
        }
        assert(name_seqs(out@) + Seq::<Seq<char>>::empty() =~= name_seqs(out@));
    }
    out
}

/// The total number of direct and indirect orbits: the lengths of the
/// chains of all objects that orbit something. `None` if it does not fit
/// a `usize`.
pub fn count_orbits(graph: &OrbitGraph) -> (r: Option<usize>)
    requires
        graph.wf(),
    ensures
        exists|ks: Seq<Seq<char>>|
            {
                &&& ks.no_duplicates()
                &&& ks.to_set() == graph@.dom()
                &&& match r {
                    Some(n) => n == chain_total(graph@, ks),
                    None => chain_total(graph@, ks) > usize::MAX,
                }
            },
{
    let ghost ns = name_seqs(graph.names@);
    let ghost g = graph@;
    proof {
        lemma_table(ns, graph.parent@);
    }
    let ghost mut ks: Seq<Seq<char>> = Seq::empty();
    let mut total: u128 = 0;
    let mut i: usize = 0;
    while i < graph.names.len()
        invariant
            total <= i * (usize::MAX as int),
            graph.wf(),
            g == graph@,
            ns == name_seqs(graph.names@),
            i <= ns.len(),
            ks.no_duplicates(),
            forall|k: Seq<char>| ks.contains(k) <==> exists|j: int| 0 <= j < i && ns[j] == k && g.contains_key(k),
            total == chain_total(g, ks),
            forall|j: int| 0 <= j < graph.parent@.len() ==> (#[trigger] g.contains_key(ns[j]) <==> graph.parent@[j] is Some),
            forall|k: Seq<char>| #[trigger] g.contains_key(k) ==> exists|j: int| 0 <= j < graph.parent@.len() && ns[j] == k,
        decreases graph.names.len() - i,
    {
        if graph.parent[i].is_some() {
            let n = graph.chain_len_from(i);
            let ghost prev = ks;
            proof {
                assert(!prev.contains(ns[i as int])) by {
                    if prev.contains(ns[i as int]) {
                        let j = choose|j: int| 0 <= j < i && ns[j] == ns[i as int] && g.contains_key(ns[i as int]);
                    }
                }
                ks = ks.push(ns[i as int]);
                assert(ks.drop_last() =~= prev);
                assert(g.contains_key(ns[i as int]));
                assert forall|k: Seq<char>| ks.contains(k) <==> exists|j: int|
                    0 <= j < i + 1 && ns[j] == k && g.contains_key(k) by {
                    if ks.contains(k) && k != ns[i as int] {
                        assert(prev.contains(k)) by {
                            let t = choose|t: int| 0 <= t < ks.len() && ks[t] == k;
                            assert(prev[t] == k);
                        }
                    }
                    if exists|j: int| 0 <= j < i + 1 && ns[j] == k && g.contains_key(k) {
                        if k != ns[i as int] {
                            assert(prev.contains(k));
                            let t = choose|t: int| 0 <= t < prev.len() && prev[t] == k;
                            assert(ks[t] == k);
                        } else {
                            assert(ks[ks.len() - 1] == k);
                        }
                    }
                }
                assert(ns[i as int] == graph.names@[i as int]@);
            }
            assert(total + n <= (i + 1) * (usize::MAX as int)) by (nonlinear_arith)
                requires
                    total <= i * (usize::MAX as int),
                    n <= usize::MAX,
            ;
            total = total + n as u128;
        } else {
            proof {
                assert forall|k: Seq<char>| ks.contains(k) <==> exists|j: int|
                    0 <= j < i + 1 && ns[j] == k && g.contains_key(k) by {
                    if exists|j: int| 0 <= j < i + 1 && ns[j] == k && g.contains_key(k) {
                        let j = choose|j: int| 0 <= j < i + 1 && ns[j] == k && g.contains_key(k);
                        if j == i {
                            assert(g.contains_key(ns[i as int]));
                        }
                    }
                }
            }
        }
        i = i + 1;
    }
    proof {
        assert(ks.to_set() =~= g.dom()) by {
            assert forall|k: Seq<char>| ks.to_set().contains(k) <==> g.dom().contains(k) by {
                if g.contains_key(k) {
                    let j = choose|j: int| 0 <= j < graph.parent@.len() && ns[j] == k;
                }
            }
        }
    }
    assert(total <= usize::MAX * (usize::MAX as int) <= u128::MAX) by (nonlinear_arith)
        requires
            total <= i * (usize::MAX as int),
            i <= usize::MAX,
    ;
    if total > usize::MAX as u128 {
        None
    } else {
        Some(total as usize)
    }
}

/// The number of orbital transfers between the objects that `a` and `b`
/// orbit: going up the chain of `a`, the first object on the chain of `b`,
/// its position on `a`'s chain plus its position on `b`'s. `None` if the
/// chains never meet, or the sum does not fit a `usize`.
pub fn measure_path(graph: &OrbitGraph, a: &Vec<char>, b: &Vec<char>) -> (r: Option<usize>)
    requires
        graph.wf(),
    ensures
        match first_meeting(chain(graph@, a@), chain(graph@, b@), 0) {
            Some(d) => if d <= usize::MAX {
                r == Some(d as usize)
            } else {
                r is None
            },
            None => r is None,
        },
{
    let a_chain = walk(graph, a);
    let b_chain = walk(graph, b);
    let ghost ca = name_seqs(a_chain@);
    let ghost cb = name_seqs(b_chain@);
    let mut i: usize = 0;
    while i < a_chain.len()
        invariant
            i <= ca.len(),
            ca == chain(graph@, a@),
            cb == chain(graph@, b@),
            ca == name_seqs(a_chain@),
            cb == name_seqs(b_chain@),
            first_meeting(ca, cb, 0) == first_meeting(ca, cb, i as int),
        decreases a_chain.len() - i,
    {
        let mut j = b_chain.len();
        while j > 0
            invariant
                j <= cb.len(),
                i < ca.len(),
                ca == chain(graph@, a@),
                cb == chain(graph@, b@),
                ca == name_seqs(a_chain@),
                cb == name_seqs(b_chain@),
                forall|t: int| j <= t < cb.len() ==> cb[t] != ca[i as int],
                first_meeting(ca, cb, 0) == first_meeting(ca, cb, i as int),
            decreases j,
        {
            if same_chars(&b_chain[j - 1], &a_chain[i]) {
                proof {
                    assert(cb[j - 1] == b_chain@[j - 1]@);
                    assert(ca[i as int] == a_chain@[i as int]@);
                    lemma_last_index(cb, ca[i as int], j - 1);
                }
                return i.checked_add(j - 1);
            }
            j = j - 1;
        }
        proof {
            assert(!cb.contains(ca[i as int]));
        }
        i = i + 1;
    }
    None
}

proof fn lemma_last_index(s: Seq<Seq<char>>, x: Seq<char>, j: int)
    requires
        0 <= j < s.len(),
        s[j] == x,
        forall|t: int| j < t < s.len() ==> s[t] != x,
    ensures
        last_index(s, x) == j,
        s.contains(x),
    decreases s.len(),
{
    if j < s.len() - 1 {
        lemma_last_index(s.drop_last(), x, j);
    }
}

} // verus!
