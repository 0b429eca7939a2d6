//! Walking the lines of one area in cache-index-major order.
use crate::geometry::{CacheGeometry, ScrubArea};
use crate::order::{
    lemma_line_order, lemma_line_set, lemma_sets_past_end, lemma_order_in_set, lemma_set_len, lemma_set_start_end,
    lemma_set_start_grows, line_order, set_len, set_lines, set_start, sets_from,
};
use vstd::arithmetic::div_mod::*;
use vstd::arithmetic::power2::*;
use vstd::bits::*;
use vstd::prelude::*;

verus! {

/// The address of line `k` of area `a`, counting from the area's first line.
pub open spec fn line_address(g: CacheGeometry, a: ScrubArea, k: int) -> int {
    a.start + k * g.line_size()
}

/// The addresses of the lines of area `a`, in the order a scrub visits them.
pub open spec fn area_order(g: CacheGeometry, a: ScrubArea) -> Seq<usize> {
    line_order(g.area_size(a) as int, g.lines() as int).map_values(
        |k: int| line_address(g, a, k) as usize,
    )
}

/// Line `k` of a valid area starts on a line boundary inside the area, and
/// is line `line_of(a.start) + k` of memory.
pub proof fn lemma_line_address(g: CacheGeometry, a: ScrubArea, k: int)
    requires
        g.wf(),
        g.valid_area(a),
        0 <= k < g.area_size(a),
    ensures
        a.start <= line_address(g, a, k) <= a.end,
        line_address(g, a, k) - a.start == k * g.line_size(),
        line_address(g, a, k) % g.line_size() as int == 0,
        line_address(g, a, k) / g.line_size() as int == g.line_of(a.start) + k,
        g.line_of(a.start) <= g.line_of(a.end),
{
    let size = g.line_size() as int;
    lemma_pow2_pos(g.cacheline_width as nat);
    lemma_fundamental_div_mod(a.start as int, size);
    lemma_fundamental_div_mod(a.end as int, size);
    let sl = a.start as int / size;
    let el = a.end as int / size;
    assert(k <= el - sl);
    assert(k * size <= (el - sl) * size) by (nonlinear_arith)
        requires
            k <= el - sl,
            size > 0,
    ;
    assert(k * size >= 0) by (nonlinear_arith)
        requires
            k >= 0,
            size > 0,
    ;
    assert((el - sl) * size == size * el - size * sl) by (nonlinear_arith);
    assert(line_address(g, a, k) == size * (sl + k)) by (nonlinear_arith)
        requires
            a.start == size * sl,
            line_address(g, a, k) == a.start + k * size,
    ;
    lemma_mod_multiples_basic(sl + k, size);
    assert(size * (sl + k) == (sl + k) * size) by (nonlinear_arith);
    lemma_div_multiples_vanish(sl + k, size);
}

/// A full pass over a valid area visits each of its lines exactly once and
/// nothing else: every address visited starts a line inside the area, and
/// every line inside the area is visited once.
pub proof fn lemma_area_order_covers(g: CacheGeometry, a: ScrubArea)
    requires
        g.wf(),
        g.valid_area(a),
    ensures
        area_order(g, a).len() == g.area_size(a),
        area_order(g, a).no_duplicates(),
        forall|p: int|
            0 <= p < area_order(g, a).len() ==> a.start <= #[trigger] area_order(g, a)[p] <= a.end
                && area_order(g, a)[p] as nat % g.line_size() == 0,
        forall|addr: usize|
            a.start <= addr <= a.end && addr as nat % g.line_size() == 0 ==> #[trigger] area_order(
                g,
                a,
            ).contains(addr),
{
    let n = g.area_size(a) as int;
    let l = g.lines() as int;
    let size = g.line_size() as int;
    lemma_pow2_pos(g.cache_index_width as nat);
    lemma_pow2_pos(g.cacheline_width as nat);
    lemma_line_order(n, l);
    let lines = line_order(n, l);
    let s = area_order(g, a);
    assert forall|p: int| 0 <= p < s.len() implies a.start <= #[trigger] s[p] <= a.end && s[p] as nat
        % g.line_size() == 0 by {
        lemma_line_address(g, a, lines[p]);
    }
    assert forall|p: int, q: int| 0 <= p < s.len() && 0 <= q < s.len() && p != q implies s[p]
        != s[q] by {
        lemma_line_address(g, a, lines[p]);
        lemma_line_address(g, a, lines[q]);
        assert(lines[p] != lines[q]);
        if s[p] == s[q] {
            assert(lines[p] * size == lines[q] * size);
            assert(lines[p] == lines[q]) by (nonlinear_arith)
                requires
                    lines[p] * size == lines[q] * size,
                    size > 0,
            ;
        }
    }
    assert forall|addr: usize|
        a.start <= addr <= a.end && addr as nat % g.line_size() == 0 implies #[trigger] s.contains(
        addr,
    ) by {
        lemma_fundamental_div_mod(addr as int, size);
        lemma_fundamental_div_mod(a.start as int, size);
        let k = addr as int / size - a.start as int / size;
        lemma_div_is_ordered(a.start as int, addr as int, size);
        lemma_div_is_ordered(addr as int, a.end as int, size);
        assert(k * size == size * (addr as int / size) - size * (a.start as int / size))
            by (nonlinear_arith)
            requires
                k == addr as int / size - a.start as int / size,
        ;
        assert(lines.contains(k));
        let p = choose|p: int| 0 <= p < lines.len() && lines[p] == k;
        assert(s[p] == addr);
    }
}

/// The start of the run of set `k` in the order of area `a`.
pub open spec fn area_set_start(g: CacheGeometry, a: ScrubArea, k: int) -> int {
    set_start(g.area_size(a) as int, g.lines() as int, k)
}

/// The order of an area falls into one run per cache set, run `k` spanning
/// positions `area_set_start(g, a, k)` up to `area_set_start(g, a, k + 1)`:
/// the runs start at 0, end at the area's size, follow each other, and every
/// address of run `k` maps to the set `k` places after the set of the area's
/// first line. When the area holds at least one line per set, no run is
/// empty.
pub proof fn lemma_area_order_grouped(g: CacheGeometry, a: ScrubArea)
    requires
        g.wf(),
        g.valid_area(a),
    ensures
        area_set_start(g, a, 0) == 0,
        area_set_start(g, a, g.lines() as int) == area_order(g, a).len(),
        forall|k: int|
            0 <= k < g.lines() ==> #[trigger] area_set_start(g, a, k) <= area_set_start(g, a, k + 1),
        g.area_size(a) >= g.lines() ==> forall|k: int|
            0 <= k < g.lines() ==> #[trigger] area_set_start(g, a, k) < area_set_start(g, a, k + 1),
        forall|k: int, p: int|
            #![trigger area_set_start(g, a, k), area_order(g, a)[p]]
            0 <= k < g.lines() && area_set_start(g, a, k) <= p < area_set_start(g, a, k + 1)
                ==> g.index_of(area_order(g, a)[p]) == (g.index_of(a.start) + k)
                % g.lines() as int,
{
    let n = g.area_size(a) as int;
    let l = g.lines() as int;
    lemma_pow2_pos(g.cache_index_width as nat);
    lemma_line_order(n, l);
    lemma_set_start_end(n, l);
    assert forall|k: int| 0 <= k < g.lines() implies #[trigger] area_set_start(g, a, k)
        <= area_set_start(g, a, k + 1) && (n >= l ==> area_set_start(g, a, k) < area_set_start(
        g,
        a,
        k + 1,
    )) by {
        lemma_set_start_grows(n, l, k);
    }
    assert forall|k: int, p: int|
        #![trigger area_set_start(g, a, k), area_order(g, a)[p]]
        0 <= k < g.lines() && area_set_start(g, a, k) <= p < area_set_start(g, a, k + 1) implies g.index_of(
        area_order(g, a)[p],
    ) == (g.index_of(a.start) + k) % g.lines() as int by {
        lemma_run_entry(g, a, k, p);
    }
}

/// Entry `p` of the run of set `k` is line `k + j * lines` of the area, where
/// `j` counts the entries of the run before it, and maps to the set `k`
/// places after the set of the area's first line.
proof fn lemma_run_entry(g: CacheGeometry, a: ScrubArea, k: int, p: int)
    requires
        g.wf(),
        g.valid_area(a),
        0 <= k < g.lines(),
        area_set_start(g, a, k) <= p < area_set_start(g, a, k + 1),
    ensures
        0 <= p < area_order(g, a).len(),
        area_order(g, a)[p] == line_address(
            g,
            a,
            k + (p - area_set_start(g, a, k)) * g.lines(),
        ),
        g.index_of(area_order(g, a)[p]) == (g.index_of(a.start) + k) % g.lines() as int,
{
    let n = g.area_size(a) as int;
    let l = g.lines() as int;
    let j = p - set_start(n, l, k);
    lemma_pow2_pos(g.cache_index_width as nat);
    lemma_order_in_set(n, l, k, j);
    assert(set_start(n, l, k) + j == p);
    assert(p < line_order(n, l).len());
    assert(area_order(g, a).len() == line_order(n, l).len());
    let line = k + j * l;
    assert(0 <= line < n) by {
        lemma_set_len(n, l, k, j);
        assert(j * l >= 0) by (nonlinear_arith)
            requires
                j >= 0,
                l > 0,
        ;
    }
    lemma_line_address(g, a, line);
    let sl = g.line_of(a.start) as int;
    assert(area_order(g, a)[p] == line_address(g, a, line) as usize);
    assert(area_order(g, a)[p] as int == line_address(g, a, line));
    assert(g.line_of(area_order(g, a)[p]) == sl + line);
    lemma_mod_multiples_vanish(j, sl + k, l);
    assert(l * j == j * l) by (nonlinear_arith);
    lemma_add_mod_noop(sl, k, l);
    lemma_small_mod(k as nat, l as nat);
}

/// Within the run of each set, addresses strictly increase.
pub proof fn lemma_area_order_rising(g: CacheGeometry, a: ScrubArea)
    requires
        g.wf(),
        g.valid_area(a),
    ensures
        forall|k: int, p: int, q: int|
            #![trigger area_set_start(g, a, k), area_order(g, a)[p], area_order(g, a)[q]]
            0 <= k < g.lines() && area_set_start(g, a, k) <= p < q < area_set_start(g, a, k + 1)
                ==> area_order(g, a)[p] < area_order(g, a)[q],
{
    let l = g.lines() as int;
    let size = g.line_size() as int;
    lemma_pow2_pos(g.cacheline_width as nat);
    assert forall|k: int, p: int, q: int|
        #![trigger area_set_start(g, a, k), area_order(g, a)[p], area_order(g, a)[q]]
        0 <= k < g.lines() && area_set_start(g, a, k) <= p < q < area_set_start(
            g,
            a,
            k + 1,
        ) implies area_order(g, a)[p] < area_order(g, a)[q] by {
        lemma_run_entry(g, a, k, p);
        lemma_run_entry(g, a, k, q);
        let s = area_set_start(g, a, k);
        assert((k + (p - s) * l) * size < (k + (q - s) * l) * size) by (nonlinear_arith)
            requires
                p < q,
                l > 0,
                size > 0,
        ;
    }
}

/// A walk over the lines of one area in cache-index-major order: every line
/// of cache set `i` (counted from the set of the area's first line) before
/// any line of set `i + 1`, and within a set by rising address.
pub struct ScrubAreaIterator {
    geometry: CacheGeometry,
    scrub_area: ScrubArea,
    /// The set being walked, counted from the set of the area's first line.
    index: usize,
    /// Lines already visited in this set, times the number of sets: the
    /// distance in lines from the set's first line to the next one to visit.
    offset: usize,
}

impl ScrubAreaIterator {
    closed spec fn size(self) -> int {
        self.geometry.area_size(self.scrub_area) as int
    }

    closed spec fn sets(self) -> int {
        self.geometry.lines() as int
    }

    /// The shape of the cache this walk follows.
    pub closed spec fn geometry(self) -> CacheGeometry {
        self.geometry
    }

    /// The area this walk covers.
    pub closed spec fn area(self) -> ScrubArea {
        self.scrub_area
    }

    pub closed spec fn wf(self) -> bool {
        &&& self.geometry.wf()
        &&& self.geometry.valid_area(self.scrub_area)
        &&& self.index <= self.sets()
        &&& self.index < self.sets() ==> {
            &&& self.offset as int % self.sets() == 0
            &&& self.offset as int / self.sets() <= set_len(
                self.size(),
                self.sets(),
                self.index as int,
            )
        }
    }

    /// Line numbers, relative to the area's first line, still to visit.
    closed spec fn remaining_lines(self) -> Seq<int> {
        if self.index < self.sets() {
            set_lines(self.size(), self.sets(), self.index as int).skip(
                self.offset as int / self.sets(),
            ) + sets_from(self.size(), self.sets(), self.index + 1)
        } else {
            Seq::empty()
        }
    }
}

impl View for ScrubAreaIterator {
    /// The addresses still to visit, in order.
    type V = Seq<usize>;

    closed spec fn view(&self) -> Seq<usize> {
        self.remaining_lines().map_values(
            |k: int| line_address(self.geometry, self.scrub_area, k) as usize,
        )
    }
}

impl ScrubAreaIterator {
    /// A walk over all of `scrub_area`, from its start.
    pub fn new(geometry: &CacheGeometry, scrub_area: &ScrubArea) -> (r: ScrubAreaIterator)
        requires
            geometry.wf(),
            geometry.valid_area(*scrub_area),
        ensures
            r.wf(),
            r.geometry() == *geometry,
            r.area() == *scrub_area,
            r@ == area_order(*geometry, *scrub_area),
    {
        let r = ScrubAreaIterator {
            geometry: *geometry,
            scrub_area: *scrub_area,
            index: 0,
            offset: 0,
        };
        proof {
            lemma_pow2_pos(geometry.cache_index_width as nat);
            let n = r.size();
            let l = r.sets();
            lemma_set_len(n, l, 0, 0);
            assert(set_lines(n, l, 0).skip(0) == set_lines(n, l, 0));
            assert(r.remaining_lines() == line_order(n, l));
        }
        r
    }

    /// The next address to visit, or `None` once every line has been visited.
    pub fn next(&mut self) -> (r: Option<usize>)
        requires
            old(self).wf(),
        ensures
            final(self).wf(),
            final(self).geometry() == old(self).geometry(),
            final(self).area() == old(self).area(),
            old(self)@.len() == 0 ==> r is None && final(self)@ == old(self)@,
            old(self)@.len() > 0 ==> r == Some(old(self)@[0]) && final(self)@
                == old(self)@.drop_first(),
    {
        let ghost g = self.geometry;
        let ghost a = self.scrub_area;
        let ghost n = self.size();
        let ghost l = self.sets();
        let lines = self.geometry.cache_lines();
        let first = self.geometry.line_number(self.scrub_area.start);
        let end_line = self.geometry.line_number(self.scrub_area.end);
        proof {
            lemma_pow2_pos(g.cache_index_width as nat);
            lemma_pow2_pos(g.cacheline_width as nat);
        }
        if end_line < first {
            // The area's end lies below its start: it holds no line.
            proof {
                if self.index < l {
                    lemma_sets_past_end(n, l, self.index + 1);
                    assert(self.remaining_lines() =~= Seq::<int>::empty());
                }
            }
            return None;
        }
        proof {
            lemma_line_address(g, a, 0);
        }
        let last = end_line - first;
        loop
            invariant
                self.wf(),
                self.geometry == g,
                self.scrub_area == a,
                g == old(self).geometry,
                a == old(self).scrub_area,
                n == self.size(),
                l == self.sets(),
                lines == l,
                last == n - 1,
                self.remaining_lines() == old(self).remaining_lines(),
                self@ == old(self)@,
            decreases lines - self.index,
        {
            if self.index == lines {
                return None;
            }
            let ghost i = self.index as int;
            let ghost j = self.offset as int / l;
            proof {
                lemma_fundamental_div_mod(self.offset as int, l);
                assert(self.offset == j * l) by (nonlinear_arith)
                    requires
                        self.offset == l * j + self.offset as int % l,
                        self.offset as int % l == 0,
                ;
                lemma_set_len(n, l, i, j);
            }
            if self.index <= last && self.offset <= last - self.index {
                let line = self.index + self.offset;
                proof {
                    lemma_line_address(g, a, line as int);
                    lemma_usize_shl_is_mul(line, g.cacheline_width);
                    assert(self.remaining_lines()[0] == line);
                }
                let addr = self.scrub_area.start + (line << self.geometry.cacheline_width);
                let ghost before = self.remaining_lines();
                if self.offset <= usize::MAX - lines {
                    self.offset = self.offset + lines;
                    proof {
                        assert(self.offset == (j + 1) * l) by (nonlinear_arith)
                            requires
                                self.offset == j * l + l,
                        ;
                        lemma_line_set(l, 0, j + 1);
                        assert(self.remaining_lines() =~= before.drop_first());
                    }
                } else {
                    // The set's next line would lie beyond the last address,
                    // so beyond the area: this set is done.
                    self.index = self.index + 1;
                    self.offset = 0;
                    proof {
                        lemma_set_len(n, l, i, j + 1);
                        assert((j + 1) * l == j * l + l) by (nonlinear_arith);
                        if i + 1 < l {
                            lemma_set_len(n, l, i + 1, 0);
                            assert(set_lines(n, l, i + 1).skip(0) == set_lines(n, l, i + 1));
                        }
                        assert(self.remaining_lines() =~= before.drop_first());
                    }
                }
                proof {
                    assert(self@ =~= old(self)@.drop_first());
                }
                return Some(addr);
            }
            let ghost before = self.remaining_lines();
            if self.index > last {
                // No set from here on holds a line of the area.
                self.index = lines;
                self.offset = 0;
                proof {
                    lemma_sets_past_end(n, l, i + 1);
                    assert(self.remaining_lines() =~= before);
                }
                return None;
            }
            self.index = self.index + 1;
            self.offset = 0;
            proof {
                if i + 1 < l {
                    lemma_set_len(n, l, i + 1, 0);
                    assert(set_lines(n, l, i + 1).skip(0) == set_lines(n, l, i + 1));
                }
                assert(self.remaining_lines() =~= before);
            }
        }
    }
}

} // verus!
