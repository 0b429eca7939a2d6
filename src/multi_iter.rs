//! Walking the lines of a list of areas: each area in cache-index-major
//! order, one area after the other.
use crate::area_iter::{area_order, lemma_area_order_covers, ScrubAreaIterator};
use crate::geometry::{CacheGeometry, ScrubArea};
use crate::order::{lemma_order_in_set, set_start};
use vstd::arithmetic::power2::lemma_pow2_pos;
use vstd::prelude::*;

verus! {

/// Every area of the list is valid for the cache.
pub open spec fn areas_valid(g: CacheGeometry, areas: Seq<ScrubArea>) -> bool {
    forall|i: int| 0 <= i < areas.len() ==> g.valid_area(#[trigger] areas[i])
}

/// The addresses of the lines of `areas[i..]`, area after area.
pub open spec fn orders_from(g: CacheGeometry, areas: Seq<ScrubArea>, i: int) -> Seq<usize>
    decreases areas.len() - i,
{
    if i < 0 || i >= areas.len() {
        Seq::empty()
    } else {
        area_order(g, areas[i]) + orders_from(g, areas, i + 1)
    }
}

/// The addresses of the lines of all areas, in the order a full pass visits
/// them.
pub open spec fn scrub_order(g: CacheGeometry, areas: Seq<ScrubArea>) -> Seq<usize> {
    orders_from(g, areas, 0)
}

/// The lines of `areas[i..]`, summed area by area.
pub open spec fn lines_from(g: CacheGeometry, areas: Seq<ScrubArea>, i: int) -> int
    decreases areas.len() - i,
{
    if i < 0 || i >= areas.len() {
        0
    } else {
        g.area_size(areas[i]) + lines_from(g, areas, i + 1)
    }
}

/// The lines of all areas, summed.
pub open spec fn total_lines(g: CacheGeometry, areas: Seq<ScrubArea>) -> int {
    lines_from(g, areas, 0)
}

/// A pass over `areas[i..]` visits as many lines as those areas hold; when
/// area `i` holds a line, the pass begins at that area's start.
pub proof fn lemma_orders_from(g: CacheGeometry, areas: Seq<ScrubArea>, i: int)
    requires
        g.wf(),
        areas_valid(g, areas),
        0 <= i <= areas.len(),
    ensures
        orders_from(g, areas, i).len() == lines_from(g, areas, i),
        i < areas.len() && g.area_size(areas[i]) > 0 ==> orders_from(g, areas, i).len() > 0
            && orders_from(g, areas, i)[0] == areas[i].start,
    decreases areas.len() - i,
{
    if i < areas.len() {
        lemma_orders_from(g, areas, i + 1);
        lemma_area_order_covers(g, areas[i]);
        if g.area_size(areas[i]) > 0 {
            lemma_area_order_starts(g, areas[i]);
        }
    }
}

/// A pass over a valid area that holds a line begins at the area's start.
pub proof fn lemma_area_order_starts(g: CacheGeometry, a: ScrubArea)
    requires
        g.wf(),
        g.valid_area(a),
        g.area_size(a) > 0,
    ensures
        area_order(g, a).len() > 0,
        area_order(g, a)[0] == a.start,
{
    lemma_area_order_covers(g, a);
    lemma_pow2_pos(g.cacheline_width as nat);
    lemma_pow2_pos(g.cache_index_width as nat);
    let n = g.area_size(a) as int;
    let l = g.lines() as int;
    lemma_order_in_set(n, l, 0, 0);
    assert(set_start(n, l, 0) == 0);
    assert(0 * l == 0);
}

/// A walk over the lines of a list of areas: all of the first area in
/// cache-index-major order, then all of the second, and so on.
pub struct MemoryScrubberIterator<'a> {
    geometry: CacheGeometry,
    scrub_areas: &'a [ScrubArea],
    /// The walk over the current area, once it has begun.
    iterator: Option<ScrubAreaIterator>,
    /// The current area.
    index: usize,
}

impl<'a> MemoryScrubberIterator<'a> {
    /// The shape of the cache this walk follows.
    pub closed spec fn geometry(self) -> CacheGeometry {
        self.geometry
    }

    /// The areas this walk covers.
    pub closed spec fn areas(self) -> Seq<ScrubArea> {
        self.scrub_areas@
    }

    pub closed spec fn wf(self) -> bool {
        &&& self.geometry.wf()
        &&& areas_valid(self.geometry, self.scrub_areas@)
        &&& self.index <= self.scrub_areas@.len()
        &&& self.index == self.scrub_areas@.len() ==> self.iterator is None
        &&& self.iterator matches Some(it) ==> it.wf() && it.geometry() == self.geometry
    }
}

impl<'a> View for MemoryScrubberIterator<'a> {
    /// The addresses still to visit, in order.
    type V = Seq<usize>;

    closed spec fn view(&self) -> Seq<usize> {
        match self.iterator {
            Some(it) => it@ + orders_from(self.geometry, self.scrub_areas@, self.index + 1),
            None => orders_from(self.geometry, self.scrub_areas@, self.index as int),
        }
    }
}

impl<'a> MemoryScrubberIterator<'a> {
    /// A walk over all of `scrub_areas`, from the start of the first.
    pub fn new(geometry: &CacheGeometry, scrub_areas: &'a [ScrubArea]) -> (r:
        MemoryScrubberIterator<'a>)
        requires
            geometry.wf(),
            areas_valid(*geometry, scrub_areas@),
        ensures
            r.wf(),
            r.geometry() == *geometry,
            r.areas() == scrub_areas@,
            r@ == scrub_order(*geometry, scrub_areas@),
    {
        MemoryScrubberIterator {
            geometry: *geometry,
            scrub_areas: scrub_areas,
            iterator: None,
            index: 0,
        }
    }

    /// The next address to visit, or `None` once every line of every area has
    /// been visited.
    pub fn next(&mut self) -> (r: Option<usize>)
        requires
            old(self).wf(),
        ensures
            final(self).wf(),
            final(self).geometry() == old(self).geometry(),
            final(self).areas() == old(self).areas(),
            old(self)@.len() == 0 ==> r is None && final(self)@ == old(self)@,
            old(self)@.len() > 0 ==> r == Some(old(self)@[0]) && final(self)@
                == old(self)@.drop_first(),
    {
        loop
            invariant
                self.wf(),
                self.geometry == old(self).geometry,
                self.scrub_areas@ == old(self).scrub_areas@,
                self@ == old(self)@,
            decreases self.scrub_areas@.len() - self.index,
        {
            if self.index == self.scrub_areas.len() {
                return None;
            }
            let mut it = match self.iterator.take() {
                Some(it) => it,
                None => ScrubAreaIterator::new(&self.geometry, &self.scrub_areas[self.index]),
            };
            let ghost before = it@;
            match it.next() {
                Some(p) => {
                    self.iterator = Some(it);
                    proof {
                        assert(self@ =~= old(self)@.drop_first());
                    }
                    return Some(p);
                },
                None => {
                    self.index = self.index + 1;
                    proof {
                        assert(before.len() == 0);
                        assert(self@ =~= old(self)@);
                    }
                },
            }
        }
    }
}

} // verus!
