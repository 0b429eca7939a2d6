//! The scrubber: touches a requested number of bytes' worth of cache lines,
//! carrying on where the previous request stopped and starting over at the
//! first area once the last has been covered.
use crate::geometry::{BaseCacheDesc, CacheGeometry, Error, ScrubArea};
use crate::multi_iter::{
    areas_valid, lemma_orders_from, scrub_order, total_lines, MemoryScrubberIterator,
};
use vstd::arithmetic::div_mod::*;
use vstd::arithmetic::power2::*;
use vstd::bits::*;
use vstd::prelude::*;

verus! {

/// `count` entries of the endless repetition of `order`, starting at entry
/// `pos`.
pub open spec fn cycle(order: Seq<usize>, pos: int, count: nat) -> Seq<usize> {
    Seq::new(count, |i: int| order[(pos + i) % order.len() as int])
}

/// A list of areas without an error holds only valid areas.
pub proof fn lemma_no_error_all_valid(g: CacheGeometry, areas: Seq<ScrubArea>, i: int)
    requires
        0 <= i <= areas.len(),
        g.first_error_from(areas, i) is None,
    ensures
        forall|j: int| i <= j < areas.len() ==> g.valid_area(#[trigger] areas[j]),
    decreases areas.len() - i,
{
    if i < areas.len() {
        lemma_no_error_all_valid(g, areas, i + 1);
    }
}

/// A scrubber over a list of areas of memory.
///
/// Each call of `scrub` touches the next lines of an endless repetition of
/// one full pass over the areas: every area in turn, each in
/// cache-index-major order.
pub struct MemoryScrubber<'a, T: BaseCacheDesc> {
    cache_desc: T,
    geometry: CacheGeometry,
    scrub_areas: &'a [ScrubArea],
    /// The pass under way; `None` when the next line is the first of a pass.
    iterator: Option<MemoryScrubberIterator<'a>>,
    /// Whether a pass visits any line at all.
    has_lines: bool,
    /// Every line address handed to `read_cacheline` so far, in order.
    touched: Ghost<Seq<usize>>,
}

impl<'a, T: BaseCacheDesc> MemoryScrubber<'a, T> {
    /// The shape of the cache, as read from the descriptor when the scrubber
    /// was built.
    pub closed spec fn geometry(self) -> CacheGeometry {
        self.geometry
    }

    /// The areas scrubbed.
    pub closed spec fn areas(self) -> Seq<ScrubArea> {
        self.scrub_areas@
    }

    /// The cache descriptor, as the calls so far have left it.
    pub closed spec fn descriptor(self) -> T {
        self.cache_desc
    }

    /// The line addresses handed to the descriptor's `read_cacheline` so
    /// far, in the order of the calls.
    pub closed spec fn touched(self) -> Seq<usize> {
        self.touched@
    }

    /// One full pass over the areas.
    pub open spec fn order(self) -> Seq<usize> {
        scrub_order(self.geometry(), self.areas())
    }

    /// The part of the current pass still to do.
    closed spec fn pending(self) -> Seq<usize> {
        match self.iterator {
            Some(it) => it@,
            None => self.order(),
        }
    }

    /// Where in the pass the next line to touch stands.
    pub closed spec fn pos(self) -> int {
        if self.order().len() == 0 {
            0
        } else {
            (self.order().len() - self.pending().len()) % self.order().len() as int
        }
    }

    /// The next `count` lines this scrubber will touch.
    pub open spec fn next_lines(self, count: nat) -> Seq<usize> {
        cycle(self.order(), self.pos(), count)
    }

    /// `after` is this scrubber once `scrub(n)` has succeeded: it has touched
    /// the next `n` bytes' worth of lines and stands that many lines further
    /// on in the pass. Lines can only be touched when a pass holds some.
    pub open spec fn scrub_done(self, n: nat, after: Self) -> bool {
        let count = n / self.geometry().line_size();
        &&& count > 0 ==> self.order().len() > 0
        &&& after.geometry() == self.geometry()
        &&& after.areas() == self.areas()
        &&& after.touched() == self.touched() + self.next_lines(count)
        &&& self.order().len() > 0 ==> after.pos() == (self.pos() + count)
            % self.order().len() as int
    }

    /// `r` is what building a scrubber over `areas` for a cache of shape `g`
    /// gives: the first error of the list, if it has one, and else a
    /// scrubber that has touched nothing and stands at the start of a pass.
    pub open spec fn built_with(g: CacheGeometry, areas: Seq<ScrubArea>, r: Result<Self, Error>) -> bool {
        &&& (r is Ok <==> g.areas_error(areas) is None)
        &&& r is Err ==> g.areas_error(areas) == Some(r->Err_0)
        &&& r matches Ok(s) ==> {
            &&& s.wf()
            &&& s.geometry() == g
            &&& s.areas() == areas
            &&& s.touched() == Seq::<usize>::empty()
            &&& s.pos() == 0
        }
    }

    pub closed spec fn wf(self) -> bool {
        &&& self.geometry.wf()
        &&& self.scrub_areas@.len() > 0
        &&& areas_valid(self.geometry, self.scrub_areas@)
        &&& self.has_lines == (self.order().len() > 0)
        &&& self.iterator matches Some(it) ==> {
            &&& it.wf()
            &&& it.geometry() == self.geometry
            &&& it.areas() == self.scrub_areas@
            &&& it@.len() <= self.order().len()
            &&& it@ == self.order().skip(self.order().len() - it@.len())
        }
    }

    /// A scrubber with a valid geometry and areas has a pass as long as the
    /// total of the areas' lines, which begins at the first area's start when
    /// that area holds a line, and stands inside it.
    pub proof fn lemma_wf(self)
        requires
            self.wf(),
        ensures
            self.geometry().wf(),
            self.areas().len() > 0,
            areas_valid(self.geometry(), self.areas()),
            self.order().len() == total_lines(self.geometry(), self.areas()),
            self.geometry().area_size(self.areas()[0]) > 0 ==> self.order().len() > 0
                && self.order()[0] == self.areas()[0].start,
            self.order().len() > 0 ==> 0 <= self.pos() < self.order().len(),
            self.order().len() == 0 ==> self.pos() == 0,
    {
        lemma_orders_from(self.geometry, self.scrub_areas@, 0);
        if self.order().len() > 0 {
            lemma_mod_bound(
                self.order().len() - self.pending().len(),
                self.order().len() as int,
            );
        }
    }

    /// Builds a scrubber over `scrub_areas` for the cache that `cache_desc`
    /// describes. Fails, touching nothing, on an empty list or on the first
    /// area, in list order, that is wrong. An area is checked first for a
    /// start equal to its end (`EmptyScrubArea`), then for its start, then
    /// for its end. An aligned area whose end lies below its start is
    /// accepted and holds no line.
    pub fn new(cache_desc: T, scrub_areas: &'a [ScrubArea]) -> (r: Result<
        MemoryScrubber<'a, T>,
        Error,
    >)
        ensures
            Self::built_with(CacheGeometry::spec_of(cache_desc), scrub_areas@, r),
            r matches Ok(s) ==> s.descriptor() == cache_desc,
    {
        if scrub_areas.len() == 0 {
            return Err(Error::NoScrubAreas);
        }
        let geometry = CacheGeometry::of(&cache_desc);
        match geometry.check_areas(scrub_areas) {
            Err(e) => {
                return Err(e);
            },
            Ok(()) => {},
        }
        proof {
            lemma_no_error_all_valid(geometry, scrub_areas@, 0);
        }
        let mut probe = MemoryScrubberIterator::new(&geometry, scrub_areas);
        let has_lines = probe.next().is_some();
        let s = MemoryScrubber {
            cache_desc,
            geometry,
            scrub_areas,
            iterator: None,
            has_lines,
            touched: Ghost(Seq::empty()),
        };
        proof {
            s.lemma_wf();
            if s.order().len() > 0 {
                lemma_small_mod(0, s.order().len());
            }
        }
        Ok(s)
    }

    /// The next line of the endless repetition of passes; starts a new pass
    /// when the current one is done.
    fn next_line(&mut self) -> (addr: usize)
        requires
            old(self).wf(),
            old(self).order().len() > 0,
        ensures
            final(self).wf(),
            final(self).geometry() == old(self).geometry(),
            final(self).areas() == old(self).areas(),
            final(self).touched() == old(self).touched(),
            final(self).cache_desc == old(self).cache_desc,
            addr == old(self).order()[old(self).pos()],
            final(self).pos() == (old(self).pos() + 1) % old(self).order().len() as int,
    {
        proof {
            self.lemma_wf();
        }
        let ghost total = self.order().len() as int;
        let ghost old_left = self.pending().len() as int;
        proof {
            lemma_mod_self_0(total);
            if old_left > 0 {
                lemma_small_mod((total - old_left) as nat, total as nat);
            }
        }
        let mut it = match self.iterator.take() {
            Some(it) => it,
            None => MemoryScrubberIterator::new(&self.geometry, self.scrub_areas),
        };
        let mut p = it.next();
        if p.is_none() {
            it = MemoryScrubberIterator::new(&self.geometry, self.scrub_areas);
            p = it.next();
        }
        let ghost left = it@.len() as int;
        self.iterator = Some(it);
        proof {
            assert(it@ =~= self.order().skip(total - left));
        }
        p.unwrap()
    }

    /// Touches the next `n` bytes' worth of cache lines, one
    /// `read_cacheline` call per line, carrying on where the previous call
    /// stopped and starting over at the first area after the last.
    ///
    /// Fails, touching nothing, when `n` is not a whole number of cache
    /// lines, and when it asks for lines but no area holds one.
    pub fn scrub(&mut self, n: usize) -> (r: Result<(), Error>)
        requires
            old(self).wf(),
        ensures
            final(self).wf(),
            n as nat % old(self).geometry().line_size() != 0 ==> r == Err::<(), Error>(
                Error::UnalignedSize,
            ) && *final(self) == *old(self),
            n as nat % old(self).geometry().line_size() == 0 && n as nat / old(
                self,
            ).geometry().line_size() > 0 && old(self).order().len() == 0 ==> r == Err::<
                (),
                Error,
            >(Error::IteratorFailed) && *final(self) == *old(self),
            n as nat % old(self).geometry().line_size() == 0 && (n as nat / old(
                self,
            ).geometry().line_size() == 0 || old(self).order().len() > 0) ==> r == Ok::<
                (),
                Error,
            >(()) && old(self).scrub_done(n as nat, *final(self)),
    {
        proof {
            self.lemma_wf();
            lemma_pow2_pos(self.geometry.cacheline_width as nat);
        }
        let size = self.geometry.cacheline_size();
        let mask = size - 1;
        proof {
            assert(mask == low_bits_mask(self.geometry.cacheline_width as nat));
            lemma_usize_low_bits_mask_is_mod(n, self.geometry.cacheline_width as nat);
        }
        if n & mask != 0 {
            return Err(Error::UnalignedSize);
        }
        let count = n >> self.geometry.cacheline_width;
        proof {
            lemma_usize_shr_is_div(n, self.geometry.cacheline_width);
        }
        if count > 0 && !self.has_lines {
            return Err(Error::IteratorFailed);
        }
        let ghost total = self.order().len() as int;
        proof {
            if total > 0 {
                lemma_small_mod(self.pos() as nat, total as nat);
            }
        }
        let mut done: usize = 0;
        while done < count
            invariant
                self.wf(),
                done <= count,
                count == n as nat / old(self).geometry().line_size(),
                self.geometry == old(self).geometry,
                self.scrub_areas@ == old(self).scrub_areas@,
                total == self.order().len(),
                count > 0 ==> total > 0,
                self.touched() == old(self).touched() + old(self).next_lines(done as nat),
                total > 0 ==> self.pos() == (old(self).pos() + done) % total,
            decreases count - done,
        {
            let ghost at = self.pos();
            let addr = self.next_line();
            self.cache_desc.read_cacheline(addr);
            self.touched = Ghost(self.touched@.push(addr));
            proof {
                self.lemma_wf();
                lemma_add_mod_noop_right(1, old(self).pos() + done, total);
                assert(self.touched() =~= old(self).touched() + old(self).next_lines(
                    (done + 1) as nat,
                ));
            }
            done = done + 1;
        }
        Ok(())
    }

    /// The cache descriptor, as the calls so far have left it.
    pub fn cache_desc(&self) -> (r: &T)
        ensures
            *r == self.descriptor(),
    {
        &self.cache_desc
    }

    /// Scrubbing `n1` bytes and then `n2` more touches the same lines, in the
    /// same order, and leaves the scrubber at the same place in the pass as
    /// scrubbing `n1 + n2` bytes in one call.
    pub proof fn lemma_scrub_resumes(s0: Self, s1: Self, s2: Self, t: Self, n1: nat, n2: nat)
        requires
            s0.wf(),
            n1 % s0.geometry().line_size() == 0,
            n2 % s0.geometry().line_size() == 0,
            s0.scrub_done(n1, s1),
            s1.scrub_done(n2, s2),
            s0.scrub_done(n1 + n2, t),
        ensures
            s2.touched() == t.touched(),
            s2.pos() == t.pos(),
    {
        s0.lemma_wf();
        let size = s0.geometry().line_size() as int;
        let o = s0.order();
        let total = o.len() as int;
        let p = s0.pos();
        lemma_pow2_pos(s0.geometry().cacheline_width as nat);
        let c1 = n1 as int / size;
        let c2 = n2 as int / size;
        lemma_fundamental_div_mod(n1 as int, size);
        lemma_fundamental_div_mod(n2 as int, size);
        assert(n1 + n2 == size * (c1 + c2)) by (nonlinear_arith)
            requires
                n1 == size * c1,
                n2 == size * c2,
        ;
        assert((n1 + n2) as int / size == c1 + c2) by {
            lemma_div_multiples_vanish(c1 + c2, size);
        }
        assert(s1.order() == o);
        if total == 0 {
            assert(c1 == 0 && c2 == 0);
            assert(s2.touched() =~= t.touched());
            return;
        }
        assert(s2.touched() == s0.touched() + cycle(o, p, c1 as nat) + cycle(
            o,
            (p + c1) % total,
            c2 as nat,
        ));
        lemma_add_mod_noop_right(c2, p + c1, total);
        assert forall|i: int| 0 <= i < c2 implies #[trigger] cycle(o, (p + c1) % total, c2 as nat)[i]
            == cycle(o, p, (c1 + c2) as nat)[c1 + i] by {
            lemma_add_mod_noop_right(i, p + c1, total);
        }
        assert(s2.touched() =~= t.touched());
    }

    /// From the start of a pass, once as many lines as all the areas hold
    /// have been touched, the next line touched is the first line of the
    /// pass: the start of the first area, when that area holds a line.
    pub proof fn lemma_scrub_wraps(s0: Self, s1: Self, n: nat)
        requires
            s0.wf(),
            s0.pos() == 0,
            n == (total_lines(s0.geometry(), s0.areas()) + 1) * s0.geometry().line_size(),
            s0.scrub_done(n, s1),
        ensures
            s1.touched().len() == s0.touched().len() + total_lines(s0.geometry(), s0.areas()) + 1,
            s1.touched()[s0.touched().len() + total_lines(s0.geometry(), s0.areas())]
                == s0.order()[0],
            s0.geometry().area_size(s0.areas()[0]) > 0 ==> s1.touched()[s0.touched().len()
                + total_lines(s0.geometry(), s0.areas())] == s0.areas()[0].start,
    {
        s0.lemma_wf();
        let size = s0.geometry().line_size() as int;
        let total = total_lines(s0.geometry(), s0.areas());
        lemma_pow2_pos(s0.geometry().cacheline_width as nat);
        assert(n as int / size == total + 1) by {
            assert(n == size * (total + 1)) by (nonlinear_arith)
                requires
                    n == (total + 1) * size,
            ;
            lemma_div_multiples_vanish(total + 1, size);
        }
        lemma_mod_self_0(total);
        assert(s0.next_lines((total + 1) as nat)[total] == s0.order()[0]);
    }

    /// From the start of a pass, scrubbing whole passes, that is a multiple
    /// of all the areas' lines, leaves the scrubber at the start of a pass
    /// again. With `lemma_scrub_wraps` this gives the wrap after any history
    /// of whole passes.
    pub proof fn lemma_whole_passes(s0: Self, s1: Self, n: nat, passes: nat)
        requires
            s0.wf(),
            s0.pos() == 0,
            n == passes * total_lines(s0.geometry(), s0.areas()) * s0.geometry().line_size(),
            s0.scrub_done(n, s1),
        ensures
            s1.pos() == 0,
    {
        s0.lemma_wf();
        let size = s0.geometry().line_size() as int;
        let total = total_lines(s0.geometry(), s0.areas());
        lemma_pow2_pos(s0.geometry().cacheline_width as nat);
        assert(n as int / size == passes * total) by {
            assert(n == size * (passes * total)) by (nonlinear_arith)
                requires
                    n == passes * total * size,
            ;
            lemma_div_multiples_vanish(passes * total, size);
        }
        if total > 0 {
            lemma_mod_multiples_basic(passes as int, total);
        } else {
            assert(s1.order().len() == 0);
        }
    }
}

} // verus!
