use vstd::arithmetic::power2::*;
use vstd::bits::*;
use vstd::prelude::*;

verus! {

/// A contiguous range of memory to scrub, as byte addresses.
///
/// `start` is the first byte of the area and must begin a cache line; `end`
/// is the last byte of the area and must end one.
#[derive(Clone, Copy, Debug, PartialEq, Eq, Structural)]
pub struct ScrubArea {
    pub start: usize,
    pub end: usize,
}

/// What can go wrong when building a scrubber or asking it to scrub.
#[derive(Clone, Copy, Debug, PartialEq, Eq, Structural)]
pub enum Error {
    /// An area's start address is not on a cache line boundary.
    UnalignedStart,
    /// An area's end address is not the last byte of a cache line.
    UnalignedEnd,
    /// A byte count is not a whole number of cache lines.
    UnalignedSize,
    /// The list of areas is empty.
    NoScrubAreas,
    /// An area's start and end are the same address.
    EmptyScrubArea,
    /// An internal invariant was found broken at run time.
    IteratorFailed,
}

/// The cache a scrubber works for, and the one operation that touches memory.
///
/// An implementation reports the shape of the cache and reads whole cache
/// lines on request. `line_width` and `index_width` name the two widths in
/// contracts; in an implementation outside Verus they are plain methods that
/// return what `cacheline_width` and `cache_index_width` return.
pub trait BaseCacheDesc {
    /// The width, in bits, of a byte offset within a cache line.
    spec fn line_width(&self) -> usize;

    /// The width, in bits, of a set index.
    spec fn index_width(&self) -> usize;

    /// Number of low address bits that select a byte within a cache line
    /// (4 for a 16-byte line).
    fn cacheline_width(&self) -> (r: usize)
        ensures
            r == self.line_width(),
            r < usize::BITS,
    ;

    /// Number of address bits that select a set in the cache (10 for a
    /// cache with 1024 sets).
    fn cache_index_width(&self) -> (r: usize)
        ensures
            r == self.index_width(),
            r < usize::BITS,
    ;

    /// Read every byte of the cache line that starts at `cacheline_addr`, so
    /// that the error-correcting hardware checks and repairs it.
    fn read_cacheline(&mut self, cacheline_addr: usize);
}

/// The shape of a cache: the width in bits of a byte offset within a line,
/// and of a set index.
#[derive(Clone, Copy, Debug, PartialEq, Eq, Structural)]
pub struct CacheGeometry {
    pub cacheline_width: usize,
    pub cache_index_width: usize,
}

impl CacheGeometry {
    /// Both widths leave room for a shift of a machine word.
    pub open spec fn wf(self) -> bool {
        &&& self.cacheline_width < usize::BITS
        &&& self.cache_index_width < usize::BITS
    }

    /// Bytes in a cache line.
    pub open spec fn line_size(self) -> nat {
        pow2(self.cacheline_width as nat)
    }

    /// Sets in the cache.
    pub open spec fn lines(self) -> nat {
        pow2(self.cache_index_width as nat)
    }

    /// The number of the cache line that holds byte `addr`.
    pub open spec fn line_of(self, addr: usize) -> nat {
        addr as nat / self.line_size()
    }

    /// The cache set that byte `addr` maps to.
    pub open spec fn index_of(self, addr: usize) -> nat {
        self.line_of(addr) % self.lines()
    }

    /// Lines in an area, counting the one that holds `start` and the one
    /// that holds `end`; none when `end` lies in a line below `start`'s.
    pub open spec fn area_size(self, a: ScrubArea) -> nat {
        if self.line_of(a.start) <= self.line_of(a.end) {
            (self.line_of(a.end) - self.line_of(a.start) + 1) as nat
        } else {
            0
        }
    }

    /// The first thing wrong with an area, if anything is.
    pub open spec fn area_error(self, a: ScrubArea) -> Option<Error> {
        if a.end == a.start {
            Some(Error::EmptyScrubArea)
        } else if a.start as nat % self.line_size() != 0 {
            Some(Error::UnalignedStart)
        } else if a.end as nat % self.line_size() != self.line_size() - 1 {
            Some(Error::UnalignedEnd)
        } else {
            None
        }
    }

    /// An area that starts and ends on line boundaries, at two different
    /// addresses. One whose end lies below its start holds no line.
    pub open spec fn valid_area(self, a: ScrubArea) -> bool {
        self.area_error(a) is None
    }

    /// The first error among `areas[i..]`, in the order given.
    pub open spec fn first_error_from(self, areas: Seq<ScrubArea>, i: int) -> Option<Error>
        decreases areas.len() - i,
    {
        if i < 0 || i >= areas.len() {
            None
        } else if self.area_error(areas[i]) is Some {
            self.area_error(areas[i])
        } else {
            self.first_error_from(areas, i + 1)
        }
    }

    /// The first thing wrong with a list of areas, if anything is: an empty
    /// list, else the first error of the first area that has one.
    pub open spec fn areas_error(self, areas: Seq<ScrubArea>) -> Option<Error> {
        if areas.len() == 0 {
            Some(Error::NoScrubAreas)
        } else {
            self.first_error_from(areas, 0)
        }
    }

    /// The shape of the cache that `desc` describes.
    pub open spec fn spec_of<T: BaseCacheDesc>(desc: T) -> CacheGeometry {
        CacheGeometry { cacheline_width: desc.line_width(), cache_index_width: desc.index_width() }
    }

    /// Reads the shape of the cache that `desc` describes.
    pub fn of<T: BaseCacheDesc>(desc: &T) -> (g: CacheGeometry)
        ensures
            g.wf(),
            g == Self::spec_of(*desc),
    {
        CacheGeometry {
            cacheline_width: desc.cacheline_width(),
            cache_index_width: desc.cache_index_width(),
        }
    }

    /// Bytes in a cache line.
    pub fn cacheline_size(&self) -> (r: usize)
        requires
            self.wf(),
        ensures
            r == self.line_size(),
    {
        proof {
            lemma_usize_pow2_no_overflow(self.cacheline_width as nat);
            lemma_usize_shl_is_mul(1, self.cacheline_width);
        }
        1usize << self.cacheline_width
    }

    /// Sets in the cache.
    pub fn cache_lines(&self) -> (r: usize)
        requires
            self.wf(),
        ensures
            r == self.lines(),
    {
        proof {
            lemma_usize_pow2_no_overflow(self.cache_index_width as nat);
            lemma_usize_shl_is_mul(1, self.cache_index_width);
        }
        1usize << self.cache_index_width
    }

    /// The number of the cache line that holds byte `addr`.
    pub fn line_number(&self, addr: usize) -> (r: usize)
        requires
            self.wf(),
        ensures
            r == self.line_of(addr),
    {
        proof {
            lemma_usize_shr_is_div(addr, self.cacheline_width);
        }
        addr >> self.cacheline_width
    }

    /// The cache set that byte `addr` maps to.
    pub fn cache_index(&self, addr: usize) -> (r: usize)
        requires
            self.wf(),
        ensures
            r == self.index_of(addr),
    {
        let line = self.line_number(addr);
        let lines = self.cache_lines();
        proof {
            lemma_pow2_pos(self.cache_index_width as nat);
            lemma_usize_low_bits_mask_is_mod(line, self.cache_index_width as nat);
        }
        line & (lines - 1)
    }

    /// Lines from the one that holds `a.start` to the one that holds
    /// `a.end`, both counted.
    pub fn size_in_cachelines(&self, a: &ScrubArea) -> (r: usize)
        requires
            self.wf(),
            self.line_of(a.start) <= self.line_of(a.end),
            self.area_size(*a) <= usize::MAX,
        ensures
            r == self.area_size(*a),
    {
        let first = self.line_number(a.start);
        let last = self.line_number(a.end);
        last - first + 1
    }

    /// The first thing wrong with an area, if anything is.
    pub fn check_area(&self, a: &ScrubArea) -> (r: Result<(), Error>)
        requires
            self.wf(),
        ensures
            r is Ok <==> self.area_error(*a) is None,
            r is Err ==> self.area_error(*a) == Some(r->Err_0),
    {
        if a.end == a.start {
            return Err(Error::EmptyScrubArea);
        }
        let size = self.cacheline_size();
        proof {
            lemma_pow2_pos(self.cacheline_width as nat);
        }
        let mask = size - 1;
        proof {
            assert(mask == low_bits_mask(self.cacheline_width as nat));
            lemma_usize_low_bits_mask_is_mod(a.start, self.cacheline_width as nat);
            lemma_usize_low_bits_mask_is_mod(a.end, self.cacheline_width as nat);
        }
        if a.start & mask != 0 {
            return Err(Error::UnalignedStart);
        }
        if a.end & mask != mask {
            return Err(Error::UnalignedEnd);
        }
        Ok(())
    }

    /// The first thing wrong with a list of areas, if anything is.
    pub fn check_areas(&self, areas: &[ScrubArea]) -> (r: Result<(), Error>)
        requires
            self.wf(),
        ensures
            r is Ok <==> self.areas_error(areas@) is None,
            r is Err ==> self.areas_error(areas@) == Some(r->Err_0),
    {
        if areas.len() == 0 {
            return Err(Error::NoScrubAreas);
        }
        let mut i: usize = 0;
        while i < areas.len()
            invariant
                self.wf(),
                0 < areas@.len(),
                i <= areas@.len(),
                self.first_error_from(areas@, 0) == self.first_error_from(areas@, i as int),
            decreases areas@.len() - i,
        {
            match self.check_area(&areas[i]) {
                Err(e) => {
                    return Err(e);
                },
                Ok(()) => {},
            }
            i = i + 1;
        }
        Ok(())
    }
}

} // verus!
