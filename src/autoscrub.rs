//! Scrubbing under a policy that says how much to do at each step.
use crate::geometry::{BaseCacheDesc, CacheGeometry, Error, ScrubArea};
use crate::scrubber::MemoryScrubber;
use vstd::arithmetic::div_mod::lemma_fundamental_div_mod;
use vstd::arithmetic::power2::lemma_pow2_pos;
use vstd::prelude::*;

verus! {

/// A scrubbing policy: how many bytes to scrub at each step.
pub trait BaseAutoScrubDesc {
    /// The number of bytes to scrub next; 0 ends the run.
    fn next(&mut self) -> usize;
}

/// A scrubber driven by a policy, one step at a time: each step asks the
/// policy for a byte count and scrubs that much, until the policy answers 0.
pub struct BaseAutoScrub<'a, T: BaseCacheDesc, D: BaseAutoScrubDesc> {
    scrubber: MemoryScrubber<'a, T>,
    desc: D,
    /// Every byte count the policy has answered, in order.
    requests: Ghost<Seq<usize>>,
}

/// The scrubber inside a built driver, or the error that building it gave.
pub open spec fn inner_result<'a, T: BaseCacheDesc, D: BaseAutoScrubDesc>(
    r: Result<BaseAutoScrub<'a, T, D>, Error>,
) -> Result<MemoryScrubber<'a, T>, Error> {
    match r {
        Ok(a) => Ok(a.memory_scrubber()),
        Err(e) => Err(e),
    }
}

impl<'a, T: BaseCacheDesc, D: BaseAutoScrubDesc> BaseAutoScrub<'a, T, D> {
    /// The scrubber this driver runs.
    pub closed spec fn memory_scrubber(self) -> MemoryScrubber<'a, T> {
        self.scrubber
    }

    /// The policy, as the calls so far have left it.
    pub closed spec fn policy(self) -> D {
        self.desc
    }

    /// Every byte count the policy has answered so far, in order.
    pub closed spec fn requests(self) -> Seq<usize> {
        self.requests@
    }

    pub closed spec fn wf(self) -> bool {
        self.scrubber.wf()
    }

    /// `r` and `after` are what a step gives when the policy answers `n`:
    /// the run ends on 0; a count that is not a whole number of cache lines
    /// fails and scrubs nothing, as does any count when no area holds a
    /// line; any other count is scrubbed.
    pub open spec fn step_done(self, n: usize, r: Result<bool, Error>, after: Self) -> bool {
        let s = self.memory_scrubber();
        &&& after.wf()
        &&& n == 0 ==> r == Ok::<bool, Error>(true) && after.memory_scrubber() == s
        &&& n != 0 && n as nat % s.geometry().line_size() != 0 ==> r == Err::<bool, Error>(
            Error::UnalignedSize,
        ) && after.memory_scrubber() == s
        &&& n != 0 && n as nat % s.geometry().line_size() == 0 && s.order().len() == 0 ==> r
            == Err::<bool, Error>(Error::IteratorFailed) && after.memory_scrubber() == s
        &&& n != 0 && n as nat % s.geometry().line_size() == 0 && s.order().len() > 0 ==> r
            == Ok::<bool, Error>(false) && s.scrub_done(n as nat, after.memory_scrubber())
    }

    /// Builds a driver that runs a scrubber over `scrub_areas` for the cache
    /// that `cache_desc` describes, under the policy `desc`. Fails as
    /// `MemoryScrubber::new` does.
    pub fn new(cache_desc: T, scrub_areas: &'a [ScrubArea], desc: D) -> (r: Result<Self, Error>)
        ensures
            MemoryScrubber::built_with(
                CacheGeometry::spec_of(cache_desc),
                scrub_areas@,
                inner_result(r),
            ),
            r matches Ok(a) ==> {
                &&& a.wf()
                &&& a.memory_scrubber().descriptor() == cache_desc
                &&& a.policy() == desc
                &&& a.requests() == Seq::<usize>::empty()
            },
    {
        match MemoryScrubber::new(cache_desc, scrub_areas) {
            Ok(scrubber) => Ok(BaseAutoScrub { scrubber, desc, requests: Ghost(Seq::empty()) }),
            Err(e) => Err(e),
        }
    }

    /// Acts on the policy's answer `n`: returns `Ok(true)` when `n` is 0,
    /// which ends the run, `Ok(false)` after scrubbing `n` bytes, and the
    /// scrub's error when it fails.
    pub fn scrub_step(&mut self, n: usize) -> (r: Result<bool, Error>)
        requires
            old(self).wf(),
        ensures
            old(self).step_done(n, r, *final(self)),
            final(self).policy() == old(self).policy(),
            final(self).requests() == old(self).requests(),
    {
        if n == 0 {
            return Ok(true);
        }
        proof {
            let size = self.scrubber.geometry().line_size() as int;
            lemma_pow2_pos(self.scrubber.geometry().cacheline_width as nat);
            lemma_fundamental_div_mod(n as int, size);
            let q = n as int / size;
            if n as int % size == 0 {
                assert(q > 0) by (nonlinear_arith)
                    requires
                        n == size * q + n as int % size,
                        n as int % size == 0,
                        n > 0,
                        size > 0,
                ;
            }
        }
        match self.scrubber.scrub(n) {
            Ok(()) => Ok(false),
            Err(e) => Err(e),
        }
    }

    /// Runs one step: asks the policy for a byte count and acts on it as
    /// `scrub_step` does. The count is recorded in `requests`.
    pub fn autoscrub_step(&mut self) -> (r: Result<bool, Error>)
        requires
            old(self).wf(),
        ensures
            final(self).requests().drop_last() == old(self).requests(),
            final(self).requests().len() == old(self).requests().len() + 1,
            old(self).step_done(final(self).requests().last(), r, *final(self)),
    {
        let n = self.desc.next();
        self.requests = Ghost(self.requests@.push(n));
        proof {
            assert(self.requests@.drop_last() =~= old(self).requests@);
        }
        self.scrub_step(n)
    }

    /// The scrubber this driver runs.
    pub fn scrubber(&self) -> (r: &MemoryScrubber<'a, T>)
        ensures
            *r == self.memory_scrubber(),
    {
        &self.scrubber
    }
}

} // verus!
