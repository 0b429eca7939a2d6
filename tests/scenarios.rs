use memscrub::{
    BaseAutoScrub, BaseAutoScrubDesc, BaseCacheDesc, CacheGeometry, Error, MemoryScrubber, MemoryScrubberIterator, ScrubArea,
    ScrubAreaIterator,
};

// A small cache: 16-byte lines, 4 sets.
const WIDTH: usize = 4;
const INDEX_WIDTH: usize = 2;
const LINE: usize = 16;

const GEOMETRY: CacheGeometry = CacheGeometry { cacheline_width: WIDTH, cache_index_width: INDEX_WIDTH };

// Records every line address it is asked to read.
#[derive(Debug, Default)]
struct Recorder {
    touched: Vec<usize>,
}

impl BaseCacheDesc for Recorder {
    fn line_width(&self) -> usize {
        WIDTH
    }

    fn index_width(&self) -> usize {
        INDEX_WIDTH
    }

    fn cacheline_width(&self) -> usize {
        WIDTH
    }

    fn cache_index_width(&self) -> usize {
        INDEX_WIDTH
    }

    fn read_cacheline(&mut self, cacheline_addr: usize) {
        self.touched.push(cacheline_addr);
    }
}

fn area(base: usize, lines: usize) -> ScrubArea {
    ScrubArea { start: base, end: base + lines * LINE - 1 }
}

fn addresses(base: usize, ks: &[usize]) -> Vec<usize> {
    ks.iter().map(|k| base + k * LINE).collect()
}

// Scrubs each byte count in turn on a fresh scrubber and returns the lines
// touched.
fn scrub_in_steps(areas: &[ScrubArea], steps: &[usize]) -> Vec<usize> {
    let mut scrubber = MemoryScrubber::new(Recorder::default(), areas).unwrap();
    for n in steps {
        scrubber.scrub(*n).unwrap();
    }
    scrubber.cache_desc().touched.clone()
}

fn walk_area(a: &ScrubArea) -> Vec<usize> {
    let mut it = ScrubAreaIterator::new(&GEOMETRY, a);
    let mut out = vec![];
    while let Some(p) = it.next() {
        out.push(p);
    }
    assert_eq!(it.next(), None);
    out
}

#[test]
fn eight_lines_follow_the_sets() {
    let a = area(0x1000, 8);
    let expected = addresses(0x1000, &[0, 4, 1, 5, 2, 6, 3, 7]);
    assert_eq!(scrub_in_steps(&[a], &[8 * LINE]), expected);
    assert_eq!(walk_area(&a), expected);
}

#[test]
fn two_lines_leave_sets_empty() {
    let a = area(0x1000, 2);
    let expected = addresses(0x1000, &[0, 1]);
    assert_eq!(scrub_in_steps(&[a], &[2 * LINE]), expected);
    assert_eq!(walk_area(&a), expected);
}

#[test]
fn six_lines_give_uneven_sets() {
    let a = area(0x1000, 6);
    let expected = addresses(0x1000, &[0, 4, 1, 5, 2, 3]);
    assert_eq!(scrub_in_steps(&[a], &[6 * LINE]), expected);
    assert_eq!(walk_area(&a), expected);
}

#[test]
fn two_areas_one_after_the_other() {
    let areas = [area(0x1000, 4), area(0x2000, 4)];
    let mut expected = addresses(0x1000, &[0, 1, 2, 3]);
    expected.extend(addresses(0x2000, &[0, 1, 2, 3]));
    assert_eq!(scrub_in_steps(&areas, &[8 * LINE]), expected);

    let mut it = MemoryScrubberIterator::new(&GEOMETRY, &areas);
    let mut walked = vec![];
    while let Some(p) = it.next() {
        walked.push(p);
    }
    assert_eq!(walked, expected);
    assert_eq!(it.next(), None);
}

#[test]
fn split_scrub_resumes() {
    let a = area(0x1000, 8);
    let expected = addresses(0x1000, &[0, 4, 1, 5, 2, 6, 3, 7]);
    assert_eq!(scrub_in_steps(&[a], &[3 * LINE, 5 * LINE]), expected);
    assert_eq!(scrub_in_steps(&[a], &[3 * LINE, 5 * LINE]), scrub_in_steps(&[a], &[8 * LINE]));
    assert_eq!(
        scrub_in_steps(&[a], &[0, LINE, 6 * LINE, 0, 4 * LINE]),
        scrub_in_steps(&[a], &[11 * LINE])
    );
}

#[test]
fn scrub_past_the_end_wraps() {
    let a = area(0x1000, 8);
    let expected = addresses(0x1000, &[0, 4, 1, 5, 2, 6, 3, 7, 0]);
    assert_eq!(scrub_in_steps(&[a], &[9 * LINE]), expected);
}

#[test]
fn wrap_over_two_areas_returns_to_first_area() {
    let areas = [area(0x1000, 6), area(0x3000, 2)];
    let touched = scrub_in_steps(&areas, &[5 * LINE, 4 * LINE]);
    assert_eq!(touched.len(), 9);
    assert_eq!(touched[8], 0x1000);
    let mut expected = addresses(0x1000, &[0, 4, 1, 5, 2, 3]);
    expected.extend(addresses(0x3000, &[0, 1]));
    expected.push(0x1000);
    assert_eq!(touched, expected);
}

#[test]
fn two_full_passes_touch_every_line_twice() {
    let a = area(0x1000, 8);
    let touched = scrub_in_steps(&[a], &[16 * LINE]);
    assert_eq!(touched[..8], touched[8..]);
}

#[test]
fn construction_errors() {
    let bad_start = ScrubArea { start: 0x1001, end: 0x107F };
    assert_eq!(MemoryScrubber::new(Recorder::default(), &[bad_start]).err(), Some(Error::UnalignedStart));

    let bad_end = ScrubArea { start: 0x1000, end: 0x100E };
    assert_eq!(MemoryScrubber::new(Recorder::default(), &[bad_end]).err(), Some(Error::UnalignedEnd));

    let no_areas: [ScrubArea; 0] = [];
    assert_eq!(MemoryScrubber::new(Recorder::default(), &no_areas).err(), Some(Error::NoScrubAreas));

    let empty = ScrubArea { start: 0x1000, end: 0x1000 };
    assert_eq!(MemoryScrubber::new(Recorder::default(), &[empty]).err(), Some(Error::EmptyScrubArea));

    // Alignment decides before the order of start and end.
    let backwards_bad_start = ScrubArea { start: 0x2001, end: 0x100F };
    assert_eq!(
        MemoryScrubber::new(Recorder::default(), &[backwards_bad_start]).err(),
        Some(Error::UnalignedStart)
    );
    let backwards_bad_end = ScrubArea { start: 0x2000, end: 0x100E };
    assert_eq!(
        MemoryScrubber::new(Recorder::default(), &[backwards_bad_end]).err(),
        Some(Error::UnalignedEnd)
    );
}

#[test]
fn backwards_area_holds_no_line() {
    let backwards = ScrubArea { start: 0x2000, end: 0x100F };
    assert!(MemoryScrubber::new(Recorder::default(), &[backwards]).is_ok());
    assert_eq!(walk_area(&backwards), Vec::<usize>::new());

    // It is skipped in a pass over several areas.
    let areas = [backwards, area(0x3000, 2)];
    assert_eq!(scrub_in_steps(&areas, &[3 * LINE]), vec![0x3000, 0x3010, 0x3000]);
}

#[test]
fn pass_without_lines_fails_to_scrub() {
    let backwards = ScrubArea { start: 0x2000, end: 0x100F };
    let areas = [backwards];
    let mut scrubber = MemoryScrubber::new(Recorder::default(), &areas).unwrap();
    assert_eq!(scrubber.scrub(0), Ok(()));
    assert_eq!(scrubber.scrub(17), Err(Error::UnalignedSize));
    assert_eq!(scrubber.scrub(LINE), Err(Error::IteratorFailed));
    assert!(scrubber.cache_desc().touched.is_empty());
}

#[test]
fn first_bad_area_decides_the_error() {
    let areas = [
        area(0x1000, 4),
        ScrubArea { start: 0x2000, end: 0x200E },
        ScrubArea { start: 0x3001, end: 0x303F },
    ];
    assert_eq!(MemoryScrubber::new(Recorder::default(), &areas).err(), Some(Error::UnalignedEnd));

    // An empty area is reported before its misalignment.
    let areas = [ScrubArea { start: 0x1001, end: 0x1001 }];
    assert_eq!(MemoryScrubber::new(Recorder::default(), &areas).err(), Some(Error::EmptyScrubArea));
}

#[test]
fn unaligned_size_touches_nothing() {
    let areas = [area(0x1000, 8)];
    let mut scrubber = MemoryScrubber::new(Recorder::default(), &areas).unwrap();
    assert_eq!(scrubber.scrub(17), Err(Error::UnalignedSize));
    assert!(scrubber.cache_desc().touched.is_empty());
    assert_eq!(scrubber.scrub(2 * LINE), Ok(()));
    assert_eq!(scrubber.scrub(LINE + 8), Err(Error::UnalignedSize));
    assert_eq!(scrubber.scrub(LINE), Ok(()));
    assert_eq!(scrubber.cache_desc().touched, addresses(0x1000, &[0, 4, 1]));
}

#[test]
fn area_off_set_zero_groups_by_set() {
    // The area starts in set 1; the walk counts sets from there.
    let a = area(0x1010, 8);
    let walked = walk_area(&a);
    assert_eq!(walked, addresses(0x1010, &[0, 4, 1, 5, 2, 6, 3, 7]));
    let first_set = GEOMETRY.cache_index(a.start);
    assert_eq!(first_set, 1);
    for (pos, addr) in walked.iter().enumerate() {
        let run = pos / 2;
        assert_eq!(GEOMETRY.cache_index(*addr), (first_set + run) % 4);
    }
}

#[test]
fn full_walk_covers_each_line_once() {
    let a = area(0x4000, 13);
    let mut walked = walk_area(&a);
    for addr in &walked {
        assert!(*addr >= a.start && *addr <= a.end);
        assert_eq!(addr % LINE, 0);
    }
    walked.sort();
    assert_eq!(walked, addresses(0x4000, &(0..13).collect::<Vec<_>>()));
}

#[test]
fn runs_rise_within_each_set() {
    let a = area(0x4000, 13);
    let walked = walk_area(&a);
    // 13 lines over 4 sets: runs of 4, 3, 3 and 3.
    let bounds = [0, 4, 7, 10, 13];
    for k in 0..4 {
        let run = &walked[bounds[k]..bounds[k + 1]];
        for w in run.windows(2) {
            assert!(w[0] < w[1]);
        }
        for addr in run {
            assert_eq!(GEOMETRY.cache_index(*addr), k);
        }
    }
}

#[test]
fn geometry_helpers() {
    assert_eq!(GEOMETRY.cacheline_size(), 16);
    assert_eq!(GEOMETRY.cache_lines(), 4);
    assert_eq!(GEOMETRY.line_number(0x1234), 0x123);
    assert_eq!(GEOMETRY.cache_index(0x1234), 3);
    assert_eq!(GEOMETRY.cache_index(0x1040), 0);
    assert_eq!(GEOMETRY.size_in_cachelines(&area(0x1000, 8)), 8);
    assert_eq!(GEOMETRY.size_in_cachelines(&ScrubArea { start: 0x1000, end: 0x100F }), 1);
    assert_eq!(GEOMETRY.check_area(&area(0x1000, 3)), Ok(()));
    assert_eq!(GEOMETRY.check_area(&ScrubArea { start: 0x1008, end: 0x101F }), Err(Error::UnalignedStart));
    assert_eq!(GEOMETRY.check_areas(&[area(0x1000, 1), area(0x2000, 2)]), Ok(()));
    assert_eq!(GEOMETRY.check_areas(&[]), Err(Error::NoScrubAreas));
    assert_eq!(CacheGeometry::of(&Recorder::default()), GEOMETRY);
}

#[test]
fn one_byte_lines() {
    let g = CacheGeometry { cacheline_width: 0, cache_index_width: 1 };
    let a = ScrubArea { start: 10, end: 14 };
    let mut it = ScrubAreaIterator::new(&g, &a);
    let mut walked = vec![];
    while let Some(p) = it.next() {
        walked.push(p);
    }
    assert_eq!(walked, vec![10, 12, 14, 11, 13]);
}

#[test]
fn area_at_the_top_of_memory() {
    let g = CacheGeometry { cacheline_width: 0, cache_index_width: 63 };
    let a = ScrubArea { start: usize::MAX - 3, end: usize::MAX };
    let mut it = ScrubAreaIterator::new(&g, &a);
    let mut walked = vec![];
    while let Some(p) = it.next() {
        walked.push(p);
    }
    assert_eq!(walked, vec![usize::MAX - 3, usize::MAX - 2, usize::MAX - 1, usize::MAX]);
}

// A policy that is never asked: the steps below are fed by hand.
struct NoPolicy;

impl BaseAutoScrubDesc for NoPolicy {
    fn next(&mut self) -> usize {
        0
    }
}

#[test]
fn scrub_step_acts_on_the_answer() {
    let areas = [area(0x1000, 8)];
    let mut auto = BaseAutoScrub::new(Recorder::default(), &areas, NoPolicy).unwrap();
    assert_eq!(auto.scrub_step(3 * LINE), Ok(false));
    assert_eq!(auto.scrub_step(17), Err(Error::UnalignedSize));
    assert_eq!(auto.scrub_step(5 * LINE), Ok(false));
    assert_eq!(auto.scrub_step(0), Ok(true));
    assert_eq!(auto.scrubber().cache_desc().touched, addresses(0x1000, &[0, 4, 1, 5, 2, 6, 3, 7]));
    assert_eq!(auto.autoscrub_step(), Ok(true));
    assert_eq!(auto.scrubber().cache_desc().touched.len(), 8);
}

#[test]
fn driver_fails_as_new_does() {
    let bad = [ScrubArea { start: 0x1001, end: 0x107F }];
    assert_eq!(BaseAutoScrub::new(Recorder::default(), &bad, NoPolicy).err().map(|_| ()), Some(()));
    assert!(matches!(BaseAutoScrub::new(Recorder::default(), &bad, NoPolicy), Err(Error::UnalignedStart)));
}

#[test]
fn size_of_unaligned_span() {
    assert_eq!(GEOMETRY.size_in_cachelines(&ScrubArea { start: 0x1008, end: 0x1031 }), 4);
    let bytes = CacheGeometry { cacheline_width: 0, cache_index_width: 2 };
    assert_eq!(bytes.size_in_cachelines(&ScrubArea { start: 7, end: 7 }), 1);
}
