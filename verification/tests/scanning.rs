use quarry::aob;
use quarry::memory::{
    self, is_readable, is_writable, read_chunked, PageInfo, Region, CHUNK, PAGE,
};
use quarry::rescan::{next_scan_job, next_scan_string_job, RescanJob};
use quarry::scan::{
    compare, compare_pair, scan_kind_label, Known, Match, ScanCmp, ScanKind, ScanProgress, Scanner,
};
use quarry::snapshot::{
    unknown_first_job, unknown_next_job, PairJob, SnapJob, Snapshot, SNAP_MAX_TOTAL,
};
use quarry::sweep::{
    addresses, aob_scan, aob_scan_job, first_scan_job, first_scan_string_job, ScanJob,
};
use quarry::value::ValueType;

/// A process of a few regions, for the searches to look at.
struct Memory {
    parts: Vec<(u64, Vec<u8>, bool)>,
}

impl Memory {
    fn regions(&self) -> Vec<Region> {
        self.parts
            .iter()
            .map(|(base, data, writable)| Region { base: *base, size: data.len(), writable: *writable })
            .collect()
    }

    fn read(&self, a: u64, n: usize) -> Option<Vec<u8>> {
        for (base, data, _) in &self.parts {
            if a >= *base && a + n as u64 <= *base + data.len() as u64 {
                let i = (a - base) as usize;
                return Some(data[i..i + n].to_vec());
            }
        }
        None
    }

    fn sweep(&self, job: &mut ScanJob, p: &mut ScanProgress) {
        while let Some((a, n)) = job.next(p) {
            match self.read(a, n) {
                Some(d) => job.supply(true, &d),
                None => job.supply(false, &[]),
            }
        }
    }

    fn recheck(&self, job: &mut RescanJob, p: &mut ScanProgress) {
        while let Some((a, n)) = job.next(p) {
            let d = self.read(a, n);
            job.supply(d.as_deref(), p);
        }
    }

    fn picture(&self, job: &mut SnapJob, p: &mut ScanProgress) {
        while let Some((a, n)) = job.next(p) {
            match self.read(a, n) {
                Some(d) => job.supply(true, &d),
                None => job.supply(false, &[]),
            }
        }
    }

    fn compare(&self, job: &mut PairJob, p: &mut ScanProgress) {
        while let Some((a, n)) = job.next(p) {
            match self.read(a, n) {
                Some(d) => job.supply(true, &d),
                None => job.supply(false, &[]),
            }
        }
    }
}

fn exact(v: i128) -> ScanCmp {
    ScanCmp { kind: ScanKind::Exact, t1_i: v, t2_i: 0, t1_f: (v as f64).to_bits(), t2_f: 0 }
}

#[test]
fn kinds_say_what_they_need() {
    assert!(ScanKind::Exact.needs_value());
    assert!(ScanKind::Between.needs_value());
    assert!(!ScanKind::Changed.needs_value());
    assert!(ScanKind::Between.needs_two());
    assert!(!ScanKind::Exact.needs_two());
    assert_eq!(scan_kind_label(ScanKind::Between), "Entre (intervalo)");
    assert_eq!(scan_kind_label(ScanKind::Unchanged), "Nao mudou");
    let c = ScanCmp::relative(ScanKind::Increased);
    assert_eq!((c.kind, c.t1_i, c.t2_f), (ScanKind::Increased, 0, 0));
}

#[test]
fn values_are_compared() {
    let b = 10i32.to_le_bytes();
    let vt = ValueType::I32;
    let c = |kind, t1, t2| ScanCmp { kind, t1_i: t1, t2_i: t2, t1_f: 0, t2_f: 0 };
    let none = Known::Float(f64::NAN.to_bits());
    assert_eq!(compare(vt, &c(ScanKind::Exact, 10, 0), &b, none), Some(true));
    assert_eq!(compare(vt, &c(ScanKind::BiggerThan, 10, 0), &b, none), Some(false));
    assert_eq!(compare(vt, &c(ScanKind::SmallerThan, 11, 0), &b, none), Some(true));
    assert_eq!(compare(vt, &c(ScanKind::Between, 10, 12), &b, none), Some(true));
    assert_eq!(compare(vt, &c(ScanKind::Between, 11, 12), &b, none), Some(false));
    assert_eq!(compare(vt, &c(ScanKind::Changed, 0, 0), &b, Known::Int(10)), Some(false));
    assert_eq!(compare(vt, &c(ScanKind::Unchanged, 0, 0), &b, Known::Int(10)), Some(true));
    assert_eq!(compare(vt, &c(ScanKind::Increased, 0, 0), &b, Known::Int(9)), Some(true));
    assert_eq!(compare(vt, &c(ScanKind::Decreased, 0, 0), &b, Known::Int(9)), Some(false));
    assert_eq!(compare(vt, &c(ScanKind::Exact, 10, 0), &b[..3], none), None);
    assert_eq!(compare(ValueType::StringUtf8, &c(ScanKind::Exact, 10, 0), &b, none), None);
}

#[test]
fn large_integers_are_compared_precisely() {
    let v = (1u64 << 53) + 1;
    let c = ScanCmp::relative(ScanKind::Unchanged);
    let same = Known::Int(v as i128);
    let near = Known::Int(v as i128 - 1);
    assert_eq!(compare(ValueType::U64, &c, &v.to_le_bytes(), same), Some(true));
    assert_eq!(compare(ValueType::U64, &c, &v.to_le_bytes(), near), Some(false));
}

#[test]
fn floating_point_is_compared_as_numbers() {
    let c = |kind, t1: f64, t2: f64| ScanCmp {
        kind,
        t1_i: 0,
        t2_i: 0,
        t1_f: t1.to_bits(),
        t2_f: t2.to_bits(),
    };
    let prev = |x: f64| Known::Float(x.to_bits());
    let b = 1.5f32.to_le_bytes();
    let vt = ValueType::F32;
    assert_eq!(compare(vt, &c(ScanKind::Exact, 1.5, 0.0), &b, prev(0.0)), Some(true));
    assert_eq!(compare(vt, &c(ScanKind::Between, 1.0, 1.5), &b, prev(0.0)), Some(true));
    assert_eq!(compare(vt, &c(ScanKind::Increased, 0.0, 0.0), &b, prev(1.0)), Some(true));
    let nan = f32::NAN.to_le_bytes();
    assert_eq!(compare(vt, &c(ScanKind::Changed, 0.0, 0.0), &nan, prev(f64::NAN)), Some(true));
    assert_eq!(compare(vt, &c(ScanKind::Unchanged, 0.0, 0.0), &nan, prev(f64::NAN)), Some(false));
    // what was remembered as an integer compares as the nearest number, and the other way round
    assert_eq!(
        compare(ValueType::F64, &c(ScanKind::Unchanged, 0.0, 0.0), &3.0f64.to_le_bytes(), Known::Int(3)),
        Some(true)
    );
    assert_eq!(
        compare(ValueType::I8, &c(ScanKind::Unchanged, 0.0, 0.0), &[3], prev(3.9)),
        Some(true)
    );
}

#[test]
fn readings_are_compared_in_pairs() {
    let c = ScanCmp::relative(ScanKind::Decreased);
    assert_eq!(compare_pair(ValueType::U8, &c, &[5], &[4]), Some(true));
    assert_eq!(compare_pair(ValueType::U8, &c, &[4], &[4]), Some(false));
    assert_eq!(compare_pair(ValueType::U8, &c, &[], &[4]), None);
    assert_eq!(compare_pair(ValueType::U8, &exact(4), &[], &[4]), Some(true));
    assert_eq!(compare_pair(ValueType::U8, &exact(4), &[1], &[]), None);
}

#[test]
fn progress_counts() {
    let mut p = ScanProgress::new(0);
    assert_eq!(p.fraction(), (0, 1));
    p = ScanProgress::new(4);
    p.done = 9;
    p.matches = 3;
    assert_eq!(p.fraction(), (4, 4));
    assert_eq!(p.matches_count(), 3);
    assert!(!p.cancel);
    p.request_cancel();
    assert!(p.cancel);
}

#[test]
fn a_scanner_starts_empty() {
    let mut s = Scanner::new(ValueType::F32);
    assert!(s.fast_scan && !s.has_scanned && s.matches.is_empty());
    s.matches.push(Match { address: 1, last: Known::Int(0) });
    s.has_scanned = true;
    s.reset();
    assert!(s.matches.is_empty() && !s.has_scanned);
    assert_eq!(s.value_type, ValueType::F32);
}

#[test]
fn blocks_overlap() {
    let mut c = read_chunked(0x1000, CHUNK + 10, 3);
    assert_eq!(c.request(), Some((0x1000, CHUNK)));
    c.advance(true, CHUNK);
    assert_eq!(c.request(), Some((0x1000 + CHUNK as u64 - 3, 13)));
    c.advance(true, 13);
    assert_eq!(c.request(), None);
    assert_eq!(read_chunked(0, 0, 3).request(), None);
}

#[test]
fn blocks_step_over_unreadable_pages() {
    let mut c = read_chunked(0, CHUNK, 0);
    c.advance(true, 5);
    assert_eq!(c.request(), Some((5 + PAGE as u64, CHUNK - 5 - PAGE)));
    c.advance(false, 0);
    assert_eq!(c.request(), Some((5 + 2 * PAGE as u64, CHUNK - 5 - 2 * PAGE)));
}

#[test]
fn protections() {
    assert!(is_readable(0x02) && is_readable(0x20) && is_readable(0x80));
    assert!(!is_readable(0x10) && !is_readable(0x01) && !is_readable(0x104) && !is_readable(0));
    assert!(is_writable(0x04) && is_writable(0x08) && is_writable(0x40) && is_writable(0x80));
    assert!(!is_writable(0x02) && !is_writable(0x20));
}

#[test]
fn the_address_space_is_walked() {
    let mut w = memory::enumerate_regions();
    assert_eq!(w.query(), Some(0));
    w.answer(Some(PageInfo { base: 0, size: 0x1000, committed: false, protect: 1 }));
    assert_eq!(w.query(), Some(0x1000));
    w.answer(Some(PageInfo { base: 0x1000, size: 0x2000, committed: true, protect: 4 }));
    w.answer(Some(PageInfo { base: 0x3000, size: 0x1000, committed: true, protect: 2 }));
    w.answer(Some(PageInfo { base: 0x4000, size: 0x1000, committed: true, protect: 0x104 }));
    w.answer(Some(PageInfo { base: 0x5000, size: usize::MAX / 2, committed: true, protect: 2 }));
    assert_eq!(w.query(), None);
    assert_eq!(
        w.regions,
        vec![
            Region { base: 0x1000, size: 0x2000, writable: true },
            Region { base: 0x3000, size: 0x1000, writable: false },
            Region { base: 0x5000, size: usize::MAX / 2, writable: false },
        ]
    );
    let mut w = memory::enumerate_regions();
    w.answer(None);
    assert_eq!(w.query(), None);
    let mut w = memory::enumerate_regions();
    w.answer(Some(PageInfo { base: 0, size: 0, committed: true, protect: 4 }));
    assert_eq!(w.query(), None);
    assert!(memory::regions_fit(&w.regions));
    assert!(!memory::regions_fit(&[Region { base: u64::MAX, size: 1, writable: false }]));
}

#[test]
fn outcomes_of_reads() {
    assert_eq!(memory::read_bytes(true, 3, vec![1, 2, 3]), Some(vec![1, 2, 3]));
    assert_eq!(memory::read_bytes(true, 2, vec![1, 2, 3]), Some(vec![1, 2]));
    assert_eq!(memory::read_bytes(true, 0, vec![1, 2, 3]), None);
    assert_eq!(memory::read_bytes(false, 3, vec![1, 2, 3]), None);
    assert_eq!(memory::read_bytes(true, 0, vec![]), Some(vec![]));
    assert!(memory::read_into(true, 4, 4) && !memory::read_into(true, 3, 4));
    assert!(memory::write_bytes(true, 4, 4) && !memory::write_bytes(false, 4, 4));
    assert_eq!(memory::read_u64(Some(&[1, 0, 0, 0, 0, 0, 0, 1])), Some(0x0100_0000_0000_0001));
    assert_eq!(memory::read_u64(Some(&[1])), None);
    assert_eq!(memory::read_u64(None), None);
}

#[test]
fn a_first_search_finds_aligned_values() {
    let mut data = vec![0u8; 64];
    data[8..12].copy_from_slice(&77i32.to_le_bytes());
    data[21..25].copy_from_slice(&77i32.to_le_bytes());
    let m = Memory { parts: vec![(0x4000, data, true), (0x9000, vec![77, 0, 0, 0, 77], true)] };
    let mut p = ScanProgress::new(2);
    let mut job = first_scan_job(m.regions(), ValueType::I32, true, exact(77));
    m.sweep(&mut job, &mut p);
    assert_eq!(addresses(&job.found), vec![0x4008, 0x9000]);
    assert_eq!((p.done, p.matches), (2, 2));
    assert_eq!(job.found[0].last, Known::Int(77));
    let mut job = first_scan_job(m.regions(), ValueType::I32, false, exact(77));
    m.sweep(&mut job, &mut p);
    assert_eq!(addresses(&job.found), vec![0x4008, 0x4015, 0x9000]);
}

#[test]
fn nothing_is_lost_or_doubled_between_blocks() {
    let mut data = vec![0u8; 2 * CHUNK + 100];
    for at in [0, CHUNK - 2, CHUNK - 1, CHUNK + 3, 2 * CHUNK - 5, 2 * CHUNK + 90] {
        data[at..at + 4].copy_from_slice(b"abcd");
    }
    // the second of two that lie over each other stays
    let m = Memory { parts: vec![(0x10_0000, data.clone(), true)] };
    let mut expected: Vec<u64> = Vec::new();
    for i in 0..data.len() - 3 {
        if &data[i..i + 4] == b"abcd" {
            expected.push(0x10_0000 + i as u64);
        }
    }
    let mut p = ScanProgress::new(1);
    let mut job = first_scan_string_job(m.regions(), b"abcd".to_vec());
    m.sweep(&mut job, &mut p);
    assert_eq!(addresses(&job.found), expected);
    assert_eq!(expected.len(), 5);
    let v = u32::from_le_bytes(*b"abcd") as i128;
    let mut job = first_scan_job(m.regions(), ValueType::U32, false, exact(v));
    m.sweep(&mut job, &mut p);
    assert_eq!(addresses(&job.found), expected);
    let mut job = first_scan_job(m.regions(), ValueType::U32, true, exact(v));
    m.sweep(&mut job, &mut p);
    let aligned: Vec<u64> = expected.into_iter().filter(|a| (a - 0x10_0000) % 4 == 0).collect();
    assert_eq!(addresses(&job.found), aligned);
}

#[test]
fn a_pattern_search_stops_at_its_limit() {
    let m = Memory { parts: vec![(0x100, vec![0x90; 50], true), (0x200, vec![0x90; 50], true)] };
    let pat = aob::parse_aob("90 ?? 90").unwrap();
    let (mut job, mut p) = aob_scan(m.regions(), pat.clone(), 3);
    m.sweep(&mut job, &mut p);
    assert_eq!(addresses(&job.found), vec![0x100, 0x101, 0x102]);
    assert_eq!(p.done, 1);
    let mut p = ScanProgress::new(2);
    let mut job = aob_scan_job(m.regions(), pat, 1000);
    m.sweep(&mut job, &mut p);
    assert_eq!(job.found.len(), 96);
    let (mut none, mut p) = aob_scan(m.regions(), vec![], 5);
    assert_eq!(none.next(&mut p), None);
    assert!(none.found.is_empty());
}

#[test]
fn a_search_can_be_stopped_between_regions() {
    let m = Memory { parts: vec![(0x100, vec![1; 8], true), (0x200, vec![1; 8], true)] };
    let mut p = ScanProgress::new(2);
    let mut job = first_scan_job(m.regions(), ValueType::U8, true, exact(1));
    let (a, n) = job.next(&mut p).unwrap();
    p.request_cancel();
    job.supply(true, &m.read(a, n).unwrap());
    assert_eq!(job.next(&mut p), None);
    assert_eq!(job.found.len(), 8);
    assert_eq!(p.done, 1);
}

#[test]
fn unreadable_blocks_are_left_out() {
    let regions = vec![Region { base: 0x1000, size: 3 * PAGE, writable: true }];
    let mut job = first_scan_job(regions, ValueType::U8, true, exact(7));
    let mut p = ScanProgress::new(1);
    assert_eq!(job.next(&mut p), Some((0x1000, 3 * PAGE)));
    job.supply(true, &[7, 7]);
    assert_eq!(job.next(&mut p), Some((0x1002 + PAGE as u64, 2 * PAGE - 2)));
    job.supply(false, &[]);
    assert_eq!(job.next(&mut p), Some((0x1002 + 2 * PAGE as u64, PAGE - 2)));
    job.supply(true, &vec![7; PAGE - 2]);
    assert_eq!(job.next(&mut p), None);
    assert_eq!(job.found.len(), 2 + PAGE - 2);
}

#[test]
fn texts_have_no_numbers_to_search_for() {
    let m = Memory { parts: vec![(0x100, vec![1; 8], true)] };
    let mut p = ScanProgress::new(1);
    let mut job = first_scan_job(m.regions(), ValueType::StringUtf8, true, exact(1));
    assert_eq!(job.next(&mut p), None);
    let mut job = first_scan_string_job(m.regions(), vec![]);
    assert_eq!(job.next(&mut p), None);
    assert_eq!(p.done, 0);
}

#[test]
fn a_next_search_keeps_what_still_fits() {
    let m = Memory { parts: vec![(0x100, vec![1, 2, 3, 4], true)] };
    let ms: Vec<Match> = (0..5u64)
        .map(|i| Match { address: 0x100 + i, last: Known::Int(2) })
        .collect();
    let mut p = ScanProgress::new(5);
    let mut job = next_scan_job(ms, ValueType::U8, ScanCmp::relative(ScanKind::Increased));
    m.recheck(&mut job, &mut p);
    assert_eq!(
        job.kept,
        vec![
            Match { address: 0x102, last: Known::Int(3) },
            Match { address: 0x103, last: Known::Int(4) },
        ]
    );
    assert_eq!((p.done, p.matches), (5, 2));
}

#[test]
fn unchanged_memory_keeps_all_and_changed_none() {
    let m = Memory { parts: vec![(0x100, vec![9, 8, 7, 6], true)] };
    let mut p = ScanProgress::new(1);
    let mut first = first_scan_job(
        m.regions(),
        ValueType::U8,
        true,
        ScanCmp { kind: ScanKind::BiggerThan, t1_i: 0, t2_i: 0, t1_f: 0, t2_f: 0 },
    );
    m.sweep(&mut first, &mut p);
    let found = first.found.clone();
    let mut same =
        next_scan_job(found.clone(), ValueType::U8, ScanCmp::relative(ScanKind::Unchanged));
    m.recheck(&mut same, &mut p);
    assert_eq!(same.kept, found);
    let mut other = next_scan_job(found, ValueType::U8, ScanCmp::relative(ScanKind::Changed));
    m.recheck(&mut other, &mut p);
    assert!(other.kept.is_empty());
}

#[test]
fn a_stopped_next_search_keeps_the_rest() {
    let m = Memory { parts: vec![(0x100, vec![1, 1, 1], true)] };
    let ms: Vec<Match> =
        (0..3u64).map(|i| Match { address: 0x100 + i, last: Known::Int(1) }).collect();
    let mut p = ScanProgress::new(3);
    let mut job = next_scan_job(ms.clone(), ValueType::U8, exact(5));
    let (a, n) = job.next(&mut p).unwrap();
    let d = m.read(a, n);
    job.supply(d.as_deref(), &mut p);
    p.request_cancel();
    assert_eq!(job.next(&mut p), None);
    assert_eq!(job.kept, ms[1..].to_vec());
    assert_eq!((p.done, p.matches), (1, 2));
    let mut p = ScanProgress::new(3);
    p.request_cancel();
    let mut job = next_scan_job(ms.clone(), ValueType::U8, exact(5));
    assert_eq!(job.next(&mut p), None);
    assert_eq!(job.kept, ms);
}

#[test]
fn a_next_search_reports_now_and_then() {
    let data = vec![1u8; 5000];
    let m = Memory { parts: vec![(0x1000, data, true)] };
    let ms: Vec<Match> =
        (0..5000u64).map(|i| Match { address: 0x1000 + i, last: Known::Int(1) }).collect();
    let mut p = ScanProgress::new(5000);
    let mut job = next_scan_job(ms, ValueType::U8, exact(1));
    let mut steps = 0;
    while let Some((a, n)) = job.next(&mut p) {
        let d = m.read(a, n);
        job.supply(d.as_deref(), &mut p);
        steps += 1;
        assert_eq!(p.done, if steps < 4096 { 0 } else { 4096 });
    }
    assert_eq!(p.done, 5000);
}

#[test]
fn texts_are_searched_again() {
    let m = Memory { parts: vec![(0x100, b"oi oi ox".to_vec(), true)] };
    let mut p = ScanProgress::new(1);
    let mut job = first_scan_string_job(m.regions(), b"o".to_vec());
    m.sweep(&mut job, &mut p);
    assert_eq!(addresses(&job.found), vec![0x100, 0x103, 0x106]);
    let mut again = next_scan_string_job(job.found.clone(), b"oi".to_vec());
    m.recheck(&mut again, &mut p);
    assert_eq!(addresses(&again.kept), vec![0x100, 0x103]);
    let mut none = next_scan_string_job(job.found.clone(), vec![]);
    assert_eq!(none.next(&mut p), None);
    assert_eq!(none.kept, job.found);
}

#[test]
fn a_picture_is_taken_of_what_can_be_written() {
    let m = Memory {
        parts: vec![
            (0x100, vec![1, 2, 3], true),
            (0x200, vec![4, 5], false),
            (0x300, vec![], true),
            (0x400, vec![6], true),
        ],
    };
    let mut p = ScanProgress::new(4);
    let mut job = unknown_first_job(m.regions());
    m.picture(&mut job, &mut p);
    assert_eq!(job.taken.regions, vec![(0x100, vec![1, 2, 3]), (0x400, vec![6])]);
    assert_eq!((p.done, p.matches), (4, 2));
}

#[test]
fn a_picture_has_limits() {
    let big = Region { base: 0x1000, size: 0x1000_0001, writable: true };
    let mut job = unknown_first_job(vec![big]);
    let mut p = ScanProgress::new(1);
    assert_eq!(job.next(&mut p), None);
    assert_eq!(p.done, 1);
    let mut job = unknown_first_job(vec![Region { base: 0x1000, size: 4, writable: true }]);
    assert_eq!(job.next(&mut p), Some((0x1000, 4)));
    job.supply(false, &[]);
    assert_eq!(job.next(&mut p), None);
    assert!(job.taken.regions.is_empty());
    p.request_cancel();
    let mut job = unknown_first_job(vec![Region { base: 0x1000, size: 4, writable: true }]);
    assert_eq!(job.next(&mut p), None);
}

#[test]
fn changes_since_a_picture_are_found() {
    let before = vec![1u8, 0, 5, 0, 9, 0, 7];
    let mut now = before.clone();
    now[2] = 6;
    now[4] = 8;
    let m = Memory { parts: vec![(0x100, now, true)] };
    let snap = || Snapshot { regions: vec![(0x100, before.clone())] };
    let mut p = ScanProgress::new(1);
    let mut job =
        unknown_next_job(snap(), ValueType::U16, true, ScanCmp::relative(ScanKind::Changed));
    m.compare(&mut job, &mut p);
    assert_eq!(
        job.found,
        vec![
            Match { address: 0x102, last: Known::Int(6) },
            Match { address: 0x104, last: Known::Int(8) },
        ]
    );
    assert_eq!((p.done, p.matches), (1, 2));
    let mut job =
        unknown_next_job(snap(), ValueType::U16, true, ScanCmp::relative(ScanKind::Increased));
    m.compare(&mut job, &mut p);
    assert_eq!(addresses(&job.found), vec![0x102]);
    let mut job =
        unknown_next_job(snap(), ValueType::U8, false, ScanCmp::relative(ScanKind::Unchanged));
    m.compare(&mut job, &mut p);
    assert_eq!(job.found.len(), 5);
    let mut job = unknown_next_job(snap(), ValueType::U8, true, exact(8));
    m.compare(&mut job, &mut p);
    assert_eq!(addresses(&job.found), vec![0x104]);
    let mut job =
        unknown_next_job(snap(), ValueType::StringUtf8, true, ScanCmp::relative(ScanKind::Changed));
    assert_eq!(job.next(&mut p), None);
}

#[test]
fn what_cannot_be_read_again_counts_as_zero() {
    let m = Memory { parts: vec![] };
    let snap = Snapshot { regions: vec![(0x100, vec![0, 3])] };
    let mut p = ScanProgress::new(1);
    let mut job = unknown_next_job(snap, ValueType::U8, true, ScanCmp::relative(ScanKind::Changed));
    m.compare(&mut job, &mut p);
    assert_eq!(job.found, vec![Match { address: 0x101, last: Known::Int(0) }]);
}

#[test]
fn patterns_are_read() {
    assert_eq!(
        aob::parse_aob(" 48 8B\t?? ? +5 "),
        Some(vec![Some(0x48), Some(0x8b), None, None, Some(5)])
    );
    assert_eq!(aob::parse_aob(""), None);
    assert_eq!(aob::parse_aob("   "), None);
    assert_eq!(aob::parse_aob("48 GG"), None);
    assert_eq!(aob::parse_aob("100"), None);
    assert_eq!(aob::parse_aob("???"), None);
    assert!(aob::matches_at(&[1, 2, 3], &[Some(1), None]));
    assert!(!aob::matches_at(&[1, 2, 3], &[Some(1), Some(3)]));
    assert!(!aob::matches_at(&[1], &[Some(1), None]));
    assert!(aob::matches_at(&[], &[]));
}

/// The bytes from `off` on, up to the first of a page that cannot be read.
fn before_holes(data: &[u8], holes: &[usize], off: usize, n: usize) -> Vec<u8> {
    let end = (off..off + n).find(|x| holes.contains(&(x / PAGE))).unwrap_or(off + n);
    data[off..end].to_vec()
}

#[test]
fn nothing_is_lost_at_unreadable_pages() {
    let base = 0x10_0000u64;
    let holes = [1usize, 300];
    let mut data = vec![0u8; CHUNK + 60 * PAGE];
    let places = [
        PAGE - 6,
        PAGE - 2,
        2 * PAGE - 4,
        2 * PAGE,
        CHUNK + PAGE,
        300 * PAGE - 5,
        300 * PAGE - 1,
        301 * PAGE,
        CHUNK + 60 * PAGE - 4,
    ];
    for at in places {
        data[at..at + 4].copy_from_slice(b"gold");
    }
    let region = Region { base, size: data.len(), writable: true };
    let mut job = first_scan_string_job(vec![region], b"gold".to_vec());
    let mut p = ScanProgress::new(1);
    while let Some((a, n)) = job.next(&mut p) {
        let d = before_holes(&data, &holes, (a - base) as usize, n);
        job.supply(true, &d);
    }
    // What reaches into a page that cannot be read, or lies in one, is not there to be found.
    let seen: Vec<u64> = [
        PAGE - 6,
        2 * PAGE,
        CHUNK + PAGE,
        300 * PAGE - 5,
        301 * PAGE,
        CHUNK + 60 * PAGE - 4,
    ]
    .iter()
    .map(|x| base + *x as u64)
    .collect();
    assert_eq!(addresses(&job.found), seen);
}

#[test]
fn a_picture_has_zeros_where_nothing_can_be_read() {
    let data = vec![7u8; 3 * PAGE];
    let region = Region { base: 0x1000, size: data.len(), writable: true };
    let mut job = unknown_first_job(vec![region]);
    let mut p = ScanProgress::new(1);
    while let Some((a, n)) = job.next(&mut p) {
        let d = before_holes(&data, &[1], (a - 0x1000) as usize, n);
        job.supply(true, &d);
    }
    let mut expected = data.clone();
    expected[PAGE..2 * PAGE].fill(0);
    assert_eq!(job.taken.regions, vec![(0x1000, expected)]);
}

#[test]
fn reading_resumes_right_behind_unreadable_pages() {
    let base = 0x5000u64;
    let mut c = read_chunked(base, 2 * PAGE, 0);
    c.advance(false, 0);
    assert_eq!(c.request(), Some((base + PAGE as u64, PAGE)));
    // Pages 0, 2 and 3 cannot be read; a byte stands first and last in each.
    let mut data = vec![0u8; 6 * PAGE];
    for page in 0..6 {
        data[page * PAGE] = 77;
        data[page * PAGE + PAGE - 1] = 77;
    }
    let region = Region { base, size: data.len(), writable: true };
    let gone = Region { base: 0x9_0000, size: PAGE, writable: true };
    let mut job = first_scan_job(vec![gone, region], ValueType::U8, true, exact(77));
    let mut p = ScanProgress::new(2);
    while let Some((a, n)) = job.next(&mut p) {
        if a >= 0x9_0000 {
            job.supply(false, &[]);
            continue;
        }
        let d = before_holes(&data, &[0, 2, 3], (a - base) as usize, n);
        job.supply(!d.is_empty(), &d);
    }
    let seen: Vec<u64> = [1usize, 4, 5]
        .iter()
        .flat_map(|page| [page * PAGE, page * PAGE + PAGE - 1])
        .map(|x| base + x as u64)
        .collect();
    assert_eq!(addresses(&job.found), seen);
    assert_eq!((p.done, p.matches), (2, 6));
}

#[test]
fn a_region_that_cannot_be_read_is_not_pictured() {
    let regions: Vec<Region> = (1..3u64)
        .map(|i| Region { base: i * 0x10_0000, size: 2 * PAGE, writable: true })
        .collect();
    let mut job = unknown_first_job(regions);
    let mut p = ScanProgress::new(2);
    while let Some((a, n)) = job.next(&mut p) {
        if a < 0x20_0000 {
            job.supply(false, &[]);
        } else {
            job.supply(true, &vec![1u8; n]);
        }
    }
    assert_eq!(job.taken.regions, vec![(0x20_0000, vec![1u8; 2 * PAGE])]);
    assert_eq!((p.done, p.matches), (2, 1));
}

#[test]
fn a_picture_ends_before_it_grows_too_large() {
    let m = Memory {
        parts: vec![
            (0x1000, vec![1; 4], true),
            (0x2000, vec![2; 9], false),
            (0x3000, vec![3; 6], true),
            (0x4000, vec![], true),
            (0x5000, vec![5; 1], true),
            (0x6000, vec![], true),
        ],
    };
    let mut p = ScanProgress::new(6);
    let mut job = unknown_first_job(m.regions());
    job.total = SNAP_MAX_TOTAL - 10;
    m.picture(&mut job, &mut p);
    assert_eq!(job.taken.regions, vec![(0x1000, vec![1; 4]), (0x3000, vec![3; 6])]);
    assert_eq!((p.done, p.matches), (5, 2));
    let mut p = ScanProgress { done: 3, total: 6, matches: 8, cancel: true };
    let mut job = unknown_first_job(m.regions());
    m.picture(&mut job, &mut p);
    assert!(job.taken.regions.is_empty());
    assert_eq!((p.done, p.matches), (3, 8));
}

#[test]
fn a_comparison_goes_through_all_of_a_picture() {
    let old = vec![4u8; 2 * PAGE];
    let now = vec![4u8; 2 * PAGE];
    let snap = || Snapshot {
        regions: vec![
            (0x9000, vec![1, 2, 3]),
            (0x8000, vec![]),
            (0x10_0000, old.clone()),
            (0x7000, vec![8]),
        ],
    };
    let run = |vt: ValueType, p: &mut ScanProgress| {
        let mut job = unknown_next_job(snap(), vt, false, ScanCmp::relative(ScanKind::Changed));
        while let Some((a, n)) = job.next(p) {
            match a {
                0x9000 => job.supply(true, &[1, 9, 3]),
                0x7000 => job.supply(true, &[7]),
                _ => {
                    let d = before_holes(&now, &[0], (a - 0x10_0000) as usize, n);
                    job.supply(!d.is_empty(), &d);
                }
            }
        }
        job.found
    };
    let mut p = ScanProgress { done: 2, total: 4, matches: 0, cancel: false };
    let found = run(ValueType::U8, &mut p);
    let mut expected = vec![0x9001u64];
    expected.extend((0..PAGE as u64).map(|x| 0x10_0000 + x));
    expected.push(0x7000);
    assert_eq!(addresses(&found), expected);
    assert_eq!(found[1].last, Known::Int(0));
    assert_eq!((p.done, p.matches), (6, PAGE + 2));
    p.request_cancel();
    assert!(run(ValueType::U8, &mut p).is_empty());
    assert_eq!((p.done, p.matches), (6, PAGE + 2));
    let mut p = ScanProgress::new(4);
    assert!(run(ValueType::StringUtf8, &mut p).is_empty());
    assert_eq!(p.done, 0);
}

#[test]
fn watching_a_search_changes_nothing() {
    let m = Memory {
        parts: (0..4u64).map(|i| (0x1000 * (i + 1), vec![9u8; 8], true)).collect(),
    };
    let pattern = vec![Some(9u8), None];
    let (mut own, mut alone) = aob_scan(m.regions(), pattern.clone(), 10);
    m.sweep(&mut own, &mut alone);
    let mut watched = aob_scan_job(m.regions(), pattern.clone(), 10);
    let mut p = ScanProgress { done: 5, total: 9, matches: 3, cancel: false };
    m.sweep(&mut watched, &mut p);
    assert_eq!(own.found, watched.found);
    // Seven places in a region: the second region reaches the limit.
    assert_eq!((alone.done, alone.matches), (2, 10));
    assert_eq!((p.done, p.total, p.matches), (7, 9, 10));
    let mut stopped = aob_scan_job(m.regions(), pattern, 10);
    let mut q = ScanProgress { done: 5, total: 9, matches: 3, cancel: true };
    m.sweep(&mut stopped, &mut q);
    assert!(stopped.found.is_empty());
    assert_eq!(q, ScanProgress { done: 5, total: 9, matches: 3, cancel: true });
}
