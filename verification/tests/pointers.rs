use quarry::inject::ModuleInfo;
use quarry::memory::Region;
use quarry::order;
use quarry::pointer::{
    pointer_scan, resolve, search_rec, Committed, ModuleRanges, PtrPath, PtrScanParams, ResolveStep,
};
use quarry::scan::ScanProgress;

fn module(name: &str, base: u64, size: u32) -> ModuleInfo {
    ModuleInfo { name: name.to_string(), base, size, path: String::new() }
}

fn path(module: &str, base_offset: u64, offsets: Vec<u64>) -> PtrPath {
    PtrPath { module: module.to_string(), base_offset, offsets }
}

/// A module at 0x1000, and two heaps.
struct Process {
    parts: Vec<(u64, Vec<u8>)>,
}

impl Process {
    fn new() -> Process {
        let mut game = vec![0u8; 0x100];
        let mut heap = vec![0u8; 0x100];
        let far = vec![0u8; 0x100];
        // game+0x20 -> heap+0x10, heap+0x18 -> far+0x40; the target is far+0x48
        game[0x20..0x28].copy_from_slice(&0x8010u64.to_le_bytes());
        heap[0x18..0x20].copy_from_slice(&0x20040u64.to_le_bytes());
        // game+0x80 -> far+0x30
        game[0x80..0x88].copy_from_slice(&0x20030u64.to_le_bytes());
        Process { parts: vec![(0x8000, heap), (0x1000, game), (0x20000, far)] }
    }

    fn regions(&self) -> Vec<Region> {
        self.parts
            .iter()
            .map(|(b, d)| Region { base: *b, size: d.len(), writable: true })
            .collect()
    }

    fn read(&self, a: u64, n: usize) -> Option<Vec<u8>> {
        for (b, d) in &self.parts {
            if a >= *b && a + n as u64 <= *b + d.len() as u64 {
                return Some(d[(a - b) as usize..(a - b) as usize + n].to_vec());
            }
        }
        None
    }

    fn pointer(&self, a: u64) -> Option<u64> {
        let d = self.read(a, 8);
        quarry::memory::read_u64(d.as_deref())
    }

    fn scan(&self, params: PtrScanParams, p: &mut ScanProgress) -> Vec<PtrPath> {
        let mods = ModuleRanges::from(&[module("game.exe", 0x1000, 0x100)]);
        let mut job = pointer_scan(self.regions(), &params);
        while let Some((a, n)) = job.next(p) {
            let d = self.read(a, n);
            job.supply(d.as_deref(), p);
        }
        let mut search = job.into_search(mods, params);
        while !search.is_over() && !p.cancel {
            search_rec(&mut search, 3, p);
        }
        search.results
    }

    fn follow(&self, base: u64, path: &PtrPath) -> Option<u64> {
        let mut job = resolve(base, path);
        loop {
            match job.step {
                ResolveStep::Read(a) => job.supply(self.pointer(a)),
                ResolveStep::Done(r) => return r,
            }
        }
    }
}

fn params(target: u64) -> PtrScanParams {
    PtrScanParams { target, max_offset: 0x20, max_depth: 4, alignment: 8, max_results: 100 }
}

#[test]
fn chains_are_written() {
    assert_eq!(path("game.exe", 0x1a2b, vec![0x10, 8]).format(), "[\"game.exe\"+1A2B]+10+8");
    assert_eq!(path("a.dll", 0, vec![0xff]).format(), "[\"a.dll\"+0]+FF");
    assert_eq!(path("a.dll", 5, vec![]).format(), "[\"a.dll\"+5]");
    let p = path("m", 1, vec![2, 3]);
    let q = p.duplicate();
    assert_eq!((q.module, q.base_offset, q.offsets), ("m".to_string(), 1, vec![2, 3]));
}

#[test]
fn addresses_are_looked_up() {
    let regions = [
        Region { base: 0x5000, size: 0x10, writable: true },
        Region { base: 0x1000, size: 0x20, writable: false },
    ];
    let c = Committed::from(&regions);
    for (a, inside) in
        [(0xfff, false), (0x1000, true), (0x101f, true), (0x1020, false), (0x5000, true), (0x500f, true), (0x5010, false)]
    {
        assert_eq!(c.contains(a), inside);
    }
    assert!(!Committed::from(&[]).contains(0));
    let m = ModuleRanges::from(&[module("b", 0x9000, 0x10), module("a", 0x100, 8)]);
    assert_eq!(m.module_of(0x9005), Some(("b", 0x9000)));
    assert_eq!(m.module_of(0x107), Some(("a", 0x100)));
    assert_eq!(m.module_of(0x108), None);
    assert_eq!(m.module_of(0), None);
}

#[test]
fn chains_are_found_and_lead_to_the_target() {
    let proc = Process::new();
    let mut p = ScanProgress::new(3);
    let found = proc.scan(params(0x20048), &mut p);
    let texts: Vec<String> = found.iter().map(|f| f.format()).collect();
    assert_eq!(texts, vec!["[\"game.exe\"+80]+18", "[\"game.exe\"+20]+8+8"]);
    assert_eq!(p.done, 3);
    assert_eq!(p.matches, 2);
    for f in &found {
        assert_eq!(proc.follow(0x1000, f), Some(0x20048));
        assert!(f.offsets.iter().all(|o| *o <= 0x20));
        assert!(f.offsets.len() <= 4);
    }
}

#[test]
fn depth_offset_and_number_are_kept_to() {
    let proc = Process::new();
    let mut p = ScanProgress::new(3);
    let shallow = proc.scan(PtrScanParams { max_depth: 1, ..params(0x20048) }, &mut p);
    assert_eq!(shallow.len(), 1);
    let near = proc.scan(PtrScanParams { max_offset: 8, ..params(0x20048) }, &mut p);
    assert_eq!(near.len(), 1);
    assert_eq!(near[0].offsets, vec![8, 8]);
    let one = proc.scan(PtrScanParams { max_results: 1, ..params(0x20048) }, &mut p);
    assert_eq!(one.len(), 1);
    let none = proc.scan(PtrScanParams { max_results: 0, ..params(0x20048) }, &mut p);
    assert!(none.is_empty());
    let odd = proc.scan(PtrScanParams { alignment: 7, ..params(0x20048) }, &mut p);
    assert!(odd.is_empty());
    let fine = proc.scan(PtrScanParams { alignment: 0, ..params(0x20048) }, &mut p);
    assert!(fine.len() >= 2);
}

#[test]
fn a_search_for_pointers_can_be_stopped() {
    let proc = Process::new();
    let mut p = ScanProgress::new(3);
    p.request_cancel();
    assert!(proc.scan(params(0x20048), &mut p).is_empty());
    assert_eq!(p.done, 0);
}

#[test]
fn chains_that_break_lead_nowhere() {
    let proc = Process::new();
    assert_eq!(proc.follow(0x1000, &path("g", 0x20, vec![])), None);
    assert_eq!(proc.follow(0x7777_0000, &path("g", 0x20, vec![0])), None);
    assert_eq!(proc.follow(0x1000, &path("g", 0x20, vec![0x9999, 0])), None);
    assert_eq!(proc.follow(0x1000, &path("g", 0x20, vec![4])), Some(0x8014));
    assert_eq!(proc.follow(0x1000, &path("g", 0x20, vec![u64::MAX])), Some(0x800f));
}

#[test]
fn orders_are_stable() {
    let keys = vec![5, 1, 5, 0, 1];
    assert_eq!(order::sorted_order(&keys), vec![3, 1, 4, 0, 2]);
    assert_eq!(order::descending_order(&keys), vec![0, 2, 1, 4, 3]);
    assert_eq!(order::sorted_order(&vec![]), Vec::<usize>::new());
    let rising = vec![1, 3, 3, 7];
    assert_eq!(order::count_below(&rising, 3), 1);
    assert_eq!(order::count_below(&rising, 8), 4);
    assert_eq!(order::find_up_to(&rising, 3), Some(2));
    assert_eq!(order::find_up_to(&rising, 0), None);
    assert_eq!(order::find_up_to(&rising, u64::MAX), Some(3));
}
