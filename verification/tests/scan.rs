use vmem::{Error, IoError, MapRegion, Pattern, Process, ReadRequest, Step};

const MB: usize = 1 << 20;

fn target() -> Process {
    Process::by_pid(7, true).unwrap()
}

fn region(start: usize, end: usize, perms: &str, path: Option<&str>) -> MapRegion {
    MapRegion {
        start,
        end,
        perms: perms.to_string(),
        path: path.map(|p| p.to_string()),
    }
}

/// Memory that starts at `base`; a read that touches one of `holes` fails.
struct Memory {
    base: usize,
    bytes: Vec<u8>,
    holes: Vec<usize>,
}

impl Memory {
    fn read(&self, req: ReadRequest) -> Result<Vec<u8>, Error> {
        let from = req.addr - self.base;
        let to = from + req.len;
        if to > self.bytes.len() || self.holes.iter().any(|&h| from <= h && h < to) {
            return Err(Error::Unmapped {
                addr: req.addr,
                len: req.len,
            });
        }
        Ok(self.bytes[from..to].to_vec())
    }

    fn scan_region(&self, r: &MapRegion, p: &Pattern) -> Result<Option<usize>, Error> {
        let mut step = target().scan_region(r, p);
        loop {
            step = match step {
                Step::Done(result) => return result,
                Step::Do(req, scan) => scan.resume(self.read(req)),
            };
        }
    }

    fn scan_region_all(&self, r: &MapRegion, p: &Pattern) -> Result<Vec<usize>, Error> {
        let mut step = target().scan_region_all(r, p);
        loop {
            step = match step {
                Step::Done(result) => return result,
                Step::Do(req, scan) => scan.resume(self.read(req)),
            };
        }
    }

    fn scan(&self, maps: &[MapRegion], sig: &str) -> Result<Option<usize>, Error> {
        self.drive(target().scan(sig)?.resume(Ok(maps.to_vec())))
    }

    fn scan_module(&self, maps: &[MapRegion], m: &str, sig: &str) -> Result<Option<usize>, Error> {
        let find = target().scan_module(m, sig)?;
        let list = find.resume(Ok(maps.to_vec()))?;
        self.drive(list.resume(Ok(maps.to_vec())))
    }

    fn scan_code(&self, maps: &[MapRegion], m: &str, sig: &str) -> Result<Option<usize>, Error> {
        let find = target().scan_code(m, sig)?;
        let list = find.resume(Ok(maps.to_vec()))?;
        self.drive(list.resume(Ok(maps.to_vec())))
    }

    fn drive(
        &self,
        step: Step<MapRegion, vmem::Scan, Result<Option<usize>, Error>>,
    ) -> Result<Option<usize>, Error> {
        let mut step = step;
        loop {
            step = match step {
                Step::Done(result) => return result,
                Step::Do(r, scan) => {
                    let reply = self.scan_region(&r, scan.pattern());
                    scan.resume(reply)
                }
            };
        }
    }

    fn scan_all(&self, maps: &[MapRegion], sig: &str) -> Result<Vec<usize>, Error> {
        let mut step = target().scan_all(sig)?.resume(Ok(maps.to_vec()));
        loop {
            step = match step {
                Step::Done(result) => return result,
                Step::Do(r, scan) => {
                    let reply = self.scan_region_all(&r, scan.pattern());
                    scan.resume(reply)
                }
            };
        }
    }
}

#[test]
fn pattern_parse_and_match() {
    let p = Pattern::parse("48 8B ?? 89").unwrap();
    assert_eq!(p.len(), 4);
    let hay = [0x00, 0x48, 0x8B, 0xFF, 0x89, 0x00];
    assert_eq!(p.first_match(&hay), Some(1));
}

#[test]
fn pattern_no_match() {
    let p = Pattern::parse("DE AD BE EF").unwrap();
    assert_eq!(p.first_match(&[0, 1, 2, 3]), None);
}

#[test]
fn pattern_star_wildcards() {
    // ?, ??, *, ** all mean "any byte"
    let p = Pattern::parse("48 * 89 ** ?").unwrap();
    assert_eq!(p.len(), 5);
    let hay = [0x48, 0x11, 0x89, 0x22, 0x33];
    assert!(p.first_match(&hay).is_some());
    let bad = [0x48, 0x11, 0x8A, 0x22, 0x33]; // 0x89 byte differs
    assert!(p.first_match(&bad).is_none());
}

#[test]
fn pattern_parse_rejects_bad_token() {
    assert!(matches!(
        Pattern::parse("48 ZZ"),
        Err(Error::InvalidPattern(_))
    ));
    assert!(matches!(
        Pattern::from_mask(b"\x48", "xx"),
        Err(Error::InvalidPattern(_))
    ));
}

#[test]
fn pattern_from_mask_and_all() {
    let p = Pattern::from_mask(b"\x48\x8B\x00\x89", "xx?x").unwrap();
    assert_eq!(p.len(), 4);
    let hay = [0x48, 0x8B, 0x11, 0x89, 0x48, 0x8B, 0xFF, 0x89];
    assert_eq!(p.all_matches(&hay), vec![0, 4]);
}

#[test]
fn tokens_have_two_digits() {
    for bad in ["5", "+F", "0FF", "???", "4?", "0x"] {
        match Pattern::parse(&format!("90 {bad} zz")) {
            Err(Error::InvalidPattern(m)) => assert_eq!(m, format!("bad token '{bad}'")),
            _ => panic!("must be rejected"),
        }
    }
    let p = Pattern::parse("  aB\tCd\n").unwrap();
    assert_eq!(p.first_match(&[0xAB, 0xCD]), Some(0));
}

#[test]
fn empty_pattern_matches_nowhere() {
    let p = Pattern::parse(" \t ").unwrap();
    assert!(p.is_empty());
    assert_eq!(p.first_match(&[1, 2]), None);
    assert!(p.all_matches(&[1, 2]).is_empty());
    let q = Pattern::from_mask(&[], "").unwrap();
    assert!(q.is_empty());
}

#[test]
fn masks_of_other_characters() {
    let p = Pattern::from_mask(&[1, 2, 3], "XzX").unwrap();
    assert_eq!(p.first_match(&[1, 9, 3]), Some(0));
    // lengths are counted in bytes, positions in characters
    let q = Pattern::from_mask(&[1, 2, 3], "x\u{e4}").unwrap();
    assert_eq!(q.len(), 2);
    match Pattern::from_mask(&[1], "\u{e4}") {
        Err(Error::InvalidPattern(m)) => assert_eq!(m, "pattern and mask differ in length"),
        _ => panic!("must be rejected"),
    }
}

#[test]
fn overlapping_matches_are_all_found() {
    let p = Pattern::parse("AA AA").unwrap();
    assert_eq!(p.all_matches(&[0xAA; 4]), vec![0, 1, 2]);
    assert!(p.matches_at(&[0xAA; 4], 2));
    assert!(!p.clone().matches_at(&[0xAA, 0xAA, 0xAB], 1));
}

#[test]
fn scan_region_finds_known_needle() {
    let mut data = vec![0xABu8; 64 * 1024];
    let needle = [0x11u8, 0x22, 0x33, 0x44, 0x55, 0x66, 0x77, 0x88];
    let at = 40_000;
    data[at..at + needle.len()].copy_from_slice(&needle);
    let addr = 0x7000_0000;
    let r = region(addr, addr + data.len(), "rw-p", None);
    let mem = Memory {
        base: addr,
        bytes: data,
        holes: vec![],
    };
    let pat = Pattern::parse("11 22 33 44 55 66 77 88").unwrap();
    let all = mem.scan_region_all(&r, &pat).unwrap();
    assert!(all.contains(&(addr + at)));
    // first match is the lowest hit address
    assert_eq!(mem.scan_region(&r, &pat).unwrap(), all.first().copied());
}

#[test]
fn scan_region_all_spans_chunk_boundaries() {
    let size = 2 * MB + 8192;
    let mut data = vec![0xABu8; size];
    let needle = [0x11u8, 0x22, 0x33, 0x44, 0x55, 0x66, 0x77, 0x88];
    let offsets = [64usize, MB - 3, MB + 64, 2 * MB - 5];
    for &o in &offsets {
        data[o..o + needle.len()].copy_from_slice(&needle);
    }
    let addr = 0x7000_0000;
    let r = region(addr, addr + size, "r--p", None);
    let mem = Memory {
        base: addr,
        bytes: data,
        holes: vec![],
    };
    let pat = Pattern::parse("11 22 33 44 55 66 77 88").unwrap();
    let all = mem.scan_region_all(&r, &pat).unwrap();
    for &o in &offsets {
        assert!(all.contains(&(addr + o)), "missing needle at +{o:#x}");
    }
    assert_eq!(all.len(), offsets.len());
    assert_eq!(mem.scan_region(&r, &pat).unwrap(), all.first().copied());
}

#[test]
fn holes_are_skipped_and_matches_do_not_cross_them() {
    let mut data = vec![0u8; 3 * MB];
    // straddles the boundary to the unreadable chunk
    data[MB - 1] = 0xDE;
    data[MB] = 0xAD;
    data[2 * MB] = 0xDE;
    data[2 * MB + 1] = 0xAD;
    let mem = Memory {
        base: 0x1000,
        bytes: data,
        holes: vec![MB + 17],
    };
    let r = region(0x1000, 0x1000 + 3 * MB, "r--p", None);
    let pat = Pattern::parse("DE AD").unwrap();
    assert_eq!(mem.scan_region(&r, &pat).unwrap(), Some(0x1000 + 2 * MB));
    assert_eq!(
        mem.scan_region_all(&r, &pat).unwrap(),
        vec![0x1000 + 2 * MB]
    );
}

#[test]
fn hard_errors_end_a_scan() {
    let r = region(0, 16, "r--p", None);
    let pat = Pattern::parse("00").unwrap();
    match target().scan_region(&r, &pat) {
        Step::Do(req, scan) => {
            assert_eq!(req, ReadRequest { addr: 0, len: 16 });
            assert!(matches!(
                scan.resume(Err(Error::Permission { pid: 7 })),
                Step::Done(Err(Error::Permission { pid: 7 }))
            ));
        }
        Step::Done(_) => panic!("must read"),
    }
    match target().scan_region_all(&r, &pat) {
        Step::Do(_, scan) => assert!(matches!(
            scan.resume(Err(Error::Io(IoError::Os(3)))),
            Step::Done(Err(Error::Io(IoError::Os(3))))
        )),
        Step::Done(_) => panic!("must read"),
    }
    match target().scan_region(&r, &pat) {
        Step::Do(_, scan) => assert!(matches!(
            scan.resume(Err(Error::Partial {
                addr: 0,
                wanted: 16,
                moved: 3
            })),
            Step::Done(Ok(None))
        )),
        Step::Done(_) => panic!("must read"),
    }
}

#[test]
fn nothing_to_scan() {
    let pat = Pattern::parse("00").unwrap();
    let none = Pattern::parse("").unwrap();
    for (r, p) in [
        (region(0, 16, "-w-p", None), &pat),
        (region(0, 16, "r--p", None), &none),
        (region(16, 16, "r--p", None), &pat),
    ] {
        assert!(matches!(target().scan_region(&r, p), Step::Done(Ok(None))));
        match target().scan_region_all(&r, p) {
            Step::Done(Ok(v)) => assert!(v.is_empty()),
            _ => panic!("must be done"),
        }
    }
}

fn layout() -> (Memory, Vec<MapRegion>) {
    let mut bytes = vec![0u8; 0x600];
    for at in [0x180, 0x280, 0x380, 0x480] {
        bytes[at] = 0xDE;
        bytes[at + 1] = 0xAD;
    }
    let mem = Memory {
        base: 0,
        bytes,
        holes: vec![],
    };
    let maps = vec![
        region(0x400, 0x500, "r--p", None),
        region(0x100, 0x200, "---p", Some("/opt/game")),
        region(0x200, 0x300, "r--p", None),
        region(0x300, 0x400, "r--p", Some("/opt/game")),
        region(0x500, 0x600, "r-xp", Some("/opt/game")),
    ];
    (mem, maps)
}

#[test]
fn search_takes_the_first_region_that_hits() {
    let (mem, maps) = layout();
    assert_eq!(mem.scan(&maps, "DE AD").unwrap(), Some(0x480));
    assert_eq!(mem.scan(&maps, "DE AE").unwrap(), None);
    assert!(matches!(
        mem.scan(&maps, "XX"),
        Err(Error::InvalidPattern(_))
    ));
}

#[test]
fn search_in_a_module_looks_at_its_file_backed_regions() {
    let (mem, maps) = layout();
    // the anonymous regions within the span are not looked at
    assert_eq!(mem.scan_module(&maps, "game", "DE AD").unwrap(), Some(0x380));
    match mem.scan_module(&maps, "other", "DE AD") {
        Err(Error::ModuleNotFound { module, pid, .. }) => {
            assert_eq!((module.as_str(), pid), ("other", 7))
        }
        _ => panic!("must not be found"),
    }
}

#[test]
fn search_in_a_module_looks_at_every_region_with_a_path() {
    let (mem, mut maps) = layout();
    // the first region holds a match, and a name makes it one of the span's
    maps[0].path = Some("socket:[99]".to_string());
    assert_eq!(mem.scan_module(&maps, "game", "DE AD").unwrap(), Some(0x480));
}

#[test]
fn search_in_code_looks_at_executable_regions() {
    let (mut mem, maps) = layout();
    assert_eq!(mem.scan_code(&maps, "game", "DE AD").unwrap(), None);
    mem.bytes[0x510] = 0xDE;
    mem.bytes[0x511] = 0xAD;
    assert_eq!(mem.scan_code(&maps, "game", "DE AD").unwrap(), Some(0x510));
}

#[test]
fn all_matches_come_ascending_and_once() {
    let (mem, mut maps) = layout();
    maps.push(region(0x380, 0x400, "r--p", None));
    assert_eq!(
        mem.scan_all(&maps, "DE AD").unwrap(),
        vec![0x280, 0x380, 0x480]
    );
    assert!(mem.scan_all(&[], "DE AD").unwrap().is_empty());
    assert!(matches!(
        mem.scan_all(&maps, "D"),
        Err(Error::InvalidPattern(_))
    ));
}

#[test]
fn scan_gives_the_first_of_all_matches() {
    let (mem, mut maps) = layout();
    maps.sort_by_key(|r| r.start);
    for sig in ["DE AD", "00 ?? DE", "EE"] {
        assert_eq!(
            mem.scan(&maps, sig).unwrap(),
            mem.scan_all(&maps, sig).unwrap().first().copied()
        );
    }
    match (mem.scan(&maps, "DE Q1"), mem.scan_all(&maps, "DE Q1")) {
        (Err(Error::InvalidPattern(a)), Err(Error::InvalidPattern(b))) => assert_eq!(a, b),
        _ => panic!("must both be rejected"),
    }
}

#[test]
fn unreadable_maps_end_a_search() {
    let gone = || Err(Error::Io(IoError::Os(3)));
    assert!(matches!(
        target().scan("00").unwrap().resume(gone()),
        Step::Done(Err(Error::Io(IoError::Os(3))))
    ));
    assert!(matches!(
        target().scan_all("00").unwrap().resume(gone()),
        Step::Done(Err(Error::Io(IoError::Os(3))))
    ));
    assert!(matches!(
        target().scan_code("game", "00").unwrap().resume(gone()),
        Err(Error::Io(IoError::Os(3)))
    ));
}

#[test]
fn rip_relative_references() {
    // 48 8B 05 disp32 at 0x1000
    let (req, s) = target().resolve_rip(0x1000, 3, 7);
    assert_eq!(req, ReadRequest { addr: 0x1003, len: 4 });
    assert_eq!(
        s.resume(Ok(0x20i32.to_le_bytes().to_vec())).unwrap(),
        0x1027
    );
    let (_, s) = target().resolve_rip(0x1000, 3, 7);
    assert_eq!(
        s.resume(Ok((-0x1007i32).to_le_bytes().to_vec())).unwrap(),
        0
    );
    let (_, s) = target().resolve_rip(0, 3, 7);
    assert_eq!(
        s.resume(Ok((-8i32).to_le_bytes().to_vec())).unwrap(),
        usize::MAX
    );
    let (_, s) = target().resolve_rip(0, 3, 7);
    assert!(matches!(
        s.resume(Err(Error::Unmapped { addr: 3, len: 4 })),
        Err(Error::Unmapped { addr: 3, len: 4 })
    ));
}
