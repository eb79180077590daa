use vmem::maps::{module_has_extent, modules_have_extent};
use vmem::{Error, IoError, MapRegion, Module, Process};

const LISTING: &str = "\
7f10-7f20 r-xp 00000000 fe:01 42                         /usr/lib/libc.so.6
1000-2000 r--p 00000000 fe:01 7 /opt/game
2000-3000 r-xp 00001000 fe:01 7                          /opt/game
3000-4000 rw-p 00000000 00:00 0 \r
4000-5000 rw-p 00000000 00:00 0                          [heap]
9000-a000 r--p 00000000 fe:01 9                          /opt/with space (deleted)

nonsense
5000-zz r--p 00000000 00:00 0 /skipped
7f00-7f10 r--p 00000000 fe:01 42                         /usr/lib/libc.so.6";

fn target() -> Process {
    Process::by_pid(7, true).unwrap()
}

fn regions() -> Vec<MapRegion> {
    target().maps(Ok(LISTING.to_string())).unwrap()
}

#[test]
fn map_region_perm_helpers() {
    let r = MapRegion {
        start: 0x1000,
        end: 0x2000,
        perms: "r-xp".into(),
        path: None,
    };
    assert!(r.readable());
    assert!(!r.writable());
    assert!(r.executable());
    assert_eq!(r.len(), 0x1000);
    assert!(!r.is_empty());
}

#[test]
fn listing_is_parsed_line_by_line() {
    let v = regions();
    let spans: Vec<(usize, usize)> = v.iter().map(|r| (r.start, r.end)).collect();
    assert_eq!(
        spans,
        vec![
            (0x7f10, 0x7f20),
            (0x1000, 0x2000),
            (0x2000, 0x3000),
            (0x3000, 0x4000),
            (0x4000, 0x5000),
            (0x9000, 0xa000),
            (0x7f00, 0x7f10),
        ]
    );
    assert_eq!(v[0].perms, "r-xp");
    assert_eq!(v[1].path.as_deref(), Some("/opt/game"));
    assert_eq!(v[2].path.as_deref(), Some("/opt/game"));
    assert_eq!(v[3].path, None);
    // special regions are not file-backed
    assert_eq!(v[4].path, None);
    assert_eq!(v[5].path.as_deref(), Some("/opt/with space (deleted)"));
}

#[test]
fn only_empty_and_bracketed_names_are_no_path() {
    let listing = "\
1000-2000 rw-s 00000000 00:0e 12                         anon_inode:[perf_event]
2000-3000 rw-s 00000000 00:08 99                         socket:[99]
3000-4000 r-xp 00000000 00:00 0                          [vdso]
4000-5000 rw-p 00000000 00:00 0                          [anon:stack guard]
5000-6000 r--p 00000000 00:00 0                          [half
6000-7000 r--p 00000000 00:00 0
7000-8000 r--p 00000000 fe:01 7                          /opt/[game]";
    let v = target().maps(Ok(listing.to_string())).unwrap();
    let paths: Vec<Option<&str>> = v.iter().map(|r| r.path.as_deref()).collect();
    assert_eq!(
        paths,
        vec![
            Some("anon_inode:[perf_event]"),
            Some("socket:[99]"),
            None,
            None,
            Some("[half"),
            None,
            Some("/opt/[game]"),
        ]
    );
    // such a name resolves, though it is not listed as a file
    let m = target()
        .module("anon_inode:[perf_event]", Ok(v.clone()))
        .unwrap();
    assert_eq!((m.base, m.size), (0x1000, 0x1000));
    assert_eq!(m.path, "anon_inode:[perf_event]");
    let listed = target().modules(Ok(v)).unwrap();
    let paths: Vec<&str> = listed.iter().map(|m| m.path.as_str()).collect();
    assert_eq!(paths, vec!["/opt/[game]"]);
}

#[test]
fn unreadable_maps_are_an_error() {
    assert!(matches!(
        target().maps(Err(IoError::Os(3))),
        Err(Error::Io(IoError::Os(3)))
    ));
    assert!(target().maps(Ok(String::new())).unwrap().is_empty());
}

#[test]
fn module_spans_its_mappings() {
    let m = target().module("libc.so.6", Ok(regions())).unwrap();
    assert_eq!((m.base, m.size), (0x7f00, 0x20));
    assert_eq!(m.name, "libc.so.6");
    assert_eq!(m.path, "/usr/lib/libc.so.6");
    assert!(m.contains(0x7f00));
    assert!(m.contains(0x7f1f));
    assert!(!m.contains(0x7f20));
    assert!(!m.contains(0x7eff));
    let game = target().module("game", Ok(regions())).unwrap();
    assert_eq!((game.base, game.size), (0x1000, 0x2000));
}

#[test]
fn missing_module_is_an_error() {
    match target().module("[heap]", Ok(regions())) {
        Err(Error::ModuleNotFound { module, pid, .. }) => {
            assert_eq!((module.as_str(), pid), ("[heap]", 7))
        }
        _ => panic!("must not be found"),
    }
    assert!(matches!(
        target().module("game", Err(Error::Io(IoError::Os(3)))),
        Err(Error::Io(IoError::Os(3)))
    ));
}

#[test]
fn modules_are_listed_by_path() {
    let v = target().modules(Ok(regions())).unwrap();
    let got: Vec<(&str, &str, usize, usize)> = v
        .iter()
        .map(|m| (m.path.as_str(), m.name.as_str(), m.base, m.size))
        .collect();
    assert_eq!(
        got,
        vec![
            ("/opt/game", "game", 0x1000, 0x2000),
            (
                "/opt/with space (deleted)",
                "with space (deleted)",
                0x9000,
                0x1000
            ),
            ("/usr/lib/libc.so.6", "libc.so.6", 0x7f00, 0x20),
        ]
    );
    assert!(matches!(
        target().modules(Err(Error::Io(IoError::Os(3)))),
        Err(Error::Io(IoError::Os(3)))
    ));
}

#[test]
fn listed_modules_resolve_by_name() {
    for m in target().modules(Ok(regions())).unwrap() {
        let found = target().module(&m.name, Ok(regions())).unwrap();
        assert_eq!((found.base, found.size), (m.base, m.size));
        assert_eq!(found.clone().path, m.path);
    }
}

#[test]
fn extents_are_those_of_the_file() {
    let mut v = regions();
    assert!(module_has_extent(&v, "game") && modules_have_extent(&v));
    // a region that ends before it starts spoils only its own file
    v[5].end = v[5].start - 1;
    assert!(!module_has_extent(&v, "with space (deleted)"));
    assert!(!modules_have_extent(&v));
    assert!(module_has_extent(&v, "game"));
    assert!(module_has_extent(&v, "absent"));
    // another region of the file makes up for it
    let mut w = regions();
    w[1].end = w[1].start - 1;
    assert!(module_has_extent(&w, "game") && modules_have_extent(&w));
    assert_eq!(target().module("game", Ok(w)).unwrap().size, 0x2000);
}

#[test]
fn permissions_are_read_by_position() {
    let r = |perms: &str| MapRegion {
        start: 0,
        end: 0,
        perms: perms.to_string(),
        path: None,
    };
    assert!(r("-w--").writable() && !r("w---").writable());
    assert!(!r("").readable() && !r("r").writable() && !r("rw").executable());
    // a two-byte character takes two positions
    assert!(r("\u{e4}x").executable());
    assert!(r("r---").is_empty());
}

#[test]
fn module_at_the_end_of_the_address_space() {
    let m = Module {
        name: "top".to_string(),
        base: usize::MAX - 1,
        size: 10,
        path: "/top".to_string(),
    };
    assert!(m.contains(usize::MAX - 1));
    assert!(!m.contains(usize::MAX));
}

#[test]
fn copies_are_equal() {
    let r = &regions()[0];
    let c = r.clone();
    assert_eq!((r.start, r.end), (c.start, c.end));
    assert_eq!((&r.perms, &r.path), (&c.perms, &c.path));
}
