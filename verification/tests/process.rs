use vmem::process::{proc_dir, proc_file, NameStep};
use vmem::{Error, Process};

struct System {
    entries: Vec<&'static str>,
    comm: Vec<(i32, &'static str)>,
    cmdline: Vec<(i32, &'static [u8])>,
}

impl System {
    fn all_by_name(&self, name: &str) -> Vec<i32> {
        let entries = self.entries.iter().map(|e| e.to_string()).collect();
        let mut step = Process::all_by_name(name, Some(entries));
        loop {
            step = match step {
                NameStep::Done(v) => return v,
                NameStep::Comm(pid, s) => s.resume(
                    self.comm
                        .iter()
                        .find(|(p, _)| *p == pid)
                        .map(|(_, c)| c.to_string()),
                ),
                NameStep::Cmdline(pid, s) => s.resume(
                    self.cmdline
                        .iter()
                        .find(|(p, _)| *p == pid)
                        .map(|(_, c)| c.to_vec()),
                ),
            };
        }
    }
}

fn system() -> System {
    System {
        entries: vec!["self", "30", "4", "12x", "+7", "100", "-", "2147483648", "55"],
        comm: vec![
            (30, "game\n"),
            (4, "init\n"),
            (7, "a-very-long-nam\n"),
            (100, "sh\n"),
        ],
        cmdline: vec![
            (4, b"/sbin/init\0splash\0"),
            (7, b"/opt/bin/a-very-long-name\0--flag\0"),
            (100, b"/opt/games/game\0"),
            (55, b"\xFF\xFEgame\0"),
        ],
    }
}

#[test]
fn name_search() {
    assert_eq!(system().all_by_name("game"), vec![30, 100]);
    assert_eq!(system().all_by_name("a-very-long-name"), vec![7]);
    assert_eq!(system().all_by_name("a-very-long-nam"), vec![7]);
    assert_eq!(system().all_by_name("init"), vec![4]);
    assert!(system().all_by_name("none").is_empty());
    assert!(system().all_by_name("splash").is_empty());
}

#[test]
fn unreadable_proc_gives_nothing() {
    match Process::all_by_name("game", None) {
        NameStep::Done(v) => assert!(v.is_empty()),
        _ => panic!("must be done"),
    }
}

#[test]
fn lowest_match_is_taken() {
    assert_eq!(Process::by_name("game", &vec![30, 100]).unwrap().pid(), 30);
    match Process::by_name("game", &vec![]) {
        Err(Error::ProcessNotFound(n)) => assert_eq!(n, "game"),
        _ => panic!("must not be found"),
    }
}

#[test]
fn pid_is_checked() {
    assert_eq!(Process::by_pid(1234, true).unwrap().pid(), 1234);
    match Process::by_pid(-5, false) {
        Err(Error::ProcessNotFound(n)) => assert_eq!(n, "-5"),
        _ => panic!("must not be found"),
    }
}

#[test]
fn paths_under_proc() {
    assert_eq!(proc_dir(42), "/proc/42");
    assert_eq!(proc_file(42, "maps"), "/proc/42/maps");
    assert_eq!(Process::by_pid(42, true).unwrap().maps_path(), "/proc/42/maps");
}
