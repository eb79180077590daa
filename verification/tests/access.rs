use vmem::kernel_driver::{iowr, rw, Direction, VmemIo, MAX_LEN, VMEM_RW};
use vmem::{
    backend, classify, sys, text, Error, IoError, MemEvent, Process, ReadRequest, Step, WriteCall,
};

fn target() -> Process {
    Process::by_pid(7, true).unwrap()
}

#[test]
fn classify_maps_errno_to_error() {
    assert!(matches!(
        classify(7, 0, 0, libc::EPERM),
        Error::Permission { pid: 7 }
    ));
    assert!(matches!(
        classify(7, 0, 0, libc::EACCES),
        Error::Permission { pid: 7 }
    ));
    assert!(matches!(
        classify(0, 0x1000, 16, libc::EFAULT),
        Error::Unmapped {
            addr: 0x1000,
            len: 16,
            ..
        }
    ));
    assert!(matches!(
        classify(0, 0, 0, libc::EIO),
        Error::Unmapped { .. }
    ));
    assert!(matches!(
        classify(0, 0, 0, libc::ENOMEM),
        Error::Unmapped { .. }
    ));
    // ESRCH is deliberately NOT Unmapped: it falls through to Io, so both
    // backends classify an errno identically.
    assert!(matches!(classify(0, 0, 0, libc::ESRCH), Error::Io(_)));
}

#[test]
fn error_numbers_are_those_of_the_system() {
    assert_eq!(sys::EPERM, libc::EPERM);
    assert_eq!(sys::EINTR, libc::EINTR);
    assert_eq!(sys::EIO, libc::EIO);
    assert_eq!(sys::ENOMEM, libc::ENOMEM);
    assert_eq!(sys::EACCES, libc::EACCES);
    assert_eq!(sys::EFAULT, libc::EFAULT);
}

#[test]
fn vmem_rw_abi_constant_is_stable() {
    assert_eq!(std::mem::size_of::<VmemIo>(), 32);
    assert_eq!(VMEM_RW, 0xC020_5600);
}

#[test]
fn ioctl_numbers() {
    assert_eq!(iowr(0, 32), VMEM_RW);
    assert_eq!(iowr(1, 8), 0xC008_5601);
}

#[test]
fn reads_of_nothing_succeed_at_once() {
    assert!(matches!(
        target().read_bytes(0x10, 0),
        Step::Done(Ok(()))
    ));
    assert!(matches!(
        target().write_bytes(0x10, &[]),
        Step::Done(Ok(()))
    ));
    match target().read_vec(0x10, 0) {
        Step::Done(Ok(v)) => assert!(v.is_empty()),
        _ => panic!("must be done"),
    }
}

#[test]
fn read_outcomes() {
    let start = |n: isize, errno: i32| match target().read_bytes(0x1000, 8) {
        Step::Do(req, t) => {
            assert_eq!(req, ReadRequest { addr: 0x1000, len: 8 });
            t.resume(n, errno)
        }
        Step::Done(_) => panic!("must ask for a read"),
    };
    assert!(start(8, 0).is_ok());
    assert!(matches!(
        start(3, 0),
        Err(Error::Partial {
            addr: 0x1000,
            wanted: 8,
            moved: 3,
            ..
        })
    ));
    assert!(matches!(start(-1, 1), Err(Error::Permission { pid: 7 })));
    assert!(matches!(
        start(-1, 14),
        Err(Error::Unmapped {
            addr: 0x1000,
            len: 8,
            ..
        })
    ));
    assert!(matches!(start(-1, 3), Err(Error::Io(IoError::Os(3)))));
}

#[test]
fn read_vec_hands_the_buffer_back() {
    match target().read_vec(0x20, 3) {
        Step::Do(req, r) => {
            assert_eq!(req, ReadRequest { addr: 0x20, len: 3 });
            assert_eq!(r.resume(3, 0, vec![1, 2, 3]).unwrap(), vec![1, 2, 3]);
        }
        Step::Done(_) => panic!("must ask for a read"),
    }
    match target().read_vec(0x20, 3) {
        Step::Do(_, r) => assert!(matches!(
            r.resume(2, 0, vec![1, 2, 0]),
            Err(Error::Partial { moved: 2, .. })
        )),
        Step::Done(_) => panic!("must ask for a read"),
    }
}

#[test]
fn mem_file_outcomes() {
    let (req, t) = target().read_bytes_mem(0x1234, 4);
    assert_eq!(req.path, "/proc/7/mem");
    assert_eq!(req.offset, 0x1234);
    assert_eq!(req.len, 4);
    assert!(matches!(
        t.resume(MemEvent::OpenFailed(IoError::Os(13))),
        Err(Error::Permission { pid: 7 })
    ));
    let (_, t) = target().read_bytes_mem(0x1234, 4);
    assert!(matches!(
        t.resume(MemEvent::OpenFailed(IoError::Os(2))),
        Err(Error::Io(IoError::Os(2)))
    ));
    let (_, t) = target().read_bytes_mem(0x1234, 4);
    assert!(matches!(
        t.resume(MemEvent::SeekFailed(IoError::Os(22))),
        Err(Error::Io(IoError::Os(22)))
    ));
    let (_, t) = target().read_bytes_mem(0x1234, 4);
    assert!(matches!(
        t.resume(MemEvent::MoveFailed(IoError::Os(5))),
        Err(Error::Unmapped {
            addr: 0x1234,
            len: 4,
            ..
        })
    ));
    // a bad address means "unmapped" only for a write
    let (_, t) = target().read_bytes_mem(0x1234, 4);
    assert!(matches!(
        t.resume(MemEvent::MoveFailed(IoError::Os(14))),
        Err(Error::Io(IoError::Os(14)))
    ));
    let (req, t) = target().write_bytes_mem(0x1234, &[9, 8]);
    assert_eq!(req.bytes, vec![9, 8]);
    assert!(matches!(
        t.resume(MemEvent::MoveFailed(IoError::Os(14))),
        Err(Error::Unmapped {
            addr: 0x1234,
            len: 2,
            ..
        })
    ));
    let (_, t) = target().write_bytes_mem(0x1234, &[9, 8]);
    assert!(t.resume(MemEvent::Moved).is_ok());
}

#[test]
fn forced_write_falls_back_once() {
    let (call, s) = target().write_force(0x40, &[1, 2]);
    match call {
        WriteCall::Bytes(w) => assert_eq!((w.addr, w.bytes), (0x40, vec![1, 2])),
        WriteCall::Mem(_) => panic!("must try the fast path first"),
    }
    let s = match s.resume(Err(Error::Unmapped { addr: 0x40, len: 2 })) {
        Step::Do(WriteCall::Mem(w), s) => {
            assert_eq!((w.addr, w.bytes), (0x40, vec![1, 2]));
            s
        }
        _ => panic!("must fall back"),
    };
    assert!(matches!(
        s.resume(Err(Error::Unmapped { addr: 0x40, len: 2 })),
        Step::Done(Err(Error::Unmapped { .. }))
    ));
    let (_, s) = target().write_force(0x40, &[1]);
    assert!(matches!(
        s.resume(Err(Error::Permission { pid: 7 })),
        Step::Done(Err(Error::Permission { pid: 7 }))
    ));
    let (_, s) = target().write_force(0x40, &[1]);
    assert!(matches!(s.resume(Ok(())), Step::Done(Ok(()))));
}

fn cstring(mem: &[u8], base: usize, addr: usize, max: usize) -> Result<String, Error> {
    let mut step = target().read_cstring(addr, max);
    loop {
        match step {
            Step::Done(r) => return r,
            Step::Do(req, s) => {
                let from = req.addr.wrapping_sub(base);
                let reply = if from <= mem.len() && req.len <= mem.len() - from {
                    Ok(mem[from..from + req.len].to_vec())
                } else {
                    Err(Error::Unmapped {
                        addr: req.addr,
                        len: req.len,
                    })
                };
                step = s.resume(reply);
            }
        }
    }
}

#[test]
fn self_read_cstring() {
    // the mapping ends right behind the bytes
    let mem = b"hello\0world";
    let addr = 0x2000 - mem.len();
    assert_eq!(cstring(mem, addr, addr, 64).unwrap(), "hello");
}

#[test]
fn short_string_at_the_end_of_a_mapping() {
    let mem = b"hi\0.....";
    assert_eq!(cstring(mem, 0x1FF8, 0x1FF8, 64).unwrap(), "hi");
    // without a NUL, the string ends with the mapping
    assert_eq!(cstring(b"hi", 0x1FFE, 0x1FFE, 64).unwrap(), "hi");
    // a later chunk does not run off the mapping either
    let mut long = vec![b'z'; 70];
    long[68] = 0;
    let addr = 0x3000 - 70;
    assert_eq!(cstring(&long, addr, addr, 500).unwrap(), "z".repeat(68));
}

#[test]
fn chunks_stay_within_a_page() {
    match target().read_cstring(0x1FF0, 100) {
        Step::Do(req, s) => {
            assert_eq!(req, ReadRequest { addr: 0x1FF0, len: 16 });
            match s.resume(Ok(vec![1; 16])) {
                Step::Do(req, s) => {
                    assert_eq!(req, ReadRequest { addr: 0x2000, len: 64 });
                    match s.resume(Ok(vec![1; 64])) {
                        Step::Do(req, _) => {
                            assert_eq!(req, ReadRequest { addr: 0x2040, len: 20 })
                        }
                        Step::Done(_) => panic!("must go on"),
                    }
                }
                Step::Done(_) => panic!("must go on"),
            }
        }
        Step::Done(_) => panic!("must read"),
    }
}

#[test]
fn strings_across_chunks_and_to_the_limit() {
    let mut mem = vec![b'a'; 200];
    assert_eq!(cstring(&mem, 0, 0, 150).unwrap(), "a".repeat(150));
    mem[130] = 0;
    assert_eq!(cstring(&mem, 0, 0, 200).unwrap(), "a".repeat(130));
    assert_eq!(cstring(&mem, 0, 0, 0).unwrap(), "");
}

#[test]
fn unreadable_chunk_ends_a_string_unless_it_is_the_first() {
    let mem = vec![b'x'; 100];
    // the second chunk of 64 bytes runs off the end
    assert_eq!(cstring(&mem, 0x1000, 0x1000, 500).unwrap(), "x".repeat(64));
    assert!(matches!(
        cstring(&mem, 0x1000, 0x5000, 10),
        Err(Error::Unmapped {
            addr: 0x5000,
            len: 10,
            ..
        })
    ));
    // any error of a later chunk ends the string
    let s = match target().read_cstring(0, 128) {
        Step::Do(_, s) => s,
        Step::Done(_) => panic!("must read"),
    };
    let s = match s.resume(Ok(vec![b'y'; 64])) {
        Step::Do(req, s) => {
            assert_eq!(req, ReadRequest { addr: 64, len: 64 });
            s
        }
        Step::Done(_) => panic!("must go on"),
    };
    match s.resume(Err(Error::Permission { pid: 7 })) {
        Step::Done(Ok(t)) => assert_eq!(t, "y".repeat(64)),
        _ => panic!("must end the string"),
    }
}

#[test]
fn strings_decode_lossily() {
    let mut mem = vec![b'a', 0xFF, 0xC3, 0xA4, 0];
    mem.resize(64, 0);
    assert_eq!(cstring(&mem, 0, 0, 64).unwrap(), "a\u{FFFD}\u{e4}");
}

#[test]
fn string_addresses_wrap() {
    match target().read_cstring(usize::MAX - 63, 100) {
        Step::Do(_, s) => match s.resume(Ok(vec![1; 64])) {
            Step::Do(req, _) => assert_eq!(req, ReadRequest { addr: 0, len: 36 }),
            Step::Done(_) => panic!("must go on"),
        },
        Step::Done(_) => panic!("must read"),
    }
}

#[test]
fn driver_transfers_in_chunks() {
    assert!(matches!(
        rw(7, 0, 0, 0, Direction::Read),
        Step::Done(Ok(()))
    ));
    let (req, s) = match rw(7, 0x1000, 0x9000, MAX_LEN + 5, Direction::Write) {
        Step::Do(req, s) => (req, s),
        Step::Done(_) => panic!("must move something"),
    };
    assert_eq!(
        req,
        VmemIo {
            pid: 7,
            write: 1,
            addr: 0x1000,
            len: MAX_LEN as u64,
            ubuf: 0x9000
        }
    );
    let (req, s) = match s.resume(MAX_LEN as isize, 0) {
        Step::Do(req, s) => (req, s),
        Step::Done(_) => panic!("must go on"),
    };
    assert_eq!(
        req,
        VmemIo {
            pid: 7,
            write: 1,
            addr: 0x1000 + MAX_LEN as u64,
            len: 5,
            ubuf: 0x9000 + MAX_LEN as u64
        }
    );
    assert!(matches!(s.resume(5, 0), Step::Done(Ok(()))));
}

#[test]
fn driver_failures() {
    let start = || match rw(7, 0x1000, 0, MAX_LEN + 5, Direction::Read) {
        Step::Do(req, s) => {
            assert_eq!(req.write, 0);
            s
        }
        Step::Done(_) => panic!("must move something"),
    };
    assert!(matches!(
        start().resume(-1, 14),
        Step::Done(Err(Error::Unmapped { addr: 0x1000, .. }))
    ));
    match start().resume(10, 0) {
        Step::Done(Err(Error::Partial {
            addr,
            wanted,
            moved,
            ..
        })) => assert_eq!((addr, wanted, moved), (0x1000, MAX_LEN + 5, 10)),
        _ => panic!("must be partial"),
    }
    let second = match start().resume(MAX_LEN as isize, 0) {
        Step::Do(_, s) => s,
        Step::Done(_) => panic!("must go on"),
    };
    match second.resume(-1, 14) {
        Step::Done(Err(Error::Partial {
            addr,
            wanted,
            moved,
            ..
        })) => assert_eq!((addr, wanted, moved), (0x1000, MAX_LEN + 5, MAX_LEN)),
        _ => panic!("must be partial"),
    }
    assert!(Direction::Write.is_write());
    assert!(!Direction::Read.is_write());
}

#[test]
fn backends_give_the_same_outcome() {
    for (n, errno) in [(8, 0), (3, 0), (0, 0), (-1, 1), (-1, 14), (-1, 3)] {
        let by_call = match target().read_bytes(0x1000, 8) {
            Step::Do(_, t) => t.resume(n, errno),
            Step::Done(_) => panic!("must ask for a read"),
        };
        let by_driver = match rw(7, 0x1000, 0, 8, Direction::Read) {
            Step::Do(_, s) => match s.resume(n, errno) {
                Step::Done(r) => r,
                Step::Do(_, _) => panic!("must be done"),
            },
            Step::Done(_) => panic!("must move something"),
        };
        assert_eq!(format!("{by_call:?}"), format!("{by_driver:?}"));
    }
}

#[test]
fn backend_selection() {
    assert!(matches!(
        backend::select(Some("syscall")),
        Step::Done(backend::Backend::Syscall)
    ));
    for var in [None, Some("kernel"), Some("other")] {
        match backend::select(var) {
            Step::Do(path, probe) => {
                assert_eq!(path, "/dev/vmem");
                assert_eq!(probe.resume(true), backend::Backend::Kernel);
            }
            Step::Done(_) => panic!("must try the device"),
        }
    }
    match backend::select(None) {
        Step::Do(_, probe) => assert_eq!(probe.resume(false), backend::Backend::Syscall),
        Step::Done(_) => panic!("must try the device"),
    }
}

#[test]
fn errors_in_words() {
    let said = |e: Error| e.message().unwrap();
    assert_eq!(
        said(Error::ProcessNotFound("game".to_string())),
        "process 'game' not found"
    );
    assert_eq!(
        said(Error::ModuleNotFound {
            module: "lib.so".to_string(),
            pid: 12
        }),
        "module 'lib.so' not found in pid 12"
    );
    assert_eq!(
        said(Error::Permission { pid: -3 }),
        "permission denied accessing pid -3 (check /proc/sys/kernel/yama/ptrace_scope or grant cap_sys_ptrace)"
    );
    assert_eq!(
        said(Error::Unmapped {
            addr: 0xDEAD,
            len: 16
        }),
        "address 0xdead (+16) is not fully mapped in the target"
    );
    assert_eq!(
        said(Error::Partial {
            addr: 0,
            wanted: 8,
            moved: 3
        }),
        "partial transfer at 0x0: wanted 8 bytes, moved 3"
    );
    assert_eq!(
        said(Error::PatternNotFound("90 ??".to_string())),
        "pattern '90 ??' not found"
    );
    assert_eq!(
        said(Error::InvalidPattern("bad token 'zz'".to_string())),
        "invalid pattern: bad token 'zz'"
    );
    assert_eq!(
        said(Error::BranchTooFar { from: 1, to: 0xFF }),
        "rel32 from 0x1 to 0xff is out of range; use an absolute jmp"
    );
    assert_eq!(
        said(Error::PatchTooSmall { need: 14, got: 5 }),
        "patch region of 5 byte(s) is too small; need at least 14"
    );
    assert_eq!(said(Error::Io(IoError::Other("gone".to_string()))), "gone");
    assert_eq!(
        said(Error::Io(IoError::UnexpectedEof("short".to_string()))),
        "short"
    );
    assert_eq!(
        said(Error::Io(IoError::WriteZero("full".to_string()))),
        "full"
    );
    assert_eq!(
        said(Error::Io(IoError::InvalidData("not text".to_string()))),
        "not text"
    );
    assert!(Error::Io(IoError::Os(2)).message().is_none());
}

#[test]
fn white_space_is_that_of_unicode() {
    for u in 0..=0x10FFFFu32 {
        if let Some(c) = char::from_u32(u) {
            assert_eq!(text::is_whitespace(c), c.is_whitespace(), "U+{u:04X}");
        }
    }
}
