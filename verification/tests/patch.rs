use vmem::hook::{HookBuild, CAVE_LEN};
use vmem::remote::{MAP_FLAGS, SYS_MMAP, SYS_MUNMAP};
use vmem::tracer::{AwaitStop, Regs, Syscall, Tracer};
use vmem::{
    prot, Asm, CaveScan, Error, Hook, IoError, MapRegion, Patch, PatchRead, Process, ReadRequest,
    Reg, RemoteMem, Step, WriteRequest,
};

/// Memory that starts at `base`.
struct Memory {
    base: usize,
    bytes: Vec<u8>,
}

impl Memory {
    fn read(&self, req: ReadRequest) -> Result<Vec<u8>, Error> {
        let from = req.addr.wrapping_sub(self.base);
        if from > self.bytes.len() || req.len > self.bytes.len() - from {
            return Err(Error::Unmapped {
                addr: req.addr,
                len: req.len,
            });
        }
        Ok(self.bytes[from..from + req.len].to_vec())
    }

    fn write(&mut self, w: WriteRequest) -> Result<(), Error> {
        let from = w.addr.wrapping_sub(self.base);
        if from > self.bytes.len() || w.bytes.len() > self.bytes.len() - from {
            return Err(Error::Unmapped {
                addr: w.addr,
                len: w.bytes.len(),
            });
        }
        self.bytes[from..from + w.bytes.len()].copy_from_slice(&w.bytes);
        Ok(())
    }

    fn install<'p>(&mut self, start: (ReadRequest, PatchRead<'p>)) -> Result<Patch<'p>, Error> {
        let (req, wants) = start;
        let (w, writes) = wants.resume(self.read(req))?;
        writes.resume(self.write(w))
    }
}

fn target() -> Process {
    Process::by_pid(7, true).unwrap()
}

#[test]
fn patch_roundtrip_and_drop_restores() {
    let me = target();
    let mut mem = Memory {
        base: 0x1000,
        bytes: vec![0, 1, 2, 3, 4, 5, 6, 7],
    };
    let mut p = mem.install(me.patch(0x1000, &[0xAA, 0xBB])).unwrap();
    assert_eq!(&mem.bytes[..2], &[0xAA, 0xBB]);
    let (w, sw) = p.disable();
    let done = mem.write(w);
    p.settle(sw, done).unwrap();
    assert_eq!(&mem.bytes[..2], &[0, 1]);
    assert!(p.on_drop().is_none());
    let (w, sw) = p.enable();
    let done = mem.write(w);
    p.settle(sw, done).unwrap();
    assert_eq!(&mem.bytes[..2], &[0xAA, 0xBB]);
    // drop restores original
    mem.write(p.on_drop().unwrap()).unwrap();
    assert_eq!(&mem.bytes[..2], &[0, 1]);
    assert_eq!(mem.bytes, vec![0, 1, 2, 3, 4, 5, 6, 7]);
}

#[test]
fn patch_persist_keeps_bytes() {
    let me = target();
    let mut mem = Memory {
        base: 0x1000,
        bytes: vec![0xFF; 4],
    };
    let mut p = mem.install(me.nop(0x1000, 4)).unwrap();
    p.persist();
    assert!(p.on_drop().is_none());
    assert_eq!(&mem.bytes[..], &[0x90, 0x90, 0x90, 0x90]);
    p.set_restore_on_drop(true);
    assert!(p.on_drop().is_some());
}

#[test]
fn patch_knows_itself() {
    let me = target();
    let mut mem = Memory {
        base: 0,
        bytes: vec![1, 2, 3],
    };
    let p = mem.install(me.patch(1, &[8, 9])).unwrap();
    assert_eq!((p.addr(), p.len(), p.is_empty()), (1, 2, false));
    assert!(p.is_enabled());
    assert_eq!(p.original(), &[2, 3]);
    assert_eq!(p.patched(), &[8, 9]);
    assert_eq!(p.process().pid(), 7);
    assert!(mem.install(me.patch(1, &[])).unwrap().is_empty());
}

#[test]
fn toggling_twice_changes_nothing() {
    let me = target();
    let mut mem = Memory {
        base: 0,
        bytes: vec![1, 2, 3],
    };
    let mut p = mem.install(me.patch(0, &[7])).unwrap();
    for (on, byte) in [(false, 1), (true, 7), (false, 1)] {
        let (w, sw) = p.toggle();
        let done = mem.write(w);
        p.settle(sw, done).unwrap();
        assert_eq!((p.is_enabled(), mem.bytes[0]), (on, byte));
    }
}

#[test]
fn failed_write_leaves_the_patch_as_it_was() {
    let me = target();
    let mut mem = Memory {
        base: 0,
        bytes: vec![1, 2, 3],
    };
    let mut p = mem.install(me.patch(0, &[7])).unwrap();
    let (_, sw) = p.disable();
    assert!(matches!(
        p.settle(sw, Err(Error::Permission { pid: 7 })),
        Err(Error::Permission { pid: 7 })
    ));
    assert!(p.is_enabled());
    // and a patch whose bytes cannot be read or written is none
    assert!(matches!(
        mem.install(me.patch(9, &[7])),
        Err(Error::Unmapped { addr: 9, len: 1 })
    ));
    let (req, wants) = me.patch(0, &[7]);
    let (_, writes) = wants.resume(mem.read(req)).unwrap();
    assert!(writes.resume(Err(Error::Permission { pid: 7 })).is_err());
}

#[test]
fn jmp_rel32_encoding() {
    let me = target();
    let from = 0x5000;
    let mut code = Memory {
        base: from,
        bytes: vec![0xCC; 8],
    };
    let to = from + 0x100;
    let mut p = code.install(me.write_jmp(from, to, 8).unwrap()).unwrap();
    assert_eq!(code.bytes[0], 0xE9);
    let rel = i32::from_le_bytes(code.bytes[1..5].try_into().unwrap());
    assert_eq!(rel as i64, 0x100 - 5);
    assert_eq!(&code.bytes[5..8], &[0x90, 0x90, 0x90]); // NOP slack
    let (w, sw) = p.disable();
    let done = code.write(w);
    p.settle(sw, done).unwrap();
    assert_eq!(&code.bytes[..], &[0xCC; 8]);
}

#[test]
fn jmp_abs_encoding() {
    let me = target();
    let from = 0x5000;
    let mut code = Memory {
        base: from,
        bytes: vec![0u8; 14],
    };
    let to = 0xDEAD_BEEF_1234_5678u64 as usize;
    let _p = code.install(me.write_jmp_abs(from, to, 14).unwrap()).unwrap();
    assert_eq!(&code.bytes[..6], &[0xFF, 0x25, 0, 0, 0, 0]);
    assert_eq!(
        u64::from_le_bytes(code.bytes[6..14].try_into().unwrap()),
        to as u64
    );
}

#[test]
fn branches_check_room_and_range() {
    let me = target();
    assert!(matches!(
        me.write_jmp(0, 1, 4),
        Err(Error::PatchTooSmall { need: 5, got: 4 })
    ));
    assert!(matches!(
        me.write_jmp(0x1000, 0x9000_0000, 5),
        Err(Error::BranchTooFar {
            from: 0x1000,
            to: 0x9000_0000
        })
    ));
    assert!(matches!(
        me.write_jmp_abs(0, 1, 13),
        Err(Error::PatchTooSmall { need: 14, got: 13 })
    ));
    // the last destination in range, and the first one out of it
    assert!(me.write_call(0, 0x8000_0004, 5).is_ok());
    assert!(me.write_call(0, 0x8000_0005, 5).is_err());
    let mut mem = Memory {
        base: 0x100,
        bytes: vec![0; 5],
    };
    let _p = mem.install(me.write_call(0x100, 0x100, 5).unwrap()).unwrap();
    assert_eq!(mem.bytes, vec![0xE8, 0xFB, 0xFF, 0xFF, 0xFF]);
}

#[test]
fn detours_pick_their_encoding() {
    let me = target();
    let mut mem = Memory {
        base: 0x1000,
        bytes: vec![0; 16],
    };
    let _near = mem.install(me.detour(0x1000, 0x2000, 6).unwrap()).unwrap();
    assert_eq!(mem.bytes[..6], [0xE9, 0xFB, 0x0F, 0, 0, 0x90]);
    let far = 0x7F00_0000_0000;
    let _far = mem.install(me.detour(0x1000, far, 15).unwrap()).unwrap();
    assert_eq!(mem.bytes[..2], [0xFF, 0x25]);
    assert_eq!(mem.bytes[14], 0x90);
    assert!(matches!(
        me.detour(0x1000, far, 13),
        Err(Error::PatchTooSmall { need: 14, got: 13 })
    ));
    assert!(matches!(
        me.detour(0x1000, 0x2000, 4),
        Err(Error::PatchTooSmall { need: 5, got: 4 })
    ));
    assert!(matches!(
        me.detour(0x1000, 0x1100, 3),
        Err(Error::PatchTooSmall { need: 5, got: 3 })
    ));
}

#[test]
fn patch_at_a_signature() {
    let me = target();
    let (_, wants) = me.patch_pattern("game", "29 48", 2, &[0x90]).unwrap();
    let (req, _) = wants.resume(Ok(Some(0x1000))).unwrap();
    assert_eq!(req, ReadRequest { addr: 0x1002, len: 1 });
    let (_, wants) = me.patch_pattern("game", "29 48", 2, &[0x90]).unwrap();
    match wants.resume(Ok(None)) {
        Err(Error::PatternNotFound(s)) => assert_eq!(s, "29 48"),
        _ => panic!("must not be found"),
    }
    let (search, wants) = me.patch_pattern("game", "29 48", 2, &[0x90]).unwrap();
    let missing = search.resume(Ok(vec![]));
    assert!(matches!(missing, Err(Error::ModuleNotFound { .. })));
    assert!(matches!(
        wants.resume(Err(Error::Io(IoError::Os(3)))),
        Err(Error::Io(IoError::Os(3)))
    ));
    assert!(matches!(
        me.patch_pattern("game", "oops", 0, &[]),
        Err(Error::InvalidPattern(_))
    ));
}

fn regs(rip: u64, rax: u64) -> Regs {
    Regs {
        r15: 15,
        r14: 14,
        r13: 13,
        r12: 12,
        rbp: 1,
        rbx: 2,
        r11: 11,
        r10: 10,
        r9: 9,
        r8: 8,
        rax,
        rcx: 3,
        rdx: 4,
        rsi: 5,
        rdi: 6,
        orig_rax: 7,
        rip,
        cs: 16,
        eflags: 17,
        rsp: 18,
        ss: 19,
        fs_base: 20,
        gs_base: 21,
        ds: 22,
        es: 23,
        fs: 24,
        gs: 25,
    }
}

#[test]
fn injection_runs_a_call_and_restores_everything() {
    let call = Syscall {
        nr: 9,
        args: [101, 102, 103, 104, 105, 106],
    };
    let mut mem = Memory {
        base: 0x4000,
        bytes: vec![0x11, 0x22, 0x33],
    };
    let saved = regs(0x4001, 77);
    let inject = Tracer::new(7).inject_syscall(call);
    let (req, s) = inject.resume(Ok(saved)).unwrap();
    assert_eq!(req, ReadRequest { addr: 0x4001, len: 2 });
    let (w, s) = s.resume(mem.read(req)).unwrap();
    let done = mem.write(w);
    assert_eq!(mem.bytes, vec![0x11, 0x0F, 0x05]);
    let (loaded, s) = s.resume(done).unwrap();
    assert_eq!(
        loaded,
        Regs {
            rax: 9,
            orig_rax: u64::MAX,
            rdi: 101,
            rsi: 102,
            rdx: 103,
            r10: 104,
            r8: 105,
            r9: 106,
            ..saved
        }
    );
    let s = s.resume(Ok(())).unwrap();
    let s = s.resume(Ok(())).unwrap();
    let (w, s) = s.resume(Ok(regs(0x4003, (-12i64) as u64))).unwrap();
    let done = mem.write(w);
    assert_eq!(mem.bytes, vec![0x11, 0x22, 0x33]);
    let (back, s) = s.resume(done).unwrap();
    assert_eq!(back, saved);
    assert_eq!(s.resume(Ok(())).unwrap(), -12);
}

#[test]
fn injection_stops_at_the_first_failure() {
    let call = Syscall {
        nr: 0,
        args: [0; 6],
    };
    let gone = || Error::Io(IoError::Os(3));
    let start = || Tracer::new(7).inject_syscall(call);
    assert!(start().resume(Err(gone())).is_err());
    let backup = || start().resume(Ok(regs(0, 0))).unwrap().1;
    assert!(backup().resume(Err(gone())).is_err());
    let plant = || backup().resume(Ok(vec![1, 2])).unwrap().1;
    assert!(plant().resume(Err(gone())).is_err());
    let load = || plant().resume(Ok(())).unwrap().1;
    assert!(load().resume(Err(gone())).is_err());
    let run = || load().resume(Ok(())).unwrap();
    assert!(run().resume(Err(gone())).is_err());
    let collect = || run().resume(Ok(())).unwrap();
    assert!(collect().resume(Err(gone())).is_err());
    let code = || collect().resume(Ok(regs(0, 0))).unwrap().1;
    assert!(code().resume(Err(gone())).is_err());
    let back = code().resume(Ok(())).unwrap().1;
    assert!(back.resume(Err(gone())).is_err());
}

fn waiting() -> AwaitStop {
    Tracer::new(7).attach(0, 0).unwrap()
}

#[test]
fn wait_statuses() {
    // stopped by SIGTRAP
    assert!(matches!(
        waiting().resume(7, 0, 0x057F),
        Step::Done(Ok(()))
    ));
    // exited with code 1, and killed by SIGKILL
    for status in [0x0100, 9] {
        match waiting().resume(7, 0, status) {
            Step::Done(Err(Error::Io(IoError::Other(m)))) => {
                assert_eq!(m, "target process exited during ptrace operation")
            }
            _ => panic!("must be gone"),
        }
    }
    let again = match waiting().resume(-1, libc::EINTR, 0) {
        Step::Do((), w) => w,
        Step::Done(_) => panic!("must wait again"),
    };
    assert!(matches!(
        again.resume(-1, libc::ECHILD, 0),
        Step::Done(Err(Error::Io(IoError::Os(10))))
    ));
}

#[test]
fn wait_statuses_agree_with_the_system() {
    for status in -0x200..0x1_0000 {
        let gone = libc::WIFEXITED(status) || libc::WIFSIGNALED(status);
        let said = matches!(waiting().resume(7, 0, status), Step::Done(Err(_)));
        assert_eq!(said, gone, "status {status:#x}");
    }
}

#[test]
fn ptrace_answers() {
    let t = Tracer::new(7);
    assert!(matches!(
        t.attach(-1, libc::EPERM),
        Err(Error::Permission { pid: 7 })
    ));
    assert!(matches!(
        t.attach(-1, libc::EACCES),
        Err(Error::Permission { pid: 7 })
    ));
    assert!(matches!(
        t.attach(-1, libc::ESRCH),
        Err(Error::Io(IoError::Os(3)))
    ));
    assert_eq!(t.getregs(0, 0, regs(1, 2)).unwrap(), regs(1, 2));
    assert!(matches!(
        t.getregs(-1, 3, regs(1, 2)),
        Err(Error::Io(IoError::Os(3)))
    ));
    assert!(t.setregs(0, 0).is_ok());
    assert!(matches!(
        t.setregs(-1, 5),
        Err(Error::Io(IoError::Os(5)))
    ));
    assert!(t.singlestep(0, 0).is_ok());
    assert!(matches!(
        t.singlestep(-1, 5),
        Err(Error::Io(IoError::Os(5)))
    ));
}

fn cave(me: &Process, addr: usize) -> RemoteMem<'_> {
    let (_, growing) = me.alloc_rwx(CAVE_LEN);
    growing.resume(Ok(addr as i64)).unwrap()
}

#[test]
fn alloc_write_free() {
    let me = target();
    let (call, growing) = me.alloc_rwx(0x1000);
    assert_eq!(call.nr, SYS_MMAP);
    assert_eq!(call.args, [0, 0x1000, 7, 0x22, u64::MAX, 0]);
    let mut mem = growing.resume(Ok(0x7F00_0000)).unwrap();
    assert!(mem.addr > 0x1000);
    assert_eq!((mem.addr, mem.base(), mem.len), (0x7F00_0000, 0x7F00_0000, 0x1000));
    let code = [0x48u8, 0x31, 0xC0, 0xC3]; // xor rax,rax; ret
    let w = mem.write(0, &code);
    assert_eq!((w.addr, w.bytes), (0x7F00_0000, code.to_vec()));
    assert_eq!(
        mem.read(8, 4),
        ReadRequest {
            addr: 0x7F00_0008,
            len: 4
        }
    );
    let call = mem.on_drop().unwrap();
    assert_eq!(call.nr, SYS_MUNMAP);
    assert_eq!(call.args, [0x7F00_0000, 0x1000, 0, 0, 0, 0]);
    // a failed free may be tried again
    assert!(mem.settle(Err(Error::Permission { pid: 7 })).is_err());
    assert!(matches!(
        mem.settle(Ok(-22)),
        Err(Error::Io(IoError::Os(22)))
    ));
    assert!(mem.free().is_some());
    mem.settle(Ok(0)).unwrap();
    assert!(mem.free().is_none());
    assert!(mem.on_drop().is_none());
}

#[test]
fn allocation_failures_and_flags() {
    let me = target();
    let (call, growing) = me.allocate(0x100, prot::RW);
    assert_eq!(call.args[2], 3);
    assert!(matches!(
        growing.resume(Ok(-12)),
        Err(Error::Io(IoError::Os(12)))
    ));
    let (_, growing) = me.allocate(0x100, prot::READ | prot::EXEC);
    assert!(matches!(
        growing.resume(Err(Error::Permission { pid: 7 })),
        Err(Error::Permission { pid: 7 })
    ));
    // just outside the range of error numbers
    let (_, growing) = me.allocate(0x100, prot::WRITE);
    assert_eq!(growing.resume(Ok(-4096)).unwrap().leak(), (-4096i64) as usize);
    assert_eq!(
        MAP_FLAGS,
        (libc::MAP_PRIVATE | libc::MAP_ANONYMOUS) as u64
    );
    assert_eq!(SYS_MMAP as i64, libc::SYS_mmap);
    assert_eq!(SYS_MUNMAP as i64, libc::SYS_munmap);
    assert_eq!(prot::RWX, libc::PROT_READ | libc::PROT_WRITE | libc::PROT_EXEC);
    assert_eq!(cave(&me, 5).process().pid(), 7);
}

fn code_region(start: usize, end: usize, perms: &str) -> MapRegion {
    MapRegion {
        start,
        end,
        perms: perms.to_string(),
        path: Some("/opt/game".to_string()),
    }
}

fn find_cave(mem: &Memory, maps: &[MapRegion], len: usize) -> Option<usize> {
    let me = target();
    let list = me
        .find_code_cave("game", len, 0xCC)
        .resume(Ok(maps.to_vec()))
        .unwrap();
    let mut step: Step<ReadRequest, CaveScan, Result<Option<usize>, Error>> =
        list.resume(Ok(maps.to_vec()));
    loop {
        step = match step {
            Step::Done(r) => return r.unwrap(),
            Step::Do(req, scan) => scan.resume(mem.read(req)),
        };
    }
}

#[test]
fn code_caves() {
    let mut bytes = vec![0u8; 0x400];
    // a long run in data, a short and a long one in code
    bytes[0x20..0x80].fill(0xCC);
    bytes[0x110..0x114].fill(0xCC);
    bytes[0x130..0x140].fill(0xCC);
    let mem = Memory { base: 0, bytes };
    let maps = [
        code_region(0, 0x100, "r--p"),
        // cannot be read
        code_region(0x1000, 0x2000, "r-xp"),
        code_region(0x100, 0x200, "r-xp"),
    ];
    assert_eq!(find_cave(&mem, &maps, 4), Some(0x110));
    assert_eq!(find_cave(&mem, &maps, 5), Some(0x130));
    assert_eq!(find_cave(&mem, &maps, 0), Some(0x110));
    assert_eq!(find_cave(&mem, &maps, 17), None);
    // the first executable region with a run is taken, in the order of the list
    let swapped = [
        code_region(0x130, 0x200, "r-xp"),
        code_region(0x100, 0x130, "r-xp"),
    ];
    assert_eq!(find_cave(&mem, &swapped, 4), Some(0x130));
    let list = target()
        .find_code_cave("game", 4, 0)
        .resume(Ok(maps.to_vec()))
        .unwrap();
    let mut bad = maps.to_vec();
    assert!(list.in_order(&bad));
    bad[0].end = 0;
    bad[0].start = 1;
    assert!(list.in_order(&bad));
    bad[2].end = bad[2].start - 1;
    assert!(!list.in_order(&bad));
    assert!(matches!(
        target().find_code_cave("other", 4, 0).resume(Ok(maps.to_vec())),
        Err(Error::ModuleNotFound { .. })
    ));
    assert!(matches!(
        target()
            .find_code_cave("game", 4, 0)
            .resume(Err(Error::Io(IoError::Os(3)))),
        Err(Error::Io(IoError::Os(3)))
    ));
}

const SITE: usize = 0x4000;

fn build<'p>(me: &'p Process, mem: &Memory, steal: usize, cave_at: usize) -> HookBuild<'p> {
    let (req, s) = me.hook(SITE, steal).unwrap();
    assert_eq!(
        req,
        ReadRequest {
            addr: SITE,
            len: steal
        }
    );
    let (call, growing, s) = s.resume(mem.read(req)).unwrap();
    assert_eq!(call.args, [0, 0x1000, 7, 0x22, u64::MAX, 0]);
    s.resume(growing.resume(Ok(cave_at as i64))).unwrap()
}

fn install<'p>(me: &'p Process, mem: &mut Memory, cave: &mut Memory) -> Hook<'p> {
    let mut custom = Asm::new();
    custom.xor_rr(Reg::Rcx, Reg::Rcx);
    let (w, s) = build(me, mem, 7, cave.base).build(custom).unwrap();
    let (req, s) = s.resume(cave.write(w)).unwrap();
    let (w, s) = s.resume(mem.read(req)).unwrap();
    s.resume(mem.write(w)).unwrap()
}

#[test]
fn hook_runs_custom_then_stolen_code_and_jumps_back() {
    let me = target();
    let before = vec![0x29, 0x48, 0x10, 1, 2, 3, 4, 5];
    let mut mem = Memory {
        base: SITE,
        bytes: before.clone(),
    };
    let mut cave = Memory {
        base: 0x9000,
        bytes: vec![0; CAVE_LEN],
    };
    let mut hook = install(&me, &mut mem, &mut cave);
    assert_eq!(cave.bytes[..3], [0x48, 0x31, 0xC9]);
    assert_eq!(cave.bytes[3..10], before[..7]);
    assert_eq!(cave.bytes[10..16], [0xFF, 0x25, 0, 0, 0, 0]);
    assert_eq!(
        u64::from_le_bytes(cave.bytes[16..24].try_into().unwrap()),
        SITE as u64 + 7
    );
    // the detour: jmp 0x9000, two bytes of slack
    assert_eq!(mem.bytes, vec![0xE9, 0xFB, 0x4F, 0, 0, 0x90, 0x90, 5]);
    assert_eq!((hook.target(), hook.cave_addr()), (SITE, 0x9000));
    assert!(hook.is_enabled());
    assert_eq!(hook.process().pid(), 7);

    let (w, sw) = hook.disable();
    let done = mem.write(w);
    hook.settle(sw, done).unwrap();
    assert_eq!(mem.bytes, before);
    let (revert, free) = hook.on_drop();
    assert!(revert.is_none());
    assert!(free.is_some());
    let (w, sw) = hook.toggle();
    let done = mem.write(w);
    hook.settle(sw, done).unwrap();
    assert!(hook.is_enabled());
    let (w, _) = hook.enable();
    assert_eq!(w.bytes[0], 0xE9);

    // the detour is reverted before the cave is freed
    let (revert, free) = hook.on_drop();
    mem.write(revert.unwrap()).unwrap();
    assert_eq!(mem.bytes, before);
    let call = free.unwrap();
    assert_eq!((call.nr, call.args[0], call.args[1]), (11, 0x9000, 0x1000));
}

#[test]
fn persistent_hook_owes_nothing() {
    let me = target();
    let mut mem = Memory {
        base: SITE,
        bytes: vec![0x90; 16],
    };
    let mut cave = Memory {
        base: 0x9000,
        bytes: vec![0; CAVE_LEN],
    };
    let mut hook = install(&me, &mut mem, &mut cave);
    hook.persist();
    let (revert, free) = hook.on_drop();
    assert!(revert.is_none() && free.is_none());
    assert_eq!(hook.cave_addr(), 0x9000);
}

#[test]
fn failed_hooks_hand_back_their_cave() {
    let me = target();
    let mem = Memory {
        base: SITE,
        bytes: vec![0x90; 16],
    };
    assert!(matches!(
        me.hook(SITE, 4),
        Err(Error::PatchTooSmall { need: 5, got: 4 })
    ));
    let (_, s) = me.hook(SITE, 5).unwrap();
    assert!(s.resume(Err(Error::Permission { pid: 7 })).is_err());

    let mut custom = Asm::new();
    custom.jmp_label("nowhere");
    match build(&me, &mem, 7, 0x9000).build(custom) {
        Err((Error::Io(IoError::Other(m)), cave)) => {
            assert_eq!(m, "undefined label 'nowhere'");
            assert_eq!(cave.addr, 0x9000);
        }
        _ => panic!("must not assemble"),
    }

    // an absolute jump does not fit
    let (_, s) = build(&me, &mem, 7, 0x7F00_0000_0000)
        .build(Asm::new())
        .unwrap();
    match s.resume(Ok(())) {
        Err((Error::PatchTooSmall { need, got }, cave)) => {
            assert_eq!((need, got, cave.addr), (14, 7, 0x7F00_0000_0000))
        }
        _ => panic!("must be too small"),
    }

    let (_, s) = build(&me, &mem, 7, 0x9000).build(Asm::new()).unwrap();
    match s.resume(Err(Error::Permission { pid: 7 })) {
        Err((Error::Permission { pid: 7 }, cave)) => assert!(cave.on_drop().is_some()),
        _ => panic!("must fail"),
    }
    let (_, s) = build(&me, &mem, 7, 0x9000).build(Asm::new()).unwrap();
    let (_, s) = s.resume(Ok(())).unwrap();
    assert!(s.resume(Err(Error::Permission { pid: 7 })).is_err());
    let (_, s) = build(&me, &mem, 7, 0x9000).build(Asm::new()).unwrap();
    let (req, s) = s.resume(Ok(())).unwrap();
    let (_, s) = s.resume(mem.read(req)).unwrap();
    assert!(s.resume(Err(Error::Permission { pid: 7 })).is_err());
}
