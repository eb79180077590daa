use vmem::{Error, IoError, Pointer, Process, ReadRequest, Scatter, Step};

fn target() -> Process {
    Process::by_pid(7, true).unwrap()
}

/// Resolve over words of memory, and count the reads.
fn resolve(p: &Pointer, words: &[(usize, usize)]) -> (Result<usize, Error>, usize) {
    let mut reads = 0;
    let mut step = p.resolve();
    loop {
        step = match step {
            Step::Done(r) => return (r, reads),
            Step::Do(req, s) => {
                reads += 1;
                assert_eq!(req.len, std::mem::size_of::<usize>());
                s.resume(
                    words
                        .iter()
                        .find(|(a, _)| *a == req.addr)
                        .map(|(_, w)| w.to_le_bytes().to_vec())
                        .ok_or(Error::Unmapped {
                            addr: req.addr,
                            len: req.len,
                        }),
                )
            }
        };
    }
}

const WORDS: [(usize, usize); 4] = [
    (0x100, 0x200),
    (0x210, 0x300),
    (0x308, 0x400),
    (0x1_0000, usize::MAX),
];

#[test]
fn self_pointer_chain() {
    // value <- &value <- &&value ; chain from &&value with offsets [0,0]
    let value_addr = 0x9000usize;
    let words = [(0x1000, 0x2000), (0x2000, value_addr)];
    let me = target();
    let (got, _) = resolve(&me.pointer(0x1000).offsets(&[0, 0]), &words);
    assert_eq!(got.unwrap(), value_addr);
}

#[test]
fn default_convention_dereferences_first() {
    let me = target();
    let p = me.pointer(0x100).offsets(&[0x10, 0x8]).offset(0x4);
    let (got, reads) = resolve(&p, &WORDS);
    assert_eq!((got.unwrap(), reads), (0x404, 3));
}

#[test]
fn other_convention_adds_first() {
    let me = target();
    let p = me.pointer(0xF0).offsets(&[0x10, 0x10, 0x8]).offset_first();
    let (got, reads) = resolve(&p, &WORDS);
    // the last offset is only added
    assert_eq!((got.unwrap(), reads), (0x308, 2));
}

#[test]
fn conventions_differ_by_the_first_offset() {
    let me = target();
    let a = me.pointer(0xF0).offsets(&[0x10, 0x10, 0x8]).offset_first();
    let b = me.pointer(0x100).offsets(&[0x10, 0x8]);
    assert_eq!(
        resolve(&a, &WORDS).0.unwrap(),
        resolve(&b.clone(), &WORDS).0.unwrap()
    );
}

#[test]
fn chain_without_offsets_is_its_base() {
    let me = target();
    assert_eq!(resolve(&me.pointer(0x55), &[]).0.unwrap(), 0x55);
    assert_eq!(
        resolve(&me.pointer(0x55).offset_first(), &[]).0.unwrap(),
        0x55
    );
    assert_eq!(me.pointer(0x55).process().pid(), 7);
}

#[test]
fn chain_arithmetic_wraps_and_stale_links_fail() {
    let me = target();
    let (got, _) = resolve(&me.pointer(0x1_0000).offset(2), &WORDS);
    assert_eq!(got.unwrap(), 1);
    let (got, _) = resolve(&me.pointer(0x100).offsets(&[1, 2]), &WORDS);
    assert!(matches!(got, Err(Error::Unmapped { addr: 0x201, .. })));
}

fn queue(p: &Process, n: usize) -> Scatter<'_> {
    let mut s = p.scatter();
    for i in 0..n {
        assert_eq!(s.add(i * 16, 2), i);
    }
    s
}

fn fill(batch: &[ReadRequest]) -> Vec<Vec<u8>> {
    batch
        .iter()
        .map(|r| vec![(r.addr / 16) as u8; r.len])
        .collect()
}

#[test]
fn self_scatter() {
    let me = target();
    let a: u32 = 0x1111_2222;
    let b: u32 = 0x3333_4444;
    let mut s = me.scatter();
    let ia = s.add_typed::<u32>(0x10);
    let ib = s.add_typed::<u32>(0x20);
    let bufs = match s.run() {
        Step::Do(batch, run) => {
            assert_eq!(
                batch,
                vec![
                    ReadRequest { addr: 0x10, len: 4 },
                    ReadRequest { addr: 0x20, len: 4 }
                ]
            );
            match run.resume(8, 0, vec![a.to_le_bytes().to_vec(), b.to_le_bytes().to_vec()]) {
                Step::Done(r) => r.unwrap(),
                Step::Do(_, _) => panic!("must be done"),
            }
        }
        Step::Done(_) => panic!("must read"),
    };
    assert_eq!(bytemuck::pod_read_unaligned::<u32>(&bufs[ia]), a);
    assert_eq!(bytemuck::pod_read_unaligned::<u32>(&bufs[ib]), b);
}

#[test]
fn long_queues_are_split() {
    let me = target();
    let mut step = queue(&me, 2500).run();
    let mut sizes = vec![];
    let bufs = loop {
        step = match step {
            Step::Done(r) => break r.unwrap(),
            Step::Do(batch, run) => {
                sizes.push(batch.len());
                let bufs = fill(&batch);
                run.resume(2 * batch.len() as isize, 0, bufs)
            }
        };
    };
    assert_eq!(sizes, vec![1024, 1024, 452]);
    assert_eq!(bufs.len(), 2500);
    for (i, b) in bufs.iter().enumerate() {
        assert_eq!(*b, vec![i as u8; 2]);
    }
}

#[test]
fn batch_failures_are_reported_against_the_first_address() {
    let me = target();
    let second = || match queue(&me, 1500).run() {
        Step::Do(batch, run) => {
            let bufs = fill(&batch);
            match run.resume(2048, 0, bufs) {
                Step::Do(batch, run) => (batch, run),
                Step::Done(_) => panic!("must go on"),
            }
        }
        Step::Done(_) => panic!("must read"),
    };
    let (batch, run) = second();
    let bufs = fill(&batch);
    match run.resume(-1, 14, bufs) {
        Step::Done(Err(Error::Unmapped { addr, len, .. })) => {
            assert_eq!((addr, len), (1024 * 16, 2))
        }
        _ => panic!("must be unmapped"),
    }
    let (batch, run) = second();
    let bufs = fill(&batch);
    match run.resume(5, 0, bufs) {
        Step::Done(Err(Error::Partial {
            addr,
            wanted,
            moved,
            ..
        })) => assert_eq!((addr, wanted, moved), (1024 * 16, 952, 5)),
        _ => panic!("must be partial"),
    }
}

#[test]
fn empty_queue_is_done_at_once() {
    let me = target();
    match me.scatter().run() {
        Step::Done(Ok(v)) => assert!(v.is_empty()),
        _ => panic!("must be done"),
    }
    match me.scatter().run_each() {
        Step::Done(Ok(v)) => assert!(v.is_empty()),
        _ => panic!("must be done"),
    }
}

#[test]
fn one_read_per_slot_gives_the_same() {
    let me = target();
    let mut step = queue(&me, 3).run_each();
    let bufs = loop {
        step = match step {
            Step::Done(r) => break r.unwrap(),
            Step::Do(req, each) => each.resume(Ok(vec![(req.addr / 16) as u8; req.len])),
        };
    };
    assert_eq!(bufs, vec![vec![0, 0], vec![1, 1], vec![2, 2]]);
    match queue(&me, 3).run_each() {
        Step::Do(_, each) => assert!(matches!(
            each.resume(Err(Error::Io(IoError::Os(3)))),
            Step::Done(Err(Error::Io(IoError::Os(3))))
        )),
        Step::Done(_) => panic!("must read"),
    }
}
