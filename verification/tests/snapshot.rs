use avml::image::{Block, Cause, Error as ImageError, Step};
use avml::snapshot::{
    blocks_of, find_kcore_blocks, kcore_usable, phys_blocks, plan_kcore, Action, Error, Event,
    Reason, Segment, Snapshot, Source, State, PT_LOAD,
};

#[test]
fn translate_ranges() {
    let ranges = [10..20, 30..35, 45..55];

    let core_ranges = [
        Block {
            range: 10..20,
            offset: 0,
        },
        Block {
            range: 25..35,
            offset: 10,
        },
        Block {
            range: 40..50,
            offset: 20,
        },
        Block {
            range: 50..55,
            offset: 35,
        },
    ];

    let expected = vec![
        Block {
            offset: 0,
            range: 10..20,
        },
        Block {
            offset: 10 + 5,
            range: 30..35,
        },
        Block {
            offset: 25,
            range: 45..50,
        },
        Block {
            offset: 35,
            range: 50..55,
        },
    ];

    let result = Snapshot::find_kcore_blocks(&ranges, &core_ranges);

    assert_eq!(result, expected);
}

#[test]
fn range_in_a_gap_is_dropped() {
    let segments = [
        Block { range: 10..20, offset: 100 },
        Block { range: 30..40, offset: 200 },
    ];
    assert_eq!(find_kcore_blocks(&[20..30], &segments), vec![]);
    assert_eq!(find_kcore_blocks(&[5..15], &segments), vec![]);
    assert_eq!(
        find_kcore_blocks(&[15..35], &segments),
        vec![Block { offset: 105, range: 15..20 }]
    );
    assert_eq!(find_kcore_blocks(&[], &segments), vec![]);
    assert_eq!(find_kcore_blocks(&[10..20], &[]), vec![]);
}

#[test]
fn offset_is_held_at_the_largest() {
    let segments = [Block { range: 10..20, offset: u64::MAX - 2 }];
    assert_eq!(
        find_kcore_blocks(&[15..18], &segments),
        vec![Block { offset: u64::MAX, range: 15..18 }]
    );
}

#[test]
fn phys_blocks_keep_ranges_but_for_crash() {
    let ranges = [0x1000..0x9fc00, 0x100000..0x3fee0123];
    assert_eq!(
        phys_blocks(&ranges, "/dev/mem"),
        vec![
            Block { offset: 0x1000, range: 0x1000..0x9fc00 },
            Block { offset: 0x100000, range: 0x100000..0x3fee0123 },
        ]
    );
    assert_eq!(
        phys_blocks(&ranges, "/dev/crash"),
        vec![
            Block { offset: 0x1000, range: 0x1000..0x9f000 },
            Block { offset: 0x100000, range: 0x100000..0x3fee0000 },
        ]
    );
    assert_eq!(blocks_of(&ranges, true), phys_blocks(&ranges, "/dev/crash"));
    let snapshot = Snapshot::new("/tmp/out.lime", ranges.to_vec());
    assert_eq!(snapshot.phys("/tmp/memory.raw"), phys_blocks(&ranges, "/dev/mem"));
}

fn segment(p_type: u32, p_vaddr: u64, p_memsz: u64, p_offset: u64) -> Segment {
    Segment { p_type, p_offset, p_vaddr, p_memsz }
}

#[test]
fn kcore_plan_sorts_and_translates() {
    let base = 0xffff_8880_0000_0000u64;
    let segments = [
        segment(4, 0, 0x100, 0x200),
        segment(PT_LOAD, base + 0x100000, 0x1000_0000, 0x5000),
        segment(PT_LOAD, base + 0x1000, 0x9f000, 0x3000),
    ];
    let ranges = [0x1000..0x9fc00, 0x100000..0x200000];
    let blocks = plan_kcore(&ranges, &segments).unwrap();
    assert_eq!(
        blocks,
        vec![
            Block { offset: 0x3000, range: 0x1000..0x9fc00 },
            Block { offset: 0x5000, range: 0x100000..0x200000 },
        ]
    );
    let snapshot = Snapshot::new("/tmp/out.lime", ranges.to_vec());
    assert_eq!(snapshot.kcore(&segments), Ok(blocks));
}

#[test]
fn kcore_plan_failures() {
    let ranges = [0x1000..0x2000];
    assert_eq!(plan_kcore(&ranges, &[]), Err(Reason::NoInitialAddresses));
    assert_eq!(
        plan_kcore(&ranges, &[segment(4, 0x1000, 0x1000, 0)]),
        Err(Reason::NoInitialAddresses)
    );
    assert_eq!(
        plan_kcore(&[], &[segment(PT_LOAD, 0x1000, 0x1000, 0)]),
        Err(Reason::NoInitialMemoryRange)
    );
    assert_eq!(
        plan_kcore(&ranges, &[segment(PT_LOAD, 0x5000, u64::MAX, 0)]),
        Err(Reason::EndAddress)
    );
    let snapshot = Snapshot::new("/tmp/out.lime", vec![]);
    assert_eq!(
        snapshot.kcore(&[segment(PT_LOAD, 0x1000, 0x1000, 0)]),
        Err(Error::UnableToCreateSnapshot(Reason::NoInitialMemoryRange))
    );
}

fn elf64(phdrs: &[(u32, u64, u64, u64)]) -> Vec<u8> {
    let mut out = Vec::new();
    out.extend_from_slice(&[0x7f, b'E', b'L', b'F', 2, 1, 1, 0, 0, 0, 0, 0, 0, 0, 0, 0]);
    out.extend_from_slice(&4u16.to_le_bytes()); // core file
    out.extend_from_slice(&62u16.to_le_bytes()); // x86-64
    out.extend_from_slice(&1u32.to_le_bytes());
    out.extend_from_slice(&0u64.to_le_bytes()); // entry
    out.extend_from_slice(&64u64.to_le_bytes()); // program headers follow
    out.extend_from_slice(&0u64.to_le_bytes()); // no section headers
    out.extend_from_slice(&0u32.to_le_bytes());
    out.extend_from_slice(&64u16.to_le_bytes());
    out.extend_from_slice(&56u16.to_le_bytes());
    out.extend_from_slice(&(phdrs.len() as u16).to_le_bytes());
    out.extend_from_slice(&64u16.to_le_bytes());
    out.extend_from_slice(&0u16.to_le_bytes());
    out.extend_from_slice(&0u16.to_le_bytes());
    for (p_type, offset, vaddr, memsz) in phdrs {
        out.extend_from_slice(&p_type.to_le_bytes());
        out.extend_from_slice(&0u32.to_le_bytes());
        out.extend_from_slice(&offset.to_le_bytes());
        out.extend_from_slice(&vaddr.to_le_bytes());
        out.extend_from_slice(&0u64.to_le_bytes());
        out.extend_from_slice(&0u64.to_le_bytes());
        out.extend_from_slice(&memsz.to_le_bytes());
        out.extend_from_slice(&0u64.to_le_bytes());
    }
    out
}

#[test]
fn kcore_segments_reads_program_headers() {
    let file = elf64(&[(4, 0x200, 0, 0x100), (PT_LOAD, 0x3000, 0xffff_8880_0000_1000, 0x9f000)]);
    let segments = Snapshot::kcore_segments(&file).unwrap();
    assert_eq!(
        segments,
        vec![
            segment(4, 0, 0x100, 0x200),
            segment(PT_LOAD, 0xffff_8880_0000_1000, 0x9f000, 0x3000),
        ]
    );
    match Snapshot::kcore_segments(b"not an elf file") {
        Err(Error::Elf(text)) => assert!(!text.is_empty()),
        other => panic!("unexpected {:?}", other),
    }
}

#[test]
fn kcore_is_usable_when_large_and_open() {
    assert!(kcore_usable(Some(0x2001), true));
    assert!(!kcore_usable(Some(0x2000), true));
    assert!(!kcore_usable(Some(0x2001), false));
    assert!(!kcore_usable(None, true));
}

#[test]
fn builder_sets_fields() {
    let snapshot = Snapshot::new("/tmp/out.lime", vec![0..10])
        .version(2)
        .source(Some(Source::DevMem))
        .max_disk_usage(Some(5));
    assert_eq!(snapshot.version, 2);
    assert_eq!(snapshot.source, Some(Source::DevMem));
    assert_eq!(snapshot.max_disk_usage, Some(5));
    assert_eq!(snapshot.destination, "/tmp/out.lime");
    assert_eq!(snapshot.memory_ranges, vec![0..10]);
}

#[test]
fn source_paths() {
    assert_eq!(Source::DevCrash.path(), "/dev/crash");
    assert_eq!(Source::DevMem.path(), "/dev/mem");
    assert_eq!(Source::ProcKcore.path(), "/proc/kcore");
    assert_eq!(Source::Raw("/tmp/x".to_string()).path(), "/tmp/x");
}

fn io_failure() -> Error {
    Error::UnableToCreateMemorySnapshot(ImageError::Io(
        Cause::Os("Permission denied (os error 13)".to_string()),
        Step::OpenSource,
    ))
}

#[test]
fn named_source_is_tried_once() {
    let snapshot =
        Snapshot::new("/tmp/out.lime", vec![0..10]).source(Some(Source::ProcKcore));
    let (state, action) = snapshot.start();
    assert_eq!(action, Action::Attempt(Source::ProcKcore));
    let (state, action) = state.next(Event::Attempted(Err(Error::LockedDownKcore)));
    assert_eq!(state, State::Done);
    assert_eq!(
        action,
        Action::Finish(Err(Error::UnableToCreateSnapshotFromSource(
            Box::new(Error::LockedDownKcore),
            Source::ProcKcore
        )))
    );

    let (state, _) = snapshot.start();
    let (state, action) = state.next(Event::Attempted(Ok(())));
    assert_eq!(state, State::Done);
    assert_eq!(action, Action::Finish(Ok(())));
}

#[test]
fn stdout_probes_kcore_crash_mem() {
    let snapshot = Snapshot::new("/dev/stdout", vec![0..10]);
    let (state, action) = snapshot.start();
    assert_eq!(action, Action::Probe(Source::ProcKcore));
    let (state, action) = state.next(Event::Probed(false));
    assert_eq!(action, Action::Probe(Source::DevCrash));
    let (state, action) = state.next(Event::Probed(false));
    assert_eq!(action, Action::Probe(Source::DevMem));
    let (state, action) = state.next(Event::Probed(true));
    assert_eq!(action, Action::Attempt(Source::DevMem));
    let (state, action) = state.next(Event::Attempted(Err(io_failure())));
    assert_eq!(state, State::Done);
    assert_eq!(
        action,
        Action::Finish(Err(Error::UnableToCreateSnapshotFromSource(
            Box::new(io_failure()),
            Source::DevMem
        )))
    );

    let (state, _) = snapshot.start();
    let (state, _) = state.next(Event::Probed(false));
    let (state, _) = state.next(Event::Probed(false));
    let (state, action) = state.next(Event::Probed(false));
    assert_eq!(state, State::Done);
    assert_eq!(
        action,
        Action::Finish(Err(Error::UnableToCreateSnapshot(Reason::NoSourceAvailable)))
    );
}

#[test]
fn file_tries_crash_kcore_mem() {
    let snapshot = Snapshot::new("/tmp/out.lime", vec![0..10]);
    let (state, action) = snapshot.start();
    assert_eq!(action, Action::Attempt(Source::DevCrash));
    let (state, action) = state.next(Event::Attempted(Err(io_failure())));
    assert_eq!(action, Action::Attempt(Source::ProcKcore));
    let (state, action) = state.next(Event::Attempted(Err(Error::LockedDownKcore)));
    assert_eq!(action, Action::Attempt(Source::DevMem));
    let (state, action) = state.next(Event::Attempted(Ok(())));
    assert_eq!(state, State::Done);
    assert_eq!(action, Action::Finish(Ok(())));
}

#[test]
fn all_failures_are_reported_together() {
    let snapshot = Snapshot::new("/tmp/out.lime", vec![0..10]);
    let (state, _) = snapshot.start();
    let (state, _) = state.next(Event::Attempted(Err(io_failure())));
    let (state, _) = state.next(Event::Attempted(Err(Error::LockedDownKcore)));
    let (state, action) = state.next(Event::Attempted(Err(io_failure())));
    assert_eq!(state, State::Done);
    let expected = "    \n\
        \x20       error: unable to create memory snapshot from source: /dev/crash\n\
        \x20       caused by:\n\
        \x20           0: unable to create memory snapshot\n\
        \x20           1: io error: unable to open memory source\n\
        \x20           2: Permission denied (os error 13)\n\
        \x20       \n\
        \x20       error: unable to create memory snapshot from source: /proc/kcore\n\
        \x20       caused by:\n\
        \x20           0: locked down /proc/kcore\n\
        \x20       \n\
        \x20       error: unable to create memory snapshot from source: /dev/mem\n\
        \x20       caused by:\n\
        \x20           0: unable to create memory snapshot\n\
        \x20           1: io error: unable to open memory source\n\
        \x20           2: Permission denied (os error 13)\n\
        \x20       ";
    assert_eq!(
        action,
        Action::Finish(Err(Error::UnableToCreateSnapshot(Reason::AllSourcesFailed(
            expected.to_string()
        ))))
    );
}

#[test]
fn disk_usage_failure_ends_the_search() {
    let snapshot = Snapshot::new("/tmp/out.lime", vec![0..10]);
    let (state, _) = snapshot.start();
    let exceeded = Error::DiskUsageEstimateExceeded { estimated: 10, allowed: 5 };
    let (state, action) = state.next(Event::Attempted(Err(exceeded)));
    assert_eq!(state, State::Done);
    assert_eq!(
        action,
        Action::Finish(Err(Error::UnableToCreateSnapshotFromSource(
            Box::new(Error::DiskUsageEstimateExceeded { estimated: 10, allowed: 5 }),
            Source::DevCrash
        )))
    );
}

#[test]
fn event_out_of_turn_fails() {
    let snapshot = Snapshot::new("/dev/stdout", vec![0..10]);
    let (state, _) = snapshot.start();
    let (state, action) = state.next(Event::Attempted(Ok(())));
    assert_eq!(state, State::Done);
    assert_eq!(
        action,
        Action::Finish(Err(Error::Other("unexpected event".to_string(), String::new())))
    );
}

#[test]
fn snapshot_error_messages() {
    assert_eq!(Error::LockedDownKcore.message(), "locked down /proc/kcore");
    assert_eq!(
        Error::DiskUsageEstimateExceeded { estimated: 11534336, allowed: 10485760 }.message(),
        "estimated usage exceeds specified bounds: estimated size:11534336 bytes. allowed:10485760 bytes"
    );
    assert_eq!(
        Error::Elf("bad magic".to_string()).message(),
        "unable to parse elf structures: bad magic"
    );
    assert_eq!(
        Error::UnableToCreateSnapshot(Reason::NoSourceAvailable).message(),
        "unable to create memory snapshot: no source available"
    );
    assert_eq!(
        Error::Other("a".to_string(), "b".to_string()).message(),
        "a: b"
    );
    assert_eq!(
        Error::Disk("no such file".to_string()).chain(),
        vec!["disk error".to_string(), "no such file".to_string()]
    );
    let nested = Error::UnableToCreateSnapshotFromSource(
        Box::new(io_failure()),
        Source::Raw("/tmp/raw".to_string()),
    );
    assert_eq!(
        nested.report(),
        "error: unable to create memory snapshot from source: /tmp/raw\n\
         caused by:\n\
         \x20   0: unable to create memory snapshot\n\
         \x20   1: io error: unable to open memory source\n\
         \x20   2: Permission denied (os error 13)\n"
    );
}

#[test]
fn kcore_segments_refuses_what_does_not_begin_as_elf() {
    let good = elf64(&[(PT_LOAD, 0x3000, 0xffff_8880_0000_1000, 0x9f000)]);
    assert!(Snapshot::kcore_segments(&good).is_ok());

    let refused = |bytes: &[u8]| matches!(Snapshot::kcore_segments(bytes), Err(Error::Elf(_)));
    assert!(refused(&[]));
    assert!(refused(&good[..15]));
    assert!(refused(&good[..63]));
    for at in 0..4 {
        let mut bad = good.clone();
        bad[at] ^= 0xff;
        assert!(refused(&bad));
    }
    for class in [0u8, 3, 0xff] {
        let mut bad = good.clone();
        bad[4] = class;
        assert!(refused(&bad));
    }
    for order in [0u8, 3, 0xff] {
        let mut bad = good.clone();
        bad[5] = order;
        assert!(refused(&bad));
    }
    for version in [0u8, 2] {
        let mut bad = good.clone();
        bad[6] = version;
        assert!(refused(&bad));
    }
}

#[test]
fn kcore_segments_takes_a_bare_file_header() {
    // a header of each class and nothing after it: no program headers
    let native = if u16::from_ne_bytes([1, 0]) == 1 { 1u8 } else { 2u8 };
    let mut small = vec![0u8; 52];
    small[..7].copy_from_slice(&[0x7f, b'E', b'L', b'F', 1, native, 1]);
    assert_eq!(Snapshot::kcore_segments(&small), Ok(vec![]));
    assert!(Snapshot::kcore_segments(&small[..51]).is_err());
    let mut large = vec![0u8; 64];
    large[..7].copy_from_slice(&[0x7f, b'E', b'L', b'F', 2, native, 1]);
    assert_eq!(Snapshot::kcore_segments(&large), Ok(vec![]));
    assert!(Snapshot::kcore_segments(&large[..63]).is_err());
}
