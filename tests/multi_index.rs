use std::sync::atomic::AtomicBool;

use midx_sideband::checksum::{bytes_equal, compare_checksums, ChecksumError};
use midx_sideband::multi_index::{
    oid_less_exec, Step, Algorithm, BundleError, Mode, NeverCache, Options, BundleReport, Entry, Error, File, IndexEntry, InitError, PackIndex, Statistics,
    TraverseError,
};

const NUM_OBJECTS: usize = 876;

fn oid_for(i: usize) -> Vec<u8> {
    let mut oid = vec![0u8; 20];
    oid[0] = (i * 256 / NUM_OBJECTS) as u8;
    oid[1] = (i >> 8) as u8;
    oid[2] = i as u8;
    oid[19] = 0x5a;
    oid
}

fn fan_of(entries: &[Entry]) -> [u32; 256] {
    let mut fan = [0u32; 256];
    for e in entries {
        for slot in fan.iter_mut().skip(e.oid[0] as usize) {
            *slot += 1;
        }
    }
    fan
}

fn no_interrupt() -> AtomicBool {
    AtomicBool::new(false)
}

/// Sets the trailing checksum to the one computed over the contents.
fn seal(file: &mut File) {
    let len = file.data.len();
    for b in &mut file.data[len - 20..] {
        *b = 0;
    }
    match file.verify_checksum(&no_interrupt()) {
        Err(ChecksumError::Mismatch { actual, .. }) => file.data[len - 20..].copy_from_slice(&actual),
        Ok(_) => {}
        Err(e) => panic!("unexpected {:?}", e),
    }
}

/// A multi-pack index over two packs with 876 objects, and the two pack indices.
fn good_midx() -> (File, Vec<PackIndex>) {
    let entries: Vec<Entry> = (0..NUM_OBJECTS)
        .map(|i| Entry { oid: oid_for(i), pack_id: (i % 2) as u32, pack_offset: 12 + 100 * i as u64 })
        .collect();
    let mut packs = vec![PackIndex { entries: Vec::new() }, PackIndex { entries: Vec::new() }];
    // each pack index lists its objects in reverse order, to exercise the lookup
    for e in entries.iter().rev() {
        packs[e.pack_id as usize].entries.push(IndexEntry { oid: e.oid.clone(), pack_offset: e.pack_offset });
    }
    let mut data = b"MIDX\x01\x01\x00\x02 some chunk bytes of the multi-pack index".to_vec();
    data.extend_from_slice(&[0u8; 20]);
    let mut file = File {
        data,
        index_names: vec!["pack-a.idx".to_string(), "pack-b.idx".to_string()],
        fan: fan_of(&entries),
        entries,
    };
    seal(&mut file);
    (file, packs)
}

fn opened(packs: &[PackIndex]) -> Vec<Result<PackIndex, InitError>> {
    packs.iter().map(|p| Ok(PackIndex { entries: p.entries.clone() })).collect()
}

fn stats(n: u32) -> Statistics {
    Statistics {
        pack_size: 1000 + n as u64,
        num_commits: n,
        num_trees: 2 * n,
        num_tags: 0,
        num_blobs: 3 * n,
        total_compressed_entries_size: 10,
        total_decompressed_entries_size: 20,
        total_object_size: 30,
    }
}

fn reports(packs: &[PackIndex]) -> Vec<BundleReport<String>> {
    packs
        .iter()
        .enumerate()
        .map(|(i, p)| BundleReport { index: Ok(PackIndex { entries: p.entries.clone() }), traversal: Ok(stats(i as u32)) })
        .collect()
}

#[test]
fn good_midx_fast_path() {
    let (file, packs) = good_midx();
    assert_eq!(file.num_objects(), 876);
    assert_eq!(file.num_indices(), 2);
    let checksum = file.verify_integrity_fast(opened(&packs), &no_interrupt()).expect("a good multi-pack index");
    assert_eq!(checksum, file.checksum());
    assert_eq!(checksum.len(), 20);
}

#[test]
fn verify_checksum_returns_the_stored_checksum() {
    let (file, _) = good_midx();
    assert_eq!(file.verify_checksum(&no_interrupt()), Ok(file.checksum()));
}

#[test]
fn checksum_of_known_bytes() {
    let mut data = b"abc".to_vec();
    data.extend_from_slice(&[0u8; 20]);
    let file = File { data, index_names: Vec::new(), fan: [0; 256], entries: Vec::new() };
    let expected_sha1 = vec![
        0xa9, 0x99, 0x3e, 0x36, 0x47, 0x06, 0x81, 0x6a, 0xba, 0x3e, 0x25, 0x71, 0x78, 0x50, 0xc2, 0x6c, 0x9c, 0xd0,
        0xd8, 0x9d,
    ];
    assert_eq!(
        file.verify_checksum(&no_interrupt()),
        Err(ChecksumError::Mismatch { expected: vec![0u8; 20], actual: expected_sha1 })
    );
}

#[test]
fn corrupted_checksum() {
    let (mut file, packs) = good_midx();
    let len = file.data.len();
    file.data[len - 1] ^= 0xff;
    let stored = file.checksum();
    match file.verify_integrity_fast(opened(&packs), &no_interrupt()) {
        Err(Error::MultiIndexChecksum(ChecksumError::Mismatch { expected, actual })) => {
            assert_eq!(expected, stored);
            assert_ne!(actual, stored);
        }
        other => panic!("unexpected {:?}", other),
    }
}

#[test]
fn swapped_oids() {
    let (mut file, packs) = good_midx();
    let k = 300;
    file.entries.swap(k, k + 1);
    seal(&mut file);
    assert_eq!(
        file.verify_integrity_fast(opened(&packs), &no_interrupt()),
        Err(Error::OutOfOrder { index: k as u32 })
    );
}

#[test]
fn equal_oids_are_out_of_order() {
    let (mut file, packs) = good_midx();
    file.entries[11].oid = file.entries[10].oid.clone();
    assert_eq!(file.verify_integrity_fast(opened(&packs), &no_interrupt()), Err(Error::OutOfOrder { index: 10 }));
}

#[test]
fn corrupted_fan() {
    let (mut file, packs) = good_midx();
    file.fan[42] = file.fan[43] + 1;
    assert_eq!(file.verify_integrity_fast(opened(&packs), &no_interrupt()), Err(Error::Fan { index: 42 }));
}

#[test]
fn empty_midx() {
    let (mut file, packs) = good_midx();
    file.entries.clear();
    file.fan = [0; 256];
    assert_eq!(file.verify_integrity_fast(opened(&packs), &no_interrupt()), Err(Error::Empty));
}

#[test]
fn offset_drift() {
    let (mut file, packs) = good_midx();
    let e = 517;
    let index_offset = file.entries[e].pack_offset;
    file.entries[e].pack_offset += 16;
    assert_eq!(
        file.verify_integrity_fast(opened(&packs), &no_interrupt()),
        Err(Error::PackOffsetMismatch {
            id: file.entries[e].oid.clone(),
            expected_pack_offset: index_offset + 16,
            actual_pack_offset: index_offset,
        })
    );
}

#[test]
fn oid_missing_from_pack_index() {
    let (file, mut packs) = good_midx();
    let missing = file.entries[3].oid.clone();
    packs[1].entries.retain(|e| e.oid != missing);
    assert_eq!(
        file.verify_integrity_fast(opened(&packs), &no_interrupt()),
        Err(Error::OidNotFound { id: missing })
    );
}

#[test]
fn pack_id_out_of_range_is_counted() {
    let (mut file, packs) = good_midx();
    file.entries[7].pack_id = 5;
    assert_eq!(
        file.verify_integrity_fast(opened(&packs), &no_interrupt()),
        Err(Error::UnexpectedObjectCount { actual: 875, expected: 876 })
    );
}

#[test]
fn index_that_cannot_be_opened() {
    let (file, packs) = good_midx();
    let mut indices = opened(&packs);
    indices[1] = Err(InitError::Index("no such file".to_string()));
    assert_eq!(
        file.verify_integrity_fast(indices, &no_interrupt()),
        Err(Error::BundleInit(InitError::Index("no such file".to_string())))
    );
}

#[test]
fn interrupted() {
    let (file, packs) = good_midx();
    let flag = AtomicBool::new(true);
    assert_eq!(
        file.verify_integrity_fast(opened(&packs), &flag),
        Err(Error::MultiIndexChecksum(ChecksumError::Interrupted))
    );
    assert_eq!(file.verify_checksum(&flag), Err(ChecksumError::Interrupted));
}

#[test]
fn deep_verification_collects_statistics_in_pack_order() {
    let (file, packs) = good_midx();
    let outcome = file.verify_integrity(reports(&packs), &no_interrupt()).ok().expect("a good multi-pack index");
    assert_eq!(outcome.actual_index_checksum, file.checksum());
    assert_eq!(outcome.pack_traverse_statistics, vec![stats(0), stats(1)]);
}

#[test]
fn deep_verification_is_repeatable() {
    let (file, packs) = good_midx();
    let first = file.verify_integrity(reports(&packs), &no_interrupt()).ok().unwrap();
    let second = file.verify_integrity(reports(&packs), &no_interrupt()).ok().unwrap();
    assert_eq!(first.actual_index_checksum, second.actual_index_checksum);
    assert_eq!(first.pack_traverse_statistics, second.pack_traverse_statistics);
}

#[test]
fn missing_pack() {
    let (file, packs) = good_midx();
    let mut deep = reports(&packs);
    deep[0].index = Err(InitError::Pack("pack-a.pack not found".to_string()));
    match file.verify_integrity(deep, &no_interrupt()) {
        Err(TraverseError::Processor(Error::BundleInit(InitError::Pack(_)))) => {}
        Err(e) => panic!("unexpected {:?}", e),
        Ok(_) => panic!("a missing pack must fail"),
    }
    // the fast path opens only the index files, which are all there
    assert!(file.verify_integrity_fast(opened(&packs), &no_interrupt()).is_ok());
}

#[test]
fn pack_verification_failures_pass_through() {
    let (file, packs) = good_midx();
    let mut deep = reports(&packs);
    deep[1].traversal = Err(BundleError::Traversal("crc32 mismatch".to_string()));
    match file.verify_integrity(deep, &no_interrupt()) {
        Err(TraverseError::Traversal(t)) => assert_eq!(t, "crc32 mismatch"),
        Err(e) => panic!("unexpected {:?}", e),
        Ok(_) => panic!("a failing pack must fail"),
    }
    let mut deep = reports(&packs);
    deep[0].traversal = Err(BundleError::Processor("index checksum mismatch".to_string()));
    match file.verify_integrity(deep, &no_interrupt()) {
        Err(TraverseError::Processor(Error::IndexIntegrity(m))) => assert_eq!(m, "index checksum mismatch"),
        Err(e) => panic!("unexpected {:?}", e),
        Ok(_) => panic!("a failing pack must fail"),
    }
}

#[test]
fn deep_offsets_are_checked_before_the_pack() {
    let (mut file, packs) = good_midx();
    file.entries[0].pack_offset = 1;
    let mut deep = reports(&packs);
    deep[0].traversal = Err(BundleError::Traversal("not reached".to_string()));
    match file.verify_integrity(deep, &no_interrupt()) {
        Err(TraverseError::Processor(Error::PackOffsetMismatch { expected_pack_offset: 1, actual_pack_offset: 12, .. })) => {}
        Err(e) => panic!("unexpected {:?}", e),
        Ok(_) => panic!("a wrong offset must fail"),
    }
}

#[test]
fn pack_index_lookup() {
    let (file, packs) = good_midx();
    let pos = packs[0].lookup(&file.entries[4].oid).expect("present");
    assert_eq!(packs[0].pack_offset_at_index(pos), file.entries[4].pack_offset);
    assert_eq!(packs[0].lookup(&file.entries[5].oid), None);
}

#[test]
fn entry_accessors() {
    let (file, _) = good_midx();
    assert_eq!(file.oid_at_index(9), &oid_for(9));
    assert_eq!(file.pack_id_and_pack_offset_at_index(9), (1, 912));
}

#[test]
fn oid_order_and_equality() {
    assert!(oid_less_exec(&[1, 2, 3], &[1, 2, 4]));
    assert!(!oid_less_exec(&[1, 2, 4], &[1, 2, 3]));
    assert!(!oid_less_exec(&[1, 2, 3], &[1, 2, 3]));
    assert!(oid_less_exec(&[0, 255], &[1, 0]));
    assert!(bytes_equal(&[1, 2], &[1, 2]));
    assert!(!bytes_equal(&[1, 2], &[1]));
    assert_eq!(compare_checksums(&[1, 2], vec![1, 2]), Ok(vec![1, 2]));
    assert_eq!(
        compare_checksums(&[1, 2], vec![1, 3]),
        Err(ChecksumError::Mismatch { expected: vec![1, 2], actual: vec![1, 3] })
    );
}

#[test]
fn default_options() {
    let options: Options<NeverCache> = Default::default();
    assert_eq!(options.verify_mode, Mode::HashCrc32DecodeEncode);
    assert_eq!(options.traversal, Algorithm::DeltaTreeLookup);
    assert_eq!(options.thread_limit, None);
    assert_eq!(options.make_pack_lookup_cache, NeverCache);
}

#[test]
fn verified_offsets_agree_with_pack_indices() {
    let (file, packs) = good_midx();
    assert!(file.verify_integrity(reports(&packs), &no_interrupt()).is_ok());
    for e in &file.entries {
        let index = &packs[e.pack_id as usize];
        let pos = index.lookup(&e.oid).expect("held by its pack");
        assert_eq!(index.pack_offset_at_index(pos), e.pack_offset);
    }
}

/// Runs a step-by-step verification; `open(p)` and `verify(p)` stand for opening
/// and verifying pack `p`. Returns the result and the steps taken.
fn run_steps(
    file: &File,
    options: Option<&Options<NeverCache>>,
    open: &dyn Fn(u32) -> Result<PackIndex, InitError>,
    verify: &dyn Fn(u32) -> Result<Statistics, BundleError<String>>,
) -> (Result<Vec<Statistics>, TraverseError<String>>, Vec<Step>) {
    let mut steps = Vec::new();
    let mut v = match file.begin_verification(options, false) {
        Ok(v) => v,
        Err(e) => return (Err(TraverseError::Processor(e)), steps),
    };
    loop {
        let step = file.next_step(&v);
        steps.push(match &step {
            Step::OpenIndex(p) => Step::OpenIndex(*p),
            Step::VerifyPack { pack, verify_mode, traversal, thread_limit } => Step::VerifyPack {
                pack: *pack,
                verify_mode: *verify_mode,
                traversal: *traversal,
                thread_limit: *thread_limit,
            },
            Step::Finish => Step::Finish,
            Step::Stop => Step::Stop,
        });
        match step {
            Step::OpenIndex(p) => {
                if let Err(e) = file.pack_opened(&mut v, open(p), false) {
                    return (Err(TraverseError::Processor(e)), steps);
                }
            }
            Step::VerifyPack { pack, .. } => {
                if let Err(e) = file.pack_verified(&mut v, verify(pack)) {
                    return (Err(e), steps);
                }
            }
            Step::Finish => {
                return (
                    file.finish(v).map(|o| o.pack_traverse_statistics).map_err(TraverseError::Processor),
                    steps,
                )
            }
            Step::Stop => unreachable!("a failed step ends the run"),
        }
    }
}

#[test]
fn steps_fast_path() {
    let (file, packs) = good_midx();
    let open = |p: u32| Ok(PackIndex { entries: packs[p as usize].entries.clone() });
    let (r, steps) = run_steps(&file, None, &open, &|_| unreachable!("no pack is verified"));
    assert_eq!(r, Ok(Vec::new()));
    assert_eq!(steps, vec![Step::OpenIndex(0), Step::OpenIndex(1), Step::Finish]);
}

#[test]
fn steps_deep_path_in_pack_order() {
    let (file, packs) = good_midx();
    let options = Options { verify_mode: Mode::HashCrc32Decode, traversal: Algorithm::Lookup, thread_limit: Some(3), make_pack_lookup_cache: NeverCache };
    let open = |p: u32| Ok(PackIndex { entries: packs[p as usize].entries.clone() });
    let (r, steps) = run_steps(&file, Some(&options), &open, &|p| Ok(stats(p)));
    assert_eq!(r, Ok(vec![stats(0), stats(1)]));
    let verify = |pack| Step::VerifyPack { pack, verify_mode: Mode::HashCrc32Decode, traversal: Algorithm::Lookup, thread_limit: Some(3) };
    assert_eq!(steps, vec![Step::OpenIndex(0), verify(0), Step::OpenIndex(1), verify(1), Step::Finish]);
}

#[test]
fn steps_open_nothing_after_an_order_error() {
    let (mut file, packs) = good_midx();
    file.entries.swap(300, 301);
    let open = |p: u32| Ok(PackIndex { entries: packs[p as usize].entries.clone() });
    let (r, steps) = run_steps(&file, Some(&Options::default()), &open, &|p| Ok(stats(p)));
    assert_eq!(r, Err(TraverseError::Processor(Error::OutOfOrder { index: 300 })));
    assert!(steps.is_empty());
}

#[test]
fn steps_stop_at_a_missing_pack() {
    let (file, packs) = good_midx();
    let open = |p: u32| {
        if p == 0 {
            Err(InitError::Pack("pack-a.pack not found".to_string()))
        } else {
            Ok(PackIndex { entries: packs[p as usize].entries.clone() })
        }
    };
    let (r, steps) = run_steps(&file, Some(&Options::default()), &open, &|p| Ok(stats(p)));
    assert_eq!(r, Err(TraverseError::Processor(Error::BundleInit(InitError::Pack("pack-a.pack not found".to_string())))));
    assert_eq!(steps, vec![Step::OpenIndex(0)]);
}

#[test]
fn steps_stop_after_a_failing_pack() {
    let (file, packs) = good_midx();
    let open = |p: u32| Ok(PackIndex { entries: packs[p as usize].entries.clone() });
    let verify = |p: u32| if p == 0 { Err(BundleError::Traversal("crc32 mismatch".to_string())) } else { Ok(stats(p)) };
    let (r, steps) = run_steps(&file, Some(&Options::default()), &open, &verify);
    assert_eq!(r, Err(TraverseError::Traversal("crc32 mismatch".to_string())));
    assert_eq!(steps.len(), 2);
    assert_eq!(steps[0], Step::OpenIndex(0));
}

#[test]
fn interruption_as_a_value() {
    let (file, packs) = good_midx();
    assert_eq!(file.verify_checksum_with(true), Err(ChecksumError::Interrupted));
    assert_eq!(file.verify_checksum_with(false), Ok(file.checksum()));
    assert_eq!(
        file.verify_integrity_fast_with(opened(&packs), true),
        Err(Error::MultiIndexChecksum(ChecksumError::Interrupted))
    );
    assert_eq!(file.verify_integrity_fast_with(opened(&packs), false), Ok(file.checksum()));
    assert!(matches!(
        file.verify_integrity_with(reports(&packs), true),
        Err(TraverseError::Processor(Error::MultiIndexChecksum(ChecksumError::Interrupted)))
    ));
    let outcome = file.verify_integrity_with(reports(&packs), false).ok().expect("a good multi-pack index");
    assert_eq!(outcome.pack_traverse_statistics, vec![stats(0), stats(1)]);
    assert!(matches!(
        file.begin_verification(Some(&Options::default()), true),
        Err(Error::MultiIndexChecksum(ChecksumError::Interrupted))
    ));
    let mut v = file.begin_verification(None::<&Options<NeverCache>>, false).ok().expect("a good multi-pack index");
    assert_eq!(file.next_step(&v), Step::OpenIndex(0));
    assert_eq!(file.pack_opened(&mut v, opened(&packs).remove(0), true), Err(Error::Interrupted));
    assert_eq!(file.next_step(&v), Step::Stop);
}

#[test]
fn single_object_index_passes() {
    let (mut file, _) = good_midx();
    file.entries.truncate(1);
    file.fan = fan_of(&file.entries);
    let index = PackIndex { entries: vec![IndexEntry { oid: file.entries[0].oid.clone(), pack_offset: file.entries[0].pack_offset }] };
    assert_eq!(
        file.verify_integrity_fast_with(vec![Ok(index), Ok(PackIndex { entries: Vec::new() })], false),
        Ok(file.checksum())
    );
}
