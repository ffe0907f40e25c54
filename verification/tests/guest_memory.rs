use guest_mem::{
    Error, GuestAddress, GuestMemory, SmallRecord, VecSink, VecSource, WideRecord,
};

const BOUNDARY: u64 = 0x8000_0000;
const BOUNDARY_REGION_SIZE: usize = 0x10000;
const ACCESS_SIZE: usize = 0x200;

/// Two regions that touch exactly at `BOUNDARY`, so an access straddling
/// that address crosses from one region into the next.
fn regions_touching_at_boundary() -> GuestMemory {
    GuestMemory::new(&vec![
        (
            GuestAddress(BOUNDARY - BOUNDARY_REGION_SIZE as u64),
            BOUNDARY_REGION_SIZE,
        ),
        (GuestAddress(BOUNDARY), BOUNDARY_REGION_SIZE),
    ])
    .unwrap()
}

fn small_memory() -> GuestMemory {
    GuestMemory::new(&vec![
        (GuestAddress(0x1000), 0x1000),
        (GuestAddress(0x4000), 0x2000),
    ])
    .unwrap()
}

#[test]
fn construction_rejects_zero_length_region() {
    let e = GuestMemory::new(&vec![
        (GuestAddress(0x1000), 0x1000),
        (GuestAddress(0x3000), 0),
    ])
    .unwrap_err();
    assert_eq!(e, Error::ZeroSize);
}

#[test]
fn construction_rejects_overlapping_regions() {
    let e = GuestMemory::new(&vec![
        (GuestAddress(0x1000), 0x1000),
        (GuestAddress(0x1800), 0x1000),
    ])
    .unwrap_err();
    assert_eq!(e, Error::Overlap);
}

#[test]
fn construction_rejects_duplicate_regions() {
    let e = GuestMemory::new(&vec![
        (GuestAddress(0x1000), 0x1000),
        (GuestAddress(0x1000), 0x1000),
    ])
    .unwrap_err();
    assert_eq!(e, Error::Overlap);
}

#[test]
fn construction_rejects_end_past_address_space() {
    let e = GuestMemory::new(&vec![(GuestAddress(u64::MAX - 0x10), 0x100)]).unwrap_err();
    assert_eq!(e, Error::AddressOverflow);
}

#[test]
fn touching_regions_are_accepted() {
    let gm = GuestMemory::new(&vec![
        (GuestAddress(0x1000), 0x1000),
        (GuestAddress(0x2000), 0x1000),
    ])
    .unwrap();
    assert_eq!(gm.num_regions(), 2);
    assert!(gm.address_in_range(GuestAddress(0x1000)));
    assert!(gm.address_in_range(GuestAddress(0x2FFF)));
    assert!(!gm.address_in_range(GuestAddress(0x3000)));
}

#[test]
fn construction_normalizes_input_order() {
    let gm = GuestMemory::new(&vec![
        (GuestAddress(0x4000), 0x1000),
        (GuestAddress(0x1000), 0x1000),
        (GuestAddress(0x2800), 0x800),
    ])
    .unwrap();
    assert_eq!(gm.num_regions(), 3);
    for (base, last) in [(0x1000u64, 0x1FFFu64), (0x2800, 0x2FFF), (0x4000, 0x4FFF)] {
        assert!(gm.address_in_range(GuestAddress(base)));
        assert!(gm.address_in_range(GuestAddress(last)));
    }
    assert!(!gm.address_in_range(GuestAddress(0xFFF)));
    assert!(!gm.address_in_range(GuestAddress(0x2000)));
    assert!(!gm.address_in_range(GuestAddress(0x3000)));
    assert!(!gm.address_in_range(GuestAddress(0x5000)));
}

#[test]
fn boundary_straddling_read_is_rejected() {
    let gm = regions_touching_at_boundary();
    let straddle = GuestAddress(BOUNDARY - 0x100);
    let e = gm.read_exact_at_addr(straddle, ACCESS_SIZE).unwrap_err();
    assert_eq!(e, Error::OutOfBounds);
    let ok = gm
        .read_exact_at_addr(GuestAddress(BOUNDARY), ACCESS_SIZE)
        .unwrap();
    assert_eq!(ok.len(), ACCESS_SIZE);
    assert_eq!(ok, vec![0u8; ACCESS_SIZE]);
}

#[test]
fn object_write_then_read_small() {
    let mut gm = small_memory();
    let r = SmallRecord {
        a: 0x1111_2222,
        b: 0x3333_4444,
    };
    gm.write_obj_at_addr(r, GuestAddress(0x1010)).unwrap();
    assert_eq!(gm.read_obj_from_addr::<SmallRecord>(GuestAddress(0x1010)).unwrap(), r);
    gm.write_obj_at_addr(r, GuestAddress(0x4000)).unwrap();
    assert_eq!(gm.read_obj_from_addr::<SmallRecord>(GuestAddress(0x4000)).unwrap(), r);
}

#[test]
fn object_write_then_read_wide() {
    let mut gm = small_memory();
    let r = WideRecord {
        elements: [0x1111_2222_3333_4444u64; 12],
    };
    gm.write_obj_at_addr(r, GuestAddress(0x1100)).unwrap();
    assert_eq!(gm.read_obj_from_addr::<WideRecord>(GuestAddress(0x1100)).unwrap(), r);
}

#[test]
fn object_access_across_region_end_fails() {
    let mut gm = small_memory();
    let r = SmallRecord { a: 1, b: 2 };
    let near_end = GuestAddress(0x1000 + 0x1000 - 4);
    assert_eq!(
        gm.write_obj_at_addr(r, near_end).unwrap_err(),
        Error::OutOfBounds
    );
    assert_eq!(
        gm.read_obj_from_addr::<SmallRecord>(near_end).unwrap_err(),
        Error::OutOfBounds
    );
}

#[test]
fn exact_byte_write_and_read() {
    let mut gm = small_memory();
    gm.write_all_at_addr(&[1, 2, 3, 4], GuestAddress(0x1FF0)).unwrap();
    assert_eq!(
        gm.read_exact_at_addr(GuestAddress(0x1FF0), 4).unwrap(),
        vec![1, 2, 3, 4]
    );
    let e = gm
        .write_all_at_addr(&[0u8; 0x20], GuestAddress(0x1FF0))
        .unwrap_err();
    assert_eq!(e, Error::OutOfBounds);
    assert_eq!(
        gm.read_exact_at_addr(GuestAddress(0x1FF0), 4).unwrap(),
        vec![1, 2, 3, 4]
    );
}

#[test]
fn best_effort_access_clips_to_region_end() {
    let mut gm = small_memory();
    let near_end = GuestAddress(0x1000 + 0x1000 - 4);
    let n = gm.write_at_addr(&[1, 2, 3, 4, 5, 6, 7, 8], near_end).unwrap();
    assert_eq!(n, 4);
    assert_eq!(gm.read_exact_at_addr(near_end, 4).unwrap(), vec![1, 2, 3, 4]);
    let back = gm.read_at_addr(near_end, 8).unwrap();
    assert_eq!(back, vec![1, 2, 3, 4]);
    assert_eq!(
        gm.write_at_addr(&[1], GuestAddress(0x3000)).unwrap_err(),
        Error::OutOfBounds
    );
}

#[test]
fn streaming_round_trip_in_region() {
    let mut gm = small_memory();
    let pattern: Vec<u8> = (0..ACCESS_SIZE).map(|i| i as u8).collect();
    let mut src = VecSource::new(pattern.clone());
    gm.read_to_memory(GuestAddress(0x4100), &mut src, ACCESS_SIZE).unwrap();

    let mut dst = VecSink::new();
    gm.write_from_memory(GuestAddress(0x4100), &mut dst, ACCESS_SIZE).unwrap();
    let sent = dst.into_bytes();
    assert_eq!(sent, pattern);

    let mut back_src = VecSource::new(sent);
    let mut gm2 = small_memory();
    gm2.read_to_memory(GuestAddress(0x1200), &mut back_src, ACCESS_SIZE).unwrap();
    assert_eq!(
        gm2.read_exact_at_addr(GuestAddress(0x1200), ACCESS_SIZE).unwrap(),
        pattern
    );
}

#[test]
fn streaming_cross_region_start_is_rejected() {
    let gm = regions_touching_at_boundary();
    let straddle = GuestAddress(BOUNDARY - 0x100);
    let mut dst = VecSink::new();
    let e = gm.write_from_memory(straddle, &mut dst, ACCESS_SIZE).unwrap_err();
    assert_eq!(e, Error::OutOfBounds);
    assert!(dst.into_bytes().is_empty());

    let mut gm = regions_touching_at_boundary();
    let mut src = VecSource::new(vec![0xAA; ACCESS_SIZE]);
    let e = gm.read_to_memory(straddle, &mut src, ACCESS_SIZE).unwrap_err();
    assert_eq!(e, Error::OutOfBounds);
}

#[test]
fn streaming_short_source_is_reported() {
    let mut gm = small_memory();
    let mut src = VecSource::new(vec![5, 6, 7]);
    let e = gm.read_to_memory(GuestAddress(0x1000), &mut src, 8).unwrap_err();
    assert_eq!(
        e,
        Error::ShortIo {
            expected: 8,
            completed: 3
        }
    );
    assert_eq!(
        gm.read_exact_at_addr(GuestAddress(0x1000), 3).unwrap(),
        vec![5, 6, 7]
    );
}

#[test]
fn best_effort_streaming_reports_transfer_count() {
    let mut gm = small_memory();
    let mut src = VecSource::new(vec![1, 2, 3]);
    let n = gm.read_from(GuestAddress(0x1000), &mut src, 8).unwrap();
    assert_eq!(n, 3);
    let mut dst = VecSink::new();
    let n = gm.write_to(GuestAddress(0x1000), &mut dst, 4).unwrap();
    assert_eq!(n, 4);
    assert_eq!(dst.into_bytes(), vec![1, 2, 3, 0]);
}

#[test]
fn disjoint_writes_do_not_disturb_each_other() {
    let mut gm = small_memory();
    gm.write_all_at_addr(&[0xAA; 16], GuestAddress(0x1100)).unwrap();
    gm.write_all_at_addr(&[0xBB; 16], GuestAddress(0x1120)).unwrap();
    assert_eq!(
        gm.read_exact_at_addr(GuestAddress(0x1100), 16).unwrap(),
        vec![0xAA; 16]
    );
    assert_eq!(
        gm.read_exact_at_addr(GuestAddress(0x1120), 16).unwrap(),
        vec![0xBB; 16]
    );
    assert_eq!(
        gm.read_exact_at_addr(GuestAddress(0x1110), 16).unwrap(),
        vec![0u8; 16]
    );

    let mut gm2 = small_memory();
    gm2.write_all_at_addr(&[0xBB; 16], GuestAddress(0x1120)).unwrap();
    gm2.write_all_at_addr(&[0xAA; 16], GuestAddress(0x1100)).unwrap();
    assert_eq!(
        gm2.read_exact_at_addr(GuestAddress(0x1100), 0x40).unwrap(),
        gm.read_exact_at_addr(GuestAddress(0x1100), 0x40).unwrap()
    );
}

#[test]
fn error_helpers_classify_failures() {
    assert_eq!(Error::from_os(13), Error::Os(13));
    assert!(Error::Os(13).is_construction_error());
    assert!(Error::ZeroSize.is_construction_error());
    assert!(Error::Overlap.is_construction_error());
    assert!(Error::AddressOverflow.is_construction_error());
    assert!(!Error::OutOfBounds.is_construction_error());
    assert!(!Error::ShortIo {
        expected: 4,
        completed: 1
    }
    .is_construction_error());
    assert!(!Error::OutOfBounds.describe().is_empty());
}

#[test]
fn size_and_end_reflect_the_regions() {
    let gm = small_memory();
    assert_eq!(gm.memory_size(), 0x3000);
    assert_eq!(gm.end_addr(), GuestAddress(0x6000));
    let empty = GuestMemory::new(&vec![]).unwrap();
    assert_eq!(empty.memory_size(), 0);
    assert_eq!(empty.end_addr(), GuestAddress(0));
    assert_eq!(empty.num_regions(), 0);
}
