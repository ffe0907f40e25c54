use guest_mem::{
    BoundedSink, ByteSink, ByteSource, DataInit, Error, MemoryMapping, SmallRecord, VecSink,
    VecSource,
};

#[test]
fn zero_length_mapping_is_refused() {
    assert_eq!(MemoryMapping::new(0).unwrap_err(), Error::ZeroSize);
}

#[test]
fn new_mapping_is_zero_filled() {
    let m = MemoryMapping::new(16).unwrap();
    assert_eq!(m.size(), 16);
    assert_eq!(m.read_slice(0, 16).unwrap(), vec![0u8; 16]);
}

#[test]
fn slice_round_trip() {
    let mut m = MemoryMapping::new(32).unwrap();
    m.write_slice(&[1, 2, 3, 4], 10).unwrap();
    assert_eq!(m.read_slice(10, 4).unwrap(), vec![1, 2, 3, 4]);
    assert_eq!(m.read_slice(9, 6).unwrap(), vec![0, 1, 2, 3, 4, 0]);
}

#[test]
fn out_of_bounds_slice_access_fails() {
    let mut m = MemoryMapping::new(8).unwrap();
    assert_eq!(m.read_slice(5, 4).unwrap_err(), Error::OutOfBounds);
    assert_eq!(m.read_slice(9, 0).unwrap_err(), Error::OutOfBounds);
    assert_eq!(m.write_slice(&[1, 2], 7).unwrap_err(), Error::OutOfBounds);
    assert_eq!(m.read_slice(0, 4).unwrap(), vec![0; 4]);
}

#[test]
fn object_round_trip_in_mapping() {
    let mut m = MemoryMapping::new(64).unwrap();
    let r = SmallRecord {
        a: 0x1111_2222,
        b: 0x3333_4444,
    };
    m.write_obj(r, 8).unwrap();
    assert_eq!(m.read_obj::<SmallRecord>(8).unwrap(), r);
    assert_eq!(m.read_obj::<u32>(8).unwrap(), 0x1111_2222);
    assert_eq!(m.read_obj::<SmallRecord>(60).unwrap_err(), Error::OutOfBounds);
}

#[test]
fn read_from_moves_what_the_source_holds() {
    let mut m = MemoryMapping::new(16).unwrap();
    let mut src = VecSource::new(vec![9, 8, 7]);
    let n = m.read_from(2, &mut src, 8).unwrap();
    assert_eq!(n, 3);
    assert_eq!(m.read_slice(0, 8).unwrap(), vec![0, 0, 9, 8, 7, 0, 0, 0]);
}

#[test]
fn read_exact_from_reports_short_source() {
    let mut m = MemoryMapping::new(16).unwrap();
    let mut src = VecSource::new(vec![9, 8, 7]);
    let e = m.read_exact_from(0, &mut src, 8).unwrap_err();
    assert_eq!(
        e,
        Error::ShortIo {
            expected: 8,
            completed: 3
        }
    );
    let mut src2 = VecSource::new(vec![1, 2, 3, 4]);
    m.read_exact_from(4, &mut src2, 4).unwrap();
    assert_eq!(m.read_slice(4, 4).unwrap(), vec![1, 2, 3, 4]);
}

#[test]
fn write_to_fills_the_sink() {
    let mut m = MemoryMapping::new(8).unwrap();
    m.write_slice(&[1, 2, 3, 4, 5, 6, 7, 8], 0).unwrap();
    let mut dst = VecSink::new();
    let n = m.write_to(2, &mut dst, 4).unwrap();
    assert_eq!(n, 4);
    assert_eq!(dst.bytes(), &vec![3, 4, 5, 6]);
    assert_eq!(m.write_to(6, &mut dst, 4).unwrap_err(), Error::OutOfBounds);
}

#[test]
fn write_all_to_reports_full_sink() {
    let mut m = MemoryMapping::new(8).unwrap();
    m.write_slice(&[1, 2, 3, 4, 5, 6, 7, 8], 0).unwrap();
    let mut dst = BoundedSink::new(3);
    let e = m.write_all_to(0, &mut dst, 6).unwrap_err();
    assert_eq!(
        e,
        Error::ShortIo {
            expected: 6,
            completed: 3
        }
    );
    assert_eq!(dst.bytes(), &vec![1, 2, 3]);
}

#[test]
fn source_and_sink_sequence_their_bytes() {
    let mut src = VecSource::new(vec![1, 2, 3, 4, 5]);
    assert_eq!(src.pull(2), vec![1, 2]);
    assert_eq!(src.pull(10), vec![3, 4, 5]);
    assert_eq!(src.pull(1), Vec::<u8>::new());

    let mut sink = VecSink::new();
    assert_eq!(sink.push(&[1, 2]), 2);
    assert_eq!(sink.push(&[3]), 1);
    assert_eq!(sink.into_bytes(), vec![1, 2, 3]);

    let mut bounded = BoundedSink::new(2);
    assert_eq!(bounded.push(&[7, 8, 9]), 2);
    assert_eq!(bounded.push(&[10]), 0);
    assert_eq!(bounded.bytes(), &vec![7, 8]);
}
