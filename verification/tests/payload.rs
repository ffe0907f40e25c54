use guest_mem::{DataInit, SmallRecord, WideRecord};

#[test]
fn small_record_size_is_eight() {
    assert_eq!(SmallRecord::size(), 8);
}

#[test]
fn wide_record_size_is_ninety_six() {
    assert_eq!(WideRecord::size(), 96);
}

#[test]
fn small_record_encodes_little_endian() {
    let r = SmallRecord {
        a: 0x0403_0201,
        b: 0x0807_0605,
    };
    assert_eq!(r.to_bytes(), vec![1, 2, 3, 4, 5, 6, 7, 8]);
}

#[test]
fn small_record_decodes_any_pattern() {
    let bytes: Vec<u8> = (0..8).collect();
    let r = SmallRecord::from_bytes(&bytes);
    assert_eq!(r.a, 0x0302_0100);
    assert_eq!(r.b, 0x0706_0504);
}

#[test]
fn small_record_round_trips() {
    let r = SmallRecord {
        a: 0x1111_2222,
        b: 0x3333_4444,
    };
    let back = SmallRecord::from_bytes(&r.to_bytes());
    assert_eq!(back, r);
}

#[test]
fn wide_record_round_trips() {
    let r = WideRecord {
        elements: [0x1111_2222_3333_4444u64; 12],
    };
    let bytes = r.to_bytes();
    assert_eq!(bytes.len(), 96);
    let back = WideRecord::from_bytes(&bytes);
    assert_eq!(back, r);
}

#[test]
fn wide_record_encodes_each_element_in_order() {
    let mut elements = [0u64; 12];
    for (i, e) in elements.iter_mut().enumerate() {
        *e = i as u64 + 1;
    }
    let r = WideRecord { elements };
    let bytes = r.to_bytes();
    for i in 0..12 {
        assert_eq!(bytes[8 * i], (i + 1) as u8);
        for k in 1..8 {
            assert_eq!(bytes[8 * i + k], 0);
        }
    }
}

#[test]
fn primitive_round_trips() {
    let x: u32 = 0xDEAD_BEEF;
    assert_eq!(u32::from_bytes(&x.to_bytes()), x);
    let y: u64 = 0x0123_4567_89AB_CDEF;
    assert_eq!(u64::from_bytes(&y.to_bytes()), y);
    let b: u8 = 0x5A;
    assert_eq!(u8::from_bytes(&b.to_bytes()), b);
    assert_eq!(y.to_bytes(), vec![0xEF, 0xCD, 0xAB, 0x89, 0x67, 0x45, 0x23, 0x01]);
}
