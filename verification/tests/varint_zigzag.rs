use vcdiff::varint_zigzag::VarIntEncoder;
use vcdiff::varint_zigzag::VarIntIncomplete;
use vcdiff::varint_zigzag::VarIntResult;
use vcdiff::varint_zigzag::decode_varint_i64;
use vcdiff::varint_zigzag::decode_varint_u16;
use vcdiff::varint_zigzag::decode_varint_u32;
use vcdiff::varint_zigzag::decode_varint_u64;

fn collect(mut e: VarIntEncoder<u64>) -> Vec<u8> {
    let mut bytes = Vec::new();
    while let Some(b) = e.next() {
        bytes.push(b);
    }
    bytes
}

#[test]
fn u64_decode_varint_1() {
    assert_eq!(decode_varint_u64(&[0x1]), VarIntResult::Complete((1, 1)));
    assert_eq!(decode_varint_u64(&[0xBC, 0x41]), VarIntResult::Complete((0x20BC, 2)));
    assert_eq!(decode_varint_u64(&[0xC5, 0x64]), VarIntResult::Complete((0x3245, 2)));
}

#[test]
fn decode_300() {
    assert_eq!(
        decode_varint_u64(&[0b1010_1100, 0b0000_0010]),
        VarIntResult::Complete((300, 2))
    );
    assert_eq!(
        decode_varint_u32(&[0b1010_1100, 0b0000_0010]),
        VarIntResult::Complete((300, 2))
    );
    assert_eq!(
        decode_varint_u16(&[0b1010_1100, 0b0000_0010]),
        VarIntResult::Complete((300, 2))
    );
}

#[test]
fn decode_int_0_2_1() {
    assert_eq!(decode_varint_i64(&[0]), VarIntResult::Complete((0, 1)));
    assert_eq!(decode_varint_i64(&[2]), VarIntResult::Complete((1, 1)));
    assert_eq!(decode_varint_i64(&[1]), VarIntResult::Complete((-1, 1)));
}

#[test]
fn encode_decode_u64() {
    for v in [0u64, 1, 127, 128, 300, 16383, 16384, u64::MAX - 1, u64::MAX] {
        let bytes = collect(VarIntEncoder::<u64>::new(v));
        assert_eq!(decode_varint_u64(&bytes), VarIntResult::Complete((v, bytes.len())));
    }
    assert_eq!(collect(VarIntEncoder::<u64>::new(0)), vec![0x00]);
    assert_eq!(collect(VarIntEncoder::<u64>::new(300)), vec![0b1010_1100, 0b0000_0010]);
}

#[test]
fn encode_decode_i64() {
    for v in [0i64, 1, -1, 63, -64, 64, -65, i64::MAX, i64::MIN] {
        let bytes = collect(VarIntEncoder::<u64>::new_signed(v));
        assert_eq!(decode_varint_i64(&bytes), VarIntResult::Complete((v, bytes.len())));
    }
    // small magnitudes encode in one byte
    assert_eq!(collect(VarIntEncoder::<u64>::new_signed(-1)), vec![0x01]);
    assert_eq!(collect(VarIntEncoder::<u64>::new_signed(1)), vec![0x02]);
}

#[test]
fn resume_split_anywhere() {
    let bytes = collect(VarIntEncoder::<u64>::new(0xDEAD_BEEF_CAFE));
    let whole = decode_varint_u64(&bytes);
    for k in 0..bytes.len() {
        match decode_varint_u64(&bytes[..k]) {
            VarIntResult::Incomplete((inc, read)) => {
                assert_eq!(read, k);
                match inc.decode(&bytes[k..]) {
                    VarIntResult::Complete((v, rest)) => {
                        assert_eq!(
                            whole,
                            VarIntResult::Complete((v, k + rest)),
                            "split at {} changed the result",
                            k
                        );
                    }
                    other => panic!("resume at {} gave {:?}", k, other),
                }
            }
            other => panic!("prefix of {} bytes gave {:?}", k, other),
        }
    }
}

#[test]
fn resume_keeps_partial_state() {
    // 300 = 0xAC 0x02: one continuation byte, then the final group
    match decode_varint_u64(&[0xAC]) {
        VarIntResult::Incomplete((inc, read)) => {
            assert_eq!(read, 1);
            assert_eq!(inc.decode(&[0x02]), VarIntResult::Complete((300, 1)));
        }
        other => panic!("expected an incomplete result, got {:?}", other),
    }
}

#[test]
fn overflow_u64() {
    let mut bytes = collect(VarIntEncoder::<u64>::new(u64::MAX));
    assert_eq!(bytes.len(), 10);
    *bytes.last_mut().unwrap() += 1;
    assert_eq!(decode_varint_u64(&bytes), VarIntResult::Overflow(bytes.len()));
}

#[test]
fn overflow_u32() {
    // u32::MAX encodes as five bytes ending in 0x0F
    let mut bytes = vec![0xFF, 0xFF, 0xFF, 0xFF, 0x0F];
    assert_eq!(decode_varint_u32(&bytes), VarIntResult::Complete((u32::MAX, 5)));
    *bytes.last_mut().unwrap() += 1;
    assert_eq!(decode_varint_u32(&bytes), VarIntResult::Overflow(5));
}

#[test]
fn overflow_u16() {
    let mut bytes = vec![0xFF, 0xFF, 0x03];
    assert_eq!(decode_varint_u16(&bytes), VarIntResult::Complete((u16::MAX, 3)));
    *bytes.last_mut().unwrap() += 1;
    assert_eq!(decode_varint_u16(&bytes), VarIntResult::Overflow(3));
}

#[test]
fn overflow_i64() {
    let mut bytes = collect(VarIntEncoder::<u64>::new_signed(i64::MIN));
    *bytes.last_mut().unwrap() += 1;
    assert_eq!(decode_varint_i64(&bytes), VarIntResult::Overflow(bytes.len()));
}

#[test]
fn incomplete_on_empty_input() {
    assert_eq!(
        decode_varint_u64(&[]),
        VarIntResult::Incomplete((VarIntIncomplete { value: 0, shift: 0 }, 0))
    );
}
