use vcdiff::address_cache::AddressCache;
use vcdiff::code_table::CodeTable;
use vcdiff::code_table::InstructionType;
use vcdiff::decoder::DecodeError;
use vcdiff::varint::ParseResult;
use vcdiff::varint::decode_varint_u32;
use vcdiff::varint::decode_varint_u64;
use vcdiff::vcdiff::header;
use vcdiff::vcdiff::window_header;

#[test]
fn format_varint_msb_first() {
    // the worked bytes of RFC 3284 §2: 0xBC 0x41 is 7745
    assert_eq!(decode_varint_u64(&[0xBC, 0x41], 0), ParseResult::Done(2, 7745));
    assert_eq!(decode_varint_u32(&[0xBC, 0x41], 0), ParseResult::Done(2, 7745));
    assert_eq!(decode_varint_u64(&[0x00], 0), ParseResult::Done(1, 0));
    assert_eq!(decode_varint_u64(&[0x81, 0x00], 0), ParseResult::Done(2, 128));
    assert_eq!(decode_varint_u64(&[0x80], 0), ParseResult::Incomplete);
    assert_eq!(decode_varint_u64(&[], 0), ParseResult::Incomplete);
}

#[test]
fn format_varint_msb_overflow() {
    // six continuation groups pass 32 bits
    assert_eq!(
        decode_varint_u32(&[0x90, 0x80, 0x80, 0x80, 0x80, 0x00], 0),
        ParseResult::Error
    );
    assert_eq!(
        decode_varint_u32(&[0x8F, 0xFF, 0xFF, 0xFF, 0x7F], 0),
        ParseResult::Done(5, u32::MAX)
    );
}

#[test]
fn format_varint_encoder() {
    let mut e = vcdiff::varint::VarIntEncoder::new(7745);
    let mut bytes = Vec::new();
    while let Some(b) = e.next() {
        bytes.push(b);
    }
    assert_eq!(bytes, vec![0xBC, 0x41]);
    for v in [0u64, 1, 127, 128, 300, 7745, u64::MAX] {
        let mut e = vcdiff::varint::VarIntEncoder::new(v);
        let mut bytes = Vec::new();
        while let Some(b) = e.next() {
            bytes.push(b);
        }
        assert_eq!(decode_varint_u64(&bytes, 0), ParseResult::Done(bytes.len(), v));
    }
    let mut e = vcdiff::varint::VarIntEncoder::new(0);
    assert_eq!(e.next(), Some(0x00));
    assert_eq!(e.next(), None);
}

#[test]
fn default_code_table_entries() {
    let table = CodeTable::decode_default();
    assert_eq!(table.entries.len(), 256);
    assert_eq!(table.entries[0].first.typ, InstructionType::Run);
    assert_eq!(table.entries[0].first.size, 0);
    assert!(table.entries[0].second.is_none());
    assert_eq!(table.entries[1].first.typ, InstructionType::Add);
    assert_eq!(table.entries[1].first.size, 0);
    assert_eq!(table.entries[18].first.size, 17);
    assert_eq!(table.entries[19].first.typ, InstructionType::Copy);
    assert_eq!(table.entries[19].first.size, 0);
    assert_eq!(table.entries[19].first.mode, 0);
    assert_eq!(table.entries[20].first.size, 4);
    assert_eq!(table.entries[34].first.size, 18);
    assert_eq!(table.entries[35].first.mode, 1);
    assert_eq!(table.entries[162].first.mode, 8);
    assert_eq!(table.entries[162].first.size, 18);
    let e = table.entries[163];
    assert_eq!(e.first.typ, InstructionType::Add);
    assert_eq!(e.first.size, 1);
    let s = e.second.unwrap();
    assert_eq!(s.typ, InstructionType::Copy);
    assert_eq!(s.size, 4);
    assert_eq!(s.mode, 0);
    let e = table.entries[247];
    assert_eq!(e.first.typ, InstructionType::Copy);
    assert_eq!(e.first.size, 4);
    assert_eq!(e.first.mode, 0);
    let s = e.second.unwrap();
    assert_eq!(s.typ, InstructionType::Add);
    assert_eq!(s.size, 1);
    assert_eq!(table.entries[255].first.mode, 8);
}

#[test]
fn custom_code_table_round_length() {
    // 255 single adds of size 1, then one more: exactly 256 entries
    let mut bytes = vec![255, 1, 1, 0, 0, 0, 0];
    bytes.extend_from_slice(&[1, 2, 7, 0, 0, 0, 0]);
    match CodeTable::decode(&bytes, 0) {
        ParseResult::Done(next, table) => {
            assert_eq!(next, 14);
            assert_eq!(table.entries.len(), 256);
            assert_eq!(table.entries[0].first.typ, InstructionType::Add);
            assert_eq!(table.entries[254].first.size, 1);
            assert_eq!(table.entries[255].first.typ, InstructionType::Run);
            assert_eq!(table.entries[255].first.size, 7);
        }
        other => panic!("expected a full table, got {:?}", other),
    }
}

#[test]
fn custom_code_table_malformed() {
    // a zero repeat count is malformed
    assert_eq!(
        CodeTable::decode(&[0, 1, 1, 0, 0, 0, 0], 0),
        ParseResult::Error
    );
    // an unknown leading type is malformed
    assert_eq!(
        CodeTable::decode(&[1, 4, 1, 0, 0, 0, 0], 0),
        ParseResult::Error
    );
    // a count that passes 256 entries is malformed
    let mut bytes = vec![255, 1, 1, 0, 0, 0, 0];
    bytes.extend_from_slice(&[2, 1, 1, 0, 0, 0, 0]);
    assert_eq!(CodeTable::decode(&bytes, 0), ParseResult::Error);
    // a truncated record only asks for more input
    assert_eq!(CodeTable::decode(&[3, 1, 1], 0), ParseResult::Incomplete);
}

#[test]
fn header_magic_and_indicator() {
    match header(&[0xD6, 0xC3, 0xC4, 0x00, 0x00], 0) {
        ParseResult::Done(next, h) => {
            assert_eq!(next, 5);
            assert!(h.custom_code_table.is_none());
        }
        other => panic!("expected a parsed header, got {:?}", other),
    }
    assert!(matches!(
        header(&[0xD6, 0xC3, 0xC4, 0x01, 0x00], 0),
        ParseResult::Error
    ));
    // a good prefix of the magic asks for more input; a mismatch inside
    // the first four bytes is already an error
    assert!(matches!(header(&[0xD6, 0xC3], 0), ParseResult::Incomplete));
    assert!(matches!(header(&[0xD6, 0xC3, 0xC5], 0), ParseResult::Error));
    assert!(matches!(
        header(&[0xD6, 0xC3, 0xC4, 0x01], 0),
        ParseResult::Error
    ));
}

#[test]
fn header_skips_application_header() {
    // indicator bit 2: a length-prefixed opaque blob follows and is skipped
    match header(&[0xD6, 0xC3, 0xC4, 0x00, 0x04, 0x03, 0xAA, 0xBB, 0xCC, 0x77], 0) {
        ParseResult::Done(next, h) => {
            assert_eq!(next, 9);
            assert!(h.custom_code_table.is_none());
        }
        other => panic!("expected a parsed header, got {:?}", other),
    }
}

#[test]
fn window_header_fields() {
    // indicator SOURCE, segment length 8 at position 2, sizes 2/4/1
    let bytes = [0x01, 0x08, 0x02, 0x0E, 0x08, 0x00, 0x02, 0x04, 0x01];
    match window_header(&bytes, 0) {
        ParseResult::Done(next, h) => {
            assert_eq!(next, 9);
            assert_eq!(h.win_indicator, 0x01);
            assert_eq!(h.source_segment, Some((2, 8)));
            assert_eq!(h.delta_encoding_size, 14);
            assert_eq!(h.target_window_size, 8);
            assert_eq!(h.delta_indicator, 0);
            assert_eq!(h.adds_runs_size, 2);
            assert_eq!(h.instructions_size, 4);
            assert_eq!(h.copy_addresses_size, 1);
        }
        other => panic!("expected a parsed window header, got {:?}", other),
    }
    // both segment bits at once are malformed
    assert!(matches!(
        window_header(&[0x03, 0x08, 0x02, 0x0E, 0x08, 0x00, 0x02, 0x04, 0x01], 0),
        ParseResult::Error
    ));
}

#[test]
fn window_header_skips_checksum() {
    // ADLER32 bit: four checksum bytes trail the header
    let bytes = [0x04, 0x05, 0x03, 0x00, 0x00, 0x01, 0x00, 0xDE, 0xAD, 0xBE, 0xEF];
    match window_header(&bytes, 0) {
        ParseResult::Done(next, h) => {
            assert_eq!(next, 11);
            assert_eq!(h.source_segment, None);
            assert_eq!(h.target_window_size, 3);
        }
        other => panic!("expected a parsed window header, got {:?}", other),
    }
}

#[test]
fn address_cache_modes() {
    let mut cache = AddressCache::new(4, 3);
    // mode 0: the address is a plain varint
    assert_eq!(cache.decode(100, 0, &[0x05], 0), Ok((1, 5)));
    // the address now sits in near slot 0: a zero distance rederives it
    assert_eq!(cache.decode(100, 2, &[0x00], 0), Ok((1, 5)));
    // mode 1: a distance below here
    assert_eq!(cache.decode(10, 1, &[0x03], 0), Ok((1, 7)));
    // near slot 1 holds 5 from the second decode; 5 + 2 = 7
    assert_eq!(cache.decode(100, 3, &[0x02], 0), Ok((1, 7)));
    // the same cache holds 7 at slot 7: one raw byte selects it
    assert_eq!(cache.decode(100, 6, &[0x07], 0), Ok((1, 7)));
    // an unknown mode is a format failure
    assert_eq!(
        cache.decode(100, 9, &[0x00], 0),
        Err(DecodeError::FormatError)
    );
    // a distance above here is a format failure
    assert_eq!(cache.decode(1, 1, &[0x02], 0), Err(DecodeError::FormatError));
}

#[test]
fn address_cache_reset_gives_default_zero() {
    let mut cache = AddressCache::new(4, 3);
    assert_eq!(cache.decode(100, 0, &[0x21], 0), Ok((1, 0x21)));
    cache.reset();
    // before any address has been cached, every same-cache mode yields 0
    assert_eq!(cache.decode(100, 6, &[0x21], 0), Ok((1, 0)));
    assert_eq!(cache.decode(100, 7, &[0xFF], 0), Ok((1, 0)));
    // and a near mode offsets from a zeroed slot
    assert_eq!(cache.decode(100, 3, &[0x09], 0), Ok((1, 9)));
}
