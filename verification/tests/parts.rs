use vcdiff::cache::AddressCache;
use vcdiff::checksum::{checksum, read_be32, write_be32};
use vcdiff::codetable::{instruction_for, opcode_for, InstructionKind, TableEntry};
use vcdiff::json::wrap_json;
use vcdiff::varint::{read_varint, write_varint, Varint};

#[test]
fn varint_exact_bytes() {
    let cases: Vec<(u64, Vec<u8>)> = vec![
        (0, vec![0x00]),
        (1, vec![0x01]),
        (127, vec![0x7F]),
        (128, vec![0x81, 0x00]),
        (300, vec![0x82, 0x2C]),
        (16383, vec![0xFF, 0x7F]),
        (16384, vec![0x81, 0x80, 0x00]),
        (0x7fff_ffff_ffff_ffff, vec![0xFF, 0xFF, 0xFF, 0xFF, 0xFF, 0xFF, 0xFF, 0xFF, 0x7F]),
    ];
    for (value, bytes) in cases {
        let mut out = vec![0xAA];
        write_varint(value, &mut out);
        assert_eq!(out[1..].to_vec(), bytes);
        out.push(0x55);
        assert_eq!(read_varint(&out, 1), Varint::Value { value, next: 1 + bytes.len() });
    }
}

#[test]
fn varint_incomplete_and_overlong() {
    assert_eq!(read_varint(&[], 0), Varint::Incomplete);
    assert_eq!(read_varint(&[0x81], 0), Varint::Incomplete);
    assert_eq!(read_varint(&[0x01], 1), Varint::Incomplete);
    assert_eq!(read_varint(&[0x01], 7), Varint::Incomplete);
    assert_eq!(read_varint(&[0x80; 9], 0), Varint::Overlong);
    assert_eq!(read_varint(&[0x80; 20], 3), Varint::Overlong);
    assert_eq!(read_varint(&[0x80; 8], 0), Varint::Incomplete);
    // leading zero groups are accepted
    assert_eq!(read_varint(&[0x80, 0x80, 0x05], 0), Varint::Value { value: 5, next: 3 });
}

#[test]
fn adler32_exact_values() {
    assert_eq!(checksum(b""), 1);
    assert_eq!(checksum(b"a"), 0x0062_0062);
    assert_eq!(checksum(b"Wikipedia"), 0x11E6_0398);
    assert_eq!(checksum(&[0xFFu8; 1000]), {
        // the two sums, step by step
        let (mut a, mut b) = (1u32, 0u32);
        for _ in 0..1000 {
            a = (a + 255) % 65521;
            b = (b + a) % 65521;
        }
        (b << 16) | a
    });
}

#[test]
fn be32_exact_bytes() {
    let mut out = Vec::new();
    write_be32(0x11E6_0398, &mut out);
    assert_eq!(out, vec![0x11, 0xE6, 0x03, 0x98]);
    out.insert(0, 0);
    assert_eq!(read_be32(&out, 1), 0x11E6_0398);
}

#[test]
fn code_table_entries() {
    assert_eq!(instruction_for(0), Some(TableEntry { kind: InstructionKind::Run, size: 0, mode: 0 }));
    assert_eq!(instruction_for(1), Some(TableEntry { kind: InstructionKind::Add, size: 0, mode: 0 }));
    assert_eq!(instruction_for(18), Some(TableEntry { kind: InstructionKind::Add, size: 17, mode: 0 }));
    assert_eq!(instruction_for(19), Some(TableEntry { kind: InstructionKind::Copy, size: 0, mode: 0 }));
    assert_eq!(instruction_for(20), Some(TableEntry { kind: InstructionKind::Copy, size: 4, mode: 0 }));
    assert_eq!(instruction_for(34), Some(TableEntry { kind: InstructionKind::Copy, size: 18, mode: 0 }));
    assert_eq!(instruction_for(35), Some(TableEntry { kind: InstructionKind::Copy, size: 0, mode: 1 }));
    assert_eq!(instruction_for(162), Some(TableEntry { kind: InstructionKind::Copy, size: 18, mode: 8 }));
    assert_eq!(instruction_for(163), None);
    assert_eq!(instruction_for(255), None);
}

#[test]
fn opcodes_and_entries_agree() {
    for opcode in 0u8..=162 {
        let e = instruction_for(opcode).expect("assigned");
        assert_eq!(opcode_for(e.kind, e.size as u64, e.mode), opcode);
    }
    assert_eq!(opcode_for(InstructionKind::Add, 18, 0), 1);
    assert_eq!(opcode_for(InstructionKind::Add, 0, 0), 1);
    assert_eq!(opcode_for(InstructionKind::Copy, 3, 2), 51);
    assert_eq!(opcode_for(InstructionKind::Copy, 19, 8), 147);
    assert_eq!(opcode_for(InstructionKind::Run, 1000, 0), 0);
}

#[test]
fn address_cache_modes() {
    let mut cache = AddressCache::new();
    // address 0 is in the same table from the start
    assert_eq!(cache.encode_address(0, 10), (6, 0));
    // nothing near: the shorter of the address and the distance back
    assert_eq!(cache.encode_address(1000, 1001), (1, 1));
    assert_eq!(cache.encode_address(5, 5000), (2, 5));
    cache.update(5000);
    // the same address again: a same-table hit, in group 5000 % 768 / 256
    assert_eq!(cache.encode_address(5000, 9000), (6 + ((5000 % 768) / 256) as u8, (5000 % 256) as u64));
    // close behind a recent address: near slot 0
    assert_eq!(cache.encode_address(5003, 9000), (2, 3));
    cache.update(7000);
    assert_eq!(cache.encode_address(7010, 9000), (3, 10));
    assert_eq!(cache.remembers(7000), true);
    assert_eq!(cache.remembers(7001), false);
}

#[test]
fn address_cache_decodes_what_it_encodes() {
    let mut enc = AddressCache::new();
    let mut dec = AddressCache::new();
    let mut here = 1u64;
    let mut state = 12345u64;
    for _ in 0..2000 {
        state = state.wrapping_mul(6364136223846793005).wrapping_add(1442695040888963407);
        here += (state >> 60) + 1;
        let addr = (state >> 20) % here;
        let (mode, value) = enc.encode_address(addr, here);
        assert_eq!(dec.decode_address(mode, value, here), Some(addr));
        enc.update(addr);
        dec.update(addr);
    }
}

#[test]
fn address_cache_refuses_what_is_out_of_range() {
    let cache = AddressCache::new();
    assert_eq!(cache.decode_address(0, 10, 10), None);
    assert_eq!(cache.decode_address(0, 9, 10), Some(9));
    assert_eq!(cache.decode_address(1, 0, 10), None);
    assert_eq!(cache.decode_address(1, 10, 10), Some(0));
    assert_eq!(cache.decode_address(1, 11, 10), None);
    assert_eq!(cache.decode_address(2, 10, 10), None);
    assert_eq!(cache.decode_address(5, 3, 10), Some(3));
    assert_eq!(cache.decode_address(6, 256, 10), None);
    assert_eq!(cache.decode_address(8, 255, 10), Some(0));
    assert_eq!(cache.decode_address(9, 0, 10), None);
    assert_eq!(cache.decode_address(6, 0, 0), None);
}

#[test]
fn json_escapes() {
    assert_eq!(wrap_json(b""), b"{\"vcdiff\":\"\"}".to_vec());
    assert_eq!(wrap_json(b"a b~"), b"{\"vcdiff\":\"a b~\"}".to_vec());
    assert_eq!(wrap_json(&[0x00, 0x1F, 0x22, 0x5C, 0x7F, 0xFF]), b"{\"vcdiff\":\"\\u0000\\u001f\\u0022\\u005c\\u007f\\u00ff\"}".to_vec());
}
