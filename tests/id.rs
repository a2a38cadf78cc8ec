use dag::{Group, Id, VertexName};

#[test]
fn test_vertex_from_hex_odd() {
    let vertex = VertexName::from_hex(b"a").unwrap();
    let vertex2 = VertexName::from_hex(b"a0").unwrap();
    assert_eq!(vertex, vertex2);
    assert_eq!(vertex.to_hex(), "a0");
}

#[test]
fn group_spans_partition_the_id_space() {
    let m = Group::MASTER.span();
    let n = Group::NON_MASTER.span();
    assert_eq!(m.low, Id(0));
    assert_eq!(m.high, Id((1u64 << 56) - 1));
    assert_eq!(n.low, Id(1u64 << 56));
    assert_eq!(n.high, Id((1u64 << 57) - 1));
    // Disjoint, and no gap between them.
    assert_eq!(m.high.0 + 1, n.low.0);
    assert_eq!(Group::MASTER.min_id(), Id(0));
    assert_eq!(Group::NON_MASTER.max_id(), Id(dag::id::MAX_ID));
}

#[test]
fn group_of_ids() {
    assert_eq!(Id(0).group(), Group::MASTER);
    assert_eq!(Id((1u64 << 56) - 1).group(), Group::MASTER);
    assert_eq!(Id(1u64 << 56).group(), Group::NON_MASTER);
    assert_eq!(Id(dag::id::MAX_ID).group(), Group::NON_MASTER);
}

#[test]
fn id_text_marks_non_master() {
    assert_eq!(Id(0).to_string(), "0");
    assert_eq!(Id(1234).to_string(), "1234");
    assert_eq!(Id((1u64 << 56) + 7).to_string(), "N7");
    assert_eq!(Id(1u64 << 56).to_string(), "N0");
}

#[test]
fn bytearray_is_big_endian() {
    let id = Id(0x0102_0304_0506_0708);
    assert_eq!(id.to_bytearray(), [1, 2, 3, 4, 5, 6, 7, 8]);
    assert_eq!(id.to_prefixed_bytearray(9), [9, 1, 2, 3, 4, 5, 6, 7, 8]);
    assert!(Id(255).to_bytearray() < Id(256).to_bytearray());
}

#[test]
fn id_iter_counts_up() {
    let mut it = Id(3).to(Id(5));
    assert_eq!(it.next(), Some(Id(3)));
    assert_eq!(it.next(), Some(Id(4)));
    assert_eq!(it.next(), Some(Id(5)));
    assert_eq!(it.next(), None);
    let mut empty = Id(5).to(Id(3));
    assert_eq!(empty.next(), None);
}

#[test]
fn hex_round_trip() {
    let bytes = vec![0u8, 1, 0x7f, 0x80, 0xab, 0xff];
    let v = VertexName(bytes.clone());
    let hex = v.to_hex();
    assert_eq!(hex, "00017f80abff");
    let back = VertexName::from_hex(hex.as_bytes()).unwrap();
    assert_eq!(back, v);
    assert_eq!(VertexName::from_hex(b"").unwrap(), VertexName(vec![]));
}

#[test]
fn hex_accepts_upper_case_and_odd_length() {
    assert_eq!(VertexName::from_hex(b"AbC").unwrap(), VertexName(vec![0xab, 0xc0]));
    assert_eq!(
        VertexName::from_hex(b"abc").unwrap(),
        VertexName::from_hex(b"abc0").unwrap()
    );
}

#[test]
fn hex_rejects_first_bad_char() {
    assert_eq!(VertexName::from_hex(b"0g1z"), Err(dag::InvalidHex(b'g')));
    assert_eq!(VertexName::from_hex(b"x"), Err(dag::InvalidHex(b'x')));
}

#[test]
fn vertex_copy_and_debug_text() {
    let v = VertexName::copy_from(&[0x11, 0x33, 0x22]);
    assert_eq!(v.0, vec![0x11, 0x33, 0x22]);
    assert_eq!(v.to_debug_string(None), "113322");
    assert_eq!(v.to_debug_string(Some(4)), "1133");
    assert_eq!(v.to_debug_string(Some(40)), "113322");
    assert_eq!(VertexName(b"a".to_vec()).to_debug_string(None), "a");
    assert_eq!(VertexName(vec![]).to_debug_string(None), "");
    assert_eq!(VertexName(vec![0xaa]).to_debug_string(None), "aa");
}

#[test]
fn group_names() {
    assert_eq!(Group::MASTER.to_string(), "Group Master");
    assert_eq!(Group::NON_MASTER.to_string(), "Group Non-Master");
}

#[test]
fn id_constants_and_steps() {
    assert_eq!(Id::lowest(), Id(0));
    assert_eq!(Id::highest(), Id(dag::id::MAX_ID));
    assert_eq!(Id(10).add(5), Id(15));
    assert_eq!(Id(10).sub(10), Id(0));
    assert_eq!(Group::ALL, [Group::MASTER, Group::NON_MASTER]);
    assert_eq!(Group::COUNT, 2);
    assert_eq!(Group::BITS, 8);
}
