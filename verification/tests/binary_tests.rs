use list_lang::binary::{frame_binary, pack_binary, unframe_binary, unpack_binary};

#[test]
fn pack_then_unpack_gives_the_bytes_back() {
    let data = b"hello hello hello hello".to_vec();
    let packed = pack_binary(&data).unwrap();
    assert_eq!(&packed[0..5], b"LIST\x01");
    assert_ne!(&packed[5..], &data[..]);
    assert_eq!(packed[5], 0x78);
    assert_eq!(unpack_binary(&packed).unwrap(), data);
}

#[test]
fn frame_then_unframe() {
    let framed = frame_binary(b"ab");
    assert_eq!(framed, b"LIST\x01ab".to_vec());
    assert_eq!(unframe_binary(&framed).unwrap(), b"ab".to_vec());
}

#[test]
fn too_small_file_is_refused() {
    assert_eq!(unpack_binary(b"LIS").unwrap_err(), "文件太小，不是有效的二进制文件");
}

#[test]
fn wrong_magic_is_refused() {
    assert_eq!(unpack_binary(b"ABCD\x01xyz").unwrap_err(), "无效的文件格式 (magic不匹配)");
}

#[test]
fn wrong_version_is_refused() {
    assert_eq!(unpack_binary(b"LIST\x02abc").unwrap_err(), "不支持的版本: 2");
}

#[test]
fn corrupt_payload_is_refused() {
    let e = unpack_binary(b"LIST\x01garbage").unwrap_err();
    assert!(e.starts_with("解压失败"), "{}", e);
}
