use texture_cache_rs::bytes::{
    read_u32_le, read_u64_le, write_u32_le, write_u64_le, ByteReader, ReadError,
};

#[test]
fn numbers_come_back() {
    let mut bytes: Vec<u8> = Vec::new();
    write_u32_le(&mut bytes, 0xdead_beef);
    write_u64_le(&mut bytes, 0x0123_4567_89ab_cdef);
    assert_eq!(
        bytes,
        vec![0xef, 0xbe, 0xad, 0xde, 0xef, 0xcd, 0xab, 0x89, 0x67, 0x45, 0x23, 0x01]
    );
    let mut reader = ByteReader::new(&bytes);
    assert_eq!(read_u32_le(&mut reader), Ok(0xdead_beef));
    assert_eq!(read_u64_le(&mut reader), Ok(0x0123_4567_89ab_cdef));
    assert_eq!(read_u32_le(&mut reader), Err(ReadError::UnexpectedEof));
}

#[test]
fn too_few_bytes() {
    let bytes = [1u8, 2, 3];
    let mut reader = ByteReader::new(&bytes);
    assert_eq!(reader.remaining(), 3);
    assert_eq!(read_u32_le(&mut reader), Err(ReadError::UnexpectedEof));
    let seven = [0u8; 7];
    assert_eq!(
        read_u64_le(&mut ByteReader::new(&seven)),
        Err(ReadError::UnexpectedEof)
    );
}
