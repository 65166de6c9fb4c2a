use pngme::chunk::Chunk;
use pngme::chunk_type::ChunkType;
use pngme::crc::crc32;
use pngme::error::Error;
use std::str::FromStr;

fn testing_chunk() -> Chunk {
    let data_length: u32 = 42;
    let chunk_type = b"RuSt";
    let message_bytes = b"This is where your secret message will be!";
    let crc: u32 = 2882656334;

    let chunk_data: Vec<u8> = data_length
        .to_be_bytes()
        .iter()
        .chain(chunk_type.iter())
        .chain(message_bytes.iter())
        .chain(crc.to_be_bytes().iter())
        .copied()
        .collect();

    Chunk::decode(chunk_data.as_ref()).unwrap()
}

fn frame(length: u32, chunk_type: &[u8], data: &[u8], crc: u32) -> Vec<u8> {
    length
        .to_be_bytes()
        .iter()
        .chain(chunk_type.iter())
        .chain(data.iter())
        .chain(crc.to_be_bytes().iter())
        .copied()
        .collect()
}

#[test]
fn test_crc32() {
    let chunk_type = b"The ";
    let data = b"quick brown fox jumps over the lazy dog".to_vec();
    assert_eq!(crc32(chunk_type, &data), 0x414fa339);
}

#[test]
fn test_new_chunk() {
    let chunk_type = ChunkType::from_str("RuSt").unwrap();
    let data = b"This is where your secret message will be!".to_vec();
    let chunk = Chunk::new(chunk_type, data);
    assert_eq!(chunk.length(), 42);
    assert_eq!(chunk.crc(), 2882656334);
}

#[test]
fn test_chunk_length() {
    let chunk = testing_chunk();
    assert_eq!(chunk.length(), 42);
}

#[test]
fn test_chunk_type() {
    let chunk = testing_chunk();
    assert_eq!(chunk.chunk_type().to_string(), String::from("RuSt"));
}

#[test]
fn test_chunk_string() {
    let chunk = testing_chunk();
    let chunk_string = chunk.data_as_string().unwrap();
    let expected_chunk_string = String::from("This is where your secret message will be!");
    assert_eq!(chunk_string, expected_chunk_string);
}

#[test]
fn test_chunk_crc() {
    let chunk = testing_chunk();
    assert_eq!(chunk.crc(), 0xabd1d84e);
}

#[test]
fn test_valid_chunk_from_bytes() {
    let data_length: u32 = 42;
    let chunk_type = b"RuSt";
    let message_bytes = b"This is where your secret message will be!";
    let crc: u32 = 2882656334;

    let chunk_data: Vec<u8> = data_length
        .to_be_bytes()
        .iter()
        .chain(chunk_type.iter())
        .chain(message_bytes.iter())
        .chain(crc.to_be_bytes().iter())
        .copied()
        .collect();

    let chunk = Chunk::decode(chunk_data.as_ref()).unwrap();

    let chunk_string = chunk.data_as_string().unwrap();
    let expected_chunk_string = String::from("This is where your secret message will be!");

    assert_eq!(chunk.length(), 42);
    assert_eq!(chunk.chunk_type().to_string(), String::from("RuSt"));
    assert_eq!(chunk_string, expected_chunk_string);
    assert_eq!(chunk.crc(), 0xabd1d84e);
}

#[test]
fn test_invalid_chunk_from_bytes() {
    let data_length: u32 = 42;
    let chunk_type = b"RuSt";
    let message_bytes = b"This is where your secret message will be!";
    let crc: u32 = 2882656333;

    let chunk_data: Vec<u8> = data_length
        .to_be_bytes()
        .iter()
        .chain(chunk_type.iter())
        .chain(message_bytes.iter())
        .chain(crc.to_be_bytes().iter())
        .copied()
        .collect();

    let chunk = Chunk::decode(chunk_data.as_ref());

    assert!(chunk.is_err());
}

#[test]
pub fn test_chunk_trait_impls() {
    let data_length: u32 = 42;
    let chunk_type = b"RuSt";
    let message_bytes = b"This is where your secret message will be!";
    let crc: u32 = 2882656334;

    let chunk_data: Vec<u8> = data_length
        .to_be_bytes()
        .iter()
        .chain(chunk_type.iter())
        .chain(message_bytes.iter())
        .chain(crc.to_be_bytes().iter())
        .copied()
        .collect();

    let chunk: Chunk = Chunk::decode(chunk_data.as_ref()).unwrap();

    let _chunk_string = chunk.to_string();
}

#[test]
fn crc_reference_for_rust_message() {
    assert_eq!(crc32(b"RuSt", b"This is where your secret message will be!"), 2882656334);
    assert_eq!(crc32(b"", b""), 0);
    assert_eq!(crc32(b"IEND", b""), 0xae426082);
}

#[test]
fn round_trip_keeps_every_field() {
    let t = ChunkType::from_text("teXt").unwrap();
    for payload in [Vec::new(), vec![0u8], vec![0u8, 255, 7, 128, 3], b"hello".to_vec()] {
        let c = Chunk::new(t, payload.clone());
        let bytes = c.bytes();
        assert_eq!(bytes.len(), 12 + payload.len());
        let d = Chunk::decode(&bytes).unwrap();
        assert_eq!(d.length(), c.length());
        assert_eq!(*d.chunk_type(), t);
        assert_eq!(d.data(), payload.as_slice());
        assert_eq!(d.crc(), c.crc());
    }
}

#[test]
fn empty_payload_chunk_encodes_exactly() {
    let c = Chunk::new(ChunkType::from_text("IEND").unwrap(), Vec::new());
    assert_eq!(c.length(), 0);
    assert_eq!(c.crc(), 0xae426082);
    assert_eq!(c.bytes(), vec![0, 0, 0, 0, 73, 69, 78, 68, 0xae, 0x42, 0x60, 0x82]);
}

#[test]
fn flipping_any_bit_of_payload_or_crc_is_detected() {
    let c = Chunk::new(ChunkType::from_text("RuSt").unwrap(), b"secret".to_vec());
    let bytes = c.bytes();
    for i in 8..bytes.len() {
        for bit in 0..8 {
            let mut tampered = bytes.clone();
            tampered[i] ^= 1 << bit;
            assert_eq!(Chunk::decode(&tampered).unwrap_err(), Error::CrcMismatch);
        }
    }
}

#[test]
fn short_buffers_are_rejected() {
    let c = Chunk::new(ChunkType::from_text("RuSt").unwrap(), b"abc".to_vec());
    let bytes = c.bytes();
    for n in 0..bytes.len() {
        assert_eq!(Chunk::decode(&bytes[..n]).unwrap_err(), Error::Truncated);
    }
    assert!(Chunk::decode(&bytes).is_ok());
}

#[test]
fn oversized_length_is_rejected() {
    let bytes = frame(0x8000_0000, b"RuSt", b"", 0);
    assert_eq!(Chunk::decode(&bytes).unwrap_err(), Error::InvalidLength);
    let bytes = frame(0xffff_ffff, b"RuSt", b"", 0);
    assert_eq!(Chunk::decode(&bytes).unwrap_err(), Error::InvalidLength);
    let bytes = frame(0x7fff_ffff, b"RuSt", b"", 0);
    assert_eq!(Chunk::decode(&bytes).unwrap_err(), Error::Truncated);
}

#[test]
fn bad_type_bytes_are_rejected() {
    let crc = crc32(b"Ru1t", b"x");
    let bytes = frame(1, b"Ru1t", b"x", crc);
    assert_eq!(Chunk::decode(&bytes).unwrap_err(), Error::InvalidEncoding);
}

#[test]
fn non_utf8_payload_is_not_text() {
    let c = Chunk::new(ChunkType::from_text("RuSt").unwrap(), vec![0xff, 0xfe]);
    assert_eq!(c.data_as_string(), Err(Error::InvalidEncoding));
    let d = Chunk::new(ChunkType::from_text("RuSt").unwrap(), "héllo".as_bytes().to_vec());
    assert_eq!(d.data_as_string().unwrap(), "héllo");
}

#[test]
fn decode_reads_only_the_leading_chunk() {
    let c = Chunk::new(ChunkType::from_text("RuSt").unwrap(), b"abc".to_vec());
    let mut bytes = c.bytes();
    bytes.extend_from_slice(&[1, 2, 3]);
    let d = Chunk::decode(&bytes).unwrap();
    assert_eq!(d.data(), b"abc");
    assert_eq!(d.bytes(), c.bytes());
}

#[test]
fn chunk_summary_names_the_type() {
    let c = Chunk::new(ChunkType::from_text("RuSt").unwrap(), b"abc".to_vec());
    assert!(c.to_string().contains("RuSt"));
}

#[test]
fn chunk_summary_is_exact() {
    let c = Chunk::new(ChunkType::from_text("IEND").unwrap(), Vec::new());
    assert_eq!(c.to_string(), "IEND length=0 crc=0xae426082");
}

#[test]
fn try_from_matches_decode() {
    let c = Chunk::new(ChunkType::from_text("RuSt").unwrap(), b"abc".to_vec());
    let bytes = c.bytes();
    let d = Chunk::try_from(bytes.as_slice()).unwrap();
    assert_eq!(d.bytes(), bytes);
    assert_eq!(Chunk::try_from(&bytes[..5]).unwrap_err(), Error::Truncated);
}
