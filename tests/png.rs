use pngme::chunk::Chunk;
use pngme::chunk_type::ChunkType;
use pngme::error::Error;
use pngme::png::Png;

fn chunk(t: &str, data: &[u8]) -> Chunk {
    Chunk::new(ChunkType::from_text(t).unwrap(), data.to_vec())
}

fn summary(p: &Png) -> Vec<(String, Vec<u8>, u32)> {
    p.chunks()
        .iter()
        .map(|c| (c.chunk_type().to_string(), c.data().to_vec(), c.crc()))
        .collect()
}

fn sample() -> Png {
    Png::from_chunks(vec![
        chunk("IHDR", &[0, 0, 0, 1, 0, 0, 0, 1, 8, 2, 0, 0, 0]),
        chunk("teXt", b"first"),
        chunk("IDAT", &[1, 2, 3, 4]),
        chunk("teXt", b"second"),
        chunk("IEND", &[]),
    ])
}

const SIGNATURE: [u8; 8] = [137, 80, 78, 71, 13, 10, 26, 10];

#[test]
fn container_round_trip() {
    let p = sample();
    let bytes = p.bytes();
    let expected_len: usize = 8 + p.chunks().iter().map(|c| 12 + c.length() as usize).sum::<usize>();
    assert_eq!(bytes.len(), expected_len);
    assert_eq!(&bytes[..8], &SIGNATURE);
    let q = Png::parse(&bytes).unwrap();
    assert_eq!(summary(&q), summary(&p));
    assert_eq!(q.bytes(), bytes);
}

#[test]
fn empty_container_is_just_the_signature() {
    let p = Png::from_chunks(Vec::new());
    assert_eq!(p.bytes(), SIGNATURE.to_vec());
    let q = Png::parse(&SIGNATURE).unwrap();
    assert!(q.chunks().is_empty());
    assert_eq!(q.header(), SIGNATURE);
}

#[test]
fn bad_signature_is_rejected() {
    let mut bytes = sample().bytes();
    bytes[1] = b'Q';
    assert_eq!(Png::parse(&bytes).err(), Some(Error::InvalidSignature));
    assert_eq!(Png::parse(&SIGNATURE[..7]).err(), Some(Error::InvalidSignature));
    assert_eq!(Png::parse(&[]).err(), Some(Error::InvalidSignature));
}

#[test]
fn any_bad_chunk_fails_the_whole_parse() {
    let bytes = sample().bytes();
    let mut tampered = bytes.clone();
    let last = tampered.len() - 1;
    tampered[last] ^= 0x10;
    assert_eq!(Png::parse(&tampered).err(), Some(Error::CrcMismatch));
    assert_eq!(Png::parse(&bytes[..bytes.len() - 3]).err(), Some(Error::Truncated));
}

#[test]
fn append_then_remove_new_type_restores_list() {
    let mut p = sample();
    let before = summary(&p);
    p.append_chunk(chunk("RuSt", b"hidden"));
    assert_eq!(p.chunks().len(), before.len() + 1);
    p.remove_chunk("RuSt").unwrap();
    assert_eq!(summary(&p), before);
}

#[test]
fn append_then_remove_existing_type_drops_earliest() {
    let mut p = sample();
    p.append_chunk(chunk("teXt", b"third"));
    p.remove_chunk("teXt").unwrap();
    let s = summary(&p);
    let texts: Vec<Vec<u8>> = s.iter().filter(|e| e.0 == "teXt").map(|e| e.1.clone()).collect();
    assert_eq!(texts, vec![b"second".to_vec(), b"third".to_vec()]);
    assert_eq!(s.last().unwrap().1, b"third".to_vec());
}

#[test]
fn remove_missing_type_is_not_found() {
    let mut p = sample();
    let before = summary(&p);
    assert_eq!(p.remove_chunk("ruSt"), Err(Error::NotFound));
    assert_eq!(p.remove_chunk("bad!"), Err(Error::NotFound));
    assert_eq!(summary(&p), before);
}

#[test]
fn find_returns_first_match() {
    let p = sample();
    assert_eq!(p.chunk_by_type("teXt").unwrap().data(), b"first");
    assert_eq!(p.chunk_by_type("IEND").unwrap().length(), 0);
    assert!(p.chunk_by_type("tEXt").is_none());
    assert!(p.chunk_by_type("toolong").is_none());
}

#[test]
fn dump_lists_each_chunk() {
    let p = sample();
    let text = p.to_string();
    assert!(text.contains("IHDR"));
    assert!(text.contains("IEND"));
    assert_eq!(text.lines().count(), 6);
}

#[test]
fn dump_text_is_exact() {
    let p = Png::from_chunks(vec![chunk("IEND", &[])]);
    assert_eq!(
        p.to_string(),
        "signature [137, 80, 78, 71, 13, 10, 26, 10], 1 chunks\nIEND length=0 crc=0xae426082"
    );
    let empty = Png::from_chunks(Vec::new());
    assert_eq!(empty.to_string(), "signature [137, 80, 78, 71, 13, 10, 26, 10], 0 chunks");
}
