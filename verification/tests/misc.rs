use rhizome_trees::graph::hex_encode;
use rhizome_trees::hash::{Blake3Hash, HashRoot, Hasher};
use rhizome_trees::lww::LLWReg;
use rhizome_trees::value::{BytesValue, Hashable, Int32BigEndian};

#[test]
fn int32_serializes_big_endian() {
    let mut buf: Vec<u8> = Vec::new();
    Int32BigEndian(5).append_hash_bytes(&mut buf);
    assert_eq!(buf, vec![0, 0, 0, 5]);
    let mut buf2: Vec<u8> = Vec::new();
    Int32BigEndian(-1).append_hash_bytes(&mut buf2);
    assert_eq!(buf2, vec![255, 255, 255, 255]);
}

#[test]
fn bytes_value_serializes_as_is() {
    let mut buf: Vec<u8> = Vec::new();
    BytesValue(vec![1, 2, 3]).append_hash_bytes(&mut buf);
    assert_eq!(buf, vec![1, 2, 3]);
}

#[test]
fn hex_encoding_is_lowercase_pairs() {
    assert_eq!(hex_encode(&[]), "");
    assert_eq!(hex_encode(&[0, 255, 16]), "00ff10");
}

#[test]
fn blake3_digest_is_deterministic() {
    let mut a = Blake3Hash::new();
    a.update(&[1, 2, 3]);
    let da = a.finalize();
    let mut b = Blake3Hash::new();
    b.update(&[1, 2]);
    b.update(&[3]);
    let db = b.finalize();
    assert_eq!(da, db);
    assert_eq!(da.len(), 32);
    let mut c = Blake3Hash::new();
    c.update(&[1, 2, 4]);
    assert_ne!(c.finalize(), da);
}

#[test]
fn hash_root_captures_last_update() {
    let mut sink = HashRoot::new();
    sink.update(&[1, 2]);
    sink.update(&[3, 4]);
    assert_eq!(Hasher::finalize(&mut sink), vec![3, 4]);
}

#[test]
fn lww_register_keeps_newest_write() {
    let mut reg = LLWReg { time: 5, value: 1 };
    reg.set(2, 4);
    assert_eq!(reg.value, 1);
    reg.set(3, 6);
    assert_eq!(reg.value, 3);
    // The stamp itself is not advanced, so a later write at a newer stamp
    // still wins.
    assert_eq!(reg.time, 5);
    reg.set(4, 3);
    assert_eq!(reg.value, 3);
}

#[test]
fn bytes_value_renders_as_hex() {
    let v = BytesValue(vec![0xde, 0xad]);
    assert_eq!(v.to_hex(), "dead");
    assert_eq!(Int32BigEndian::from(7), Int32BigEndian(7));
}
