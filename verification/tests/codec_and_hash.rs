use contextdb::codec;
use contextdb::hashing;

#[test]
fn round_trip_recovers_the_text() {
    let text = "fn main() {\n    println!(\"hi\");\n}\n";
    let compressed = codec::compress(text).unwrap();
    assert_ne!(compressed.as_slice(), text.as_bytes());
    let back = codec::decompress(&compressed).unwrap();
    assert_eq!(back, text);
}

#[test]
fn round_trip_of_empty_text() {
    let compressed = codec::compress("").unwrap();
    let back = codec::decompress(&compressed).unwrap();
    assert_eq!(back, "");
}

#[test]
fn round_trip_helper_returns_the_input() {
    let text = "some\nlines\nof text";
    assert_eq!(codec::codec_round_trip(text).as_deref(), Some(text));
}

#[test]
fn garbled_bytes_fail_to_decompress() {
    assert!(codec::decompress(b"definitely not a zstd frame").is_none());
}

#[test]
fn hash_is_deterministic() {
    let a = hashing::hash_text("the same content");
    let b = hashing::hash_text("the same content");
    assert_eq!(a, b);
}

#[test]
fn hash_has_its_documented_value() {
    assert_eq!(hashing::hash_text(""), 0xcbf2_9ce4_8422_2325);
    assert_eq!(hashing::hash_text("abc"), 0xe71f_a219_0541_574b);
}

#[test]
fn hash_separates_contents() {
    assert_ne!(hashing::hash_text("abc"), hashing::hash_text("abd"));
}
