use rusty_git::codec::compress_content;
use rusty_git::codec::generate_hash;
use rusty_git::object::compress_object;
use rusty_git::object::object_header;
use rusty_git::object::parse_object;
use rusty_git::object::read_and_compress;
use rusty_git::object::read_object;
use rusty_git::object::ObjectError;
use rusty_git::object::ObjectType;
use rusty_git::text::push_decimal;

#[test]
fn test_generate_hash() {
    let content = b"test content";
    let hash = generate_hash(&content.to_vec());
    assert_eq!(hash.len(), 20);
}

#[test]
fn test_compress_content() {
    let content = b"test content";
    let compressed = compress_content(content);
    assert!(!compressed.is_empty());
}

#[test]
fn test_compress_object() {
    let content = b"test content";
    let compressed_object = compress_object(content, ObjectType::Blob, None);
    assert_eq!(compressed_object.object_type, ObjectType::Blob);
    assert!(!compressed_object.content.is_empty());
    assert_eq!(compressed_object.hash.len(), 20);
}

#[test]
fn test_object_header() {
    let header = object_header(12, &ObjectType::Blob);
    assert_eq!(header, "blob 12\0");
}

#[test]
fn header_of_each_type() {
    assert_eq!(object_header(0, &ObjectType::Tree), "tree 0\0");
    assert_eq!(object_header(1234567890, &ObjectType::Commit), "commit 1234567890\0");
}

#[test]
fn decimal_of_large_numbers() {
    let mut s = String::from("t=");
    push_decimal(&mut s, 1700000000123);
    assert_eq!(s, "t=1700000000123");
    let mut z = String::new();
    push_decimal(&mut z, 0);
    assert_eq!(z, "0");
    let mut m = String::new();
    push_decimal(&mut m, u128::MAX);
    assert_eq!(m, u128::MAX.to_string());
}

#[test]
fn blob_hashes_match_known_values() {
    let empty = compress_object(b"", ObjectType::Blob, None);
    assert_eq!(empty.hash_str, "e69de29bb2d1d6434b8b29ae775ad8c2e48c5391");
    let hello = compress_object(b"hello", ObjectType::Blob, None);
    assert_eq!(hello.hash_str, "b6fc4c620b67d95f953a5c1c1230aaab5db5a1b0");
    let line = compress_object(b"test content\n", ObjectType::Blob, None);
    assert_eq!(line.hash_str, "d670460b4b4aece5915caf5c68d12f560a9fe3e4");
    assert_eq!(line.hash[0], 0xd6);
    assert_eq!(line.hash[19], 0xe4);
}

#[test]
fn hash_is_over_header_and_payload() {
    let obj = compress_object(b"hello", ObjectType::Blob, None);
    let mut wire = b"blob 5\0".to_vec();
    wire.extend_from_slice(b"hello");
    assert_eq!(generate_hash(&wire), obj.hash);
    assert_ne!(generate_hash(&b"hello".to_vec()), obj.hash);
}

#[test]
fn read_and_compress_keeps_path() {
    let obj = read_and_compress("./dir/a.txt", b"hello", ObjectType::Blob);
    assert_eq!(obj.path.as_deref(), Some("./dir/a.txt"));
    assert_eq!(obj.hash_str, "b6fc4c620b67d95f953a5c1c1230aaab5db5a1b0");
}

#[test]
fn round_trip_every_type() {
    let payloads: Vec<&[u8]> = vec![b"", b"hello", b"with\0nul and spaces", &[0xff, 0x00, 0x20, 0x0a]];
    for t in [ObjectType::Blob, ObjectType::Tree, ObjectType::Commit] {
        for p in &payloads {
            let obj = compress_object(p, t, None);
            let back = read_object(&obj.content).unwrap();
            assert_eq!(back.content, p.to_vec());
            assert_eq!(back.object_type, t);
        }
    }
}

#[test]
fn stored_bytes_decompress_to_wire() {
    let obj = compress_object(b"hello", ObjectType::Blob, None);
    let again = compress_content(b"blob 5\0hello");
    assert_eq!(obj.content, again);
}

#[test]
fn encoding_is_deterministic() {
    let a = compress_object(b"same bytes", ObjectType::Blob, None);
    let b = compress_object(b"same bytes", ObjectType::Blob, None);
    assert_eq!(a.hash_str, b.hash_str);
    assert_eq!(a.hash, b.hash);
    assert_eq!(a.content, b.content);
}

#[test]
fn distinct_payloads_get_distinct_hashes() {
    let a = compress_object(b"payload one", ObjectType::Blob, None);
    let b = compress_object(b"payload two", ObjectType::Blob, None);
    assert_ne!(a.hash, b.hash);
    let c = compress_object(b"payload one", ObjectType::Commit, None);
    assert_ne!(a.hash, c.hash);
}

#[test]
fn truncated_stored_bytes_fail() {
    let obj = compress_object(b"some content that is long enough", ObjectType::Blob, None);
    for n in 0..obj.content.len() {
        let r = read_object(&obj.content[..n]);
        assert!(matches!(r, Err(ObjectError::Decode) | Err(ObjectError::Corrupt)), "prefix {}", n);
    }
}

#[test]
fn truncated_wire_is_corrupt() {
    let wire = b"blob 5\0hello";
    for n in 0..wire.len() {
        assert!(matches!(parse_object(&wire[..n]), Err(ObjectError::Corrupt)));
    }
    assert!(parse_object(wire).is_ok());
}

#[test]
fn unknown_type_token_is_corrupt() {
    let stored = compress_content(b"blub 5\0hello");
    assert!(matches!(read_object(&stored), Err(ObjectError::Corrupt)));
    let stored = compress_content(b"tag 5\0hello");
    assert!(matches!(read_object(&stored), Err(ObjectError::Corrupt)));
}

#[test]
fn malformed_headers_are_corrupt() {
    for wire in [&b"blob 6\0hello"[..], b"blob5\0hello", b"blob 5 hello", b"blob \0", b"blob 05\0hello", b"hello"] {
        assert!(matches!(parse_object(wire), Err(ObjectError::Corrupt)));
    }
}

#[test]
fn garbage_is_a_decode_error() {
    assert!(matches!(read_object(b"not zlib at all"), Err(ObjectError::Decode)));
    assert!(matches!(read_object(b""), Err(ObjectError::Decode)));
}

#[test]
fn type_names_and_modes() {
    assert_eq!(ObjectType::Blob.name(), "blob");
    assert_eq!(ObjectType::Tree.name(), "tree");
    assert_eq!(ObjectType::Commit.name(), "commit");
    assert_eq!(ObjectType::Blob.mode(), "100644");
    assert_eq!(ObjectType::Tree.mode(), "40000");
}
