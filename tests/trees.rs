use rusty_git::commands::write_tree;
use rusty_git::object::compress_object;
use rusty_git::object::read_and_compress;
use rusty_git::object::read_object;
use rusty_git::object::CompressedObject;
use rusty_git::object::ObjectType;
use rusty_git::tree::bytes_less;
use rusty_git::tree::create_tree;
use rusty_git::tree::is_skipped;
use rusty_git::tree::sort_by_path;
use rusty_git::tree::tree_format;
use rusty_git::tree::tree_name_lines;

fn blob(path: &str, content: &[u8]) -> CompressedObject {
    read_and_compress(path, content, ObjectType::Blob)
}

fn entry(mode: &str, name: &str, hash: &[u8; 20]) -> Vec<u8> {
    let mut e = Vec::new();
    e.extend_from_slice(mode.as_bytes());
    e.push(b' ');
    e.extend_from_slice(name.as_bytes());
    e.push(0);
    e.extend_from_slice(hash);
    e
}

#[test]
fn empty_tree_has_known_hash() {
    let t = create_tree("./", Vec::new());
    assert_eq!(t.hash_str, "4b825dc642cb6eb9a060e54bf8d69288fbee4904");
    assert_eq!(t.object_type, ObjectType::Tree);
}

#[test]
fn tree_format_renders_entries_in_given_order() {
    let a = blob("./x/a.txt", b"hello");
    let b = blob("./x/b", b"world");
    let ha = a.hash;
    let hb = b.hash;
    let payload = tree_format(&vec![b, a]);
    let mut expected = entry("100644", "b", &hb);
    expected.extend(entry("100644", "a.txt", &ha));
    assert_eq!(payload, expected);
}

#[test]
fn end_to_end_directory() {
    let a = blob("dir/a.txt", b"hello");
    let c = blob("dir/b/c.txt", b"world");
    let hash_a = a.hash;
    let hash_c = c.hash;
    let inner = create_tree("dir/b", vec![c]);
    let inner_back = read_object(&inner.content).unwrap();
    assert_eq!(inner_back.object_type, ObjectType::Tree);
    assert_eq!(inner_back.content, entry("100644", "c.txt", &hash_c));
    let hash_b = inner.hash;
    let outer = create_tree("dir", vec![inner, a]);
    let outer_back = read_object(&outer.content).unwrap();
    let mut expected = entry("100644", "a.txt", &hash_a);
    expected.extend(entry("40000", "b", &hash_b));
    assert_eq!(outer_back.content, expected);
    assert_eq!(outer.path.as_deref(), Some("dir"));
}

#[test]
fn tree_hash_ignores_listing_order() {
    let make = |order: &[usize]| {
        let all = [("./p/one", b"1".as_slice()), ("./p/two", b"2".as_slice()), ("./p/three", b"3".as_slice())];
        let objs: Vec<CompressedObject> = order.iter().map(|&i| blob(all[i].0, all[i].1)).collect();
        create_tree("./p", objs)
    };
    let first = make(&[0, 1, 2]);
    for order in [[0, 2, 1], [1, 0, 2], [1, 2, 0], [2, 0, 1], [2, 1, 0]] {
        let other = make(&order);
        assert_eq!(first.hash_str, other.hash_str);
        assert_eq!(first.content, other.content);
    }
}

#[test]
fn sort_orders_by_full_path_bytes() {
    let objs = vec![blob("d/b", b""), blob("d/a.txt", b""), blob("d/B", b""), blob("d/a", b"")];
    let sorted = sort_by_path(objs);
    let paths: Vec<&str> = sorted.iter().map(|o| o.path.as_deref().unwrap()).collect();
    assert_eq!(paths, vec!["d/B", "d/a", "d/a.txt", "d/b"]);
}

#[test]
fn byte_order() {
    assert!(bytes_less(b"a", b"b"));
    assert!(bytes_less(b"a", b"a.txt"));
    assert!(!bytes_less(b"a.txt", b"a"));
    assert!(!bytes_less(b"same", b"same"));
    assert!(bytes_less(b"", b"x"));
    assert!(bytes_less(b"Z", b"a"));
}

#[test]
fn write_tree_names_the_working_directory() {
    let t = write_tree(vec![blob("./a.txt", b"hello")]);
    assert_eq!(t.path.as_deref(), Some("./"));
    let back = read_object(&t.content).unwrap();
    assert_eq!(back.content, entry("100644", "a.txt", &compress_object(b"hello", ObjectType::Blob, None).hash));
}

#[test]
fn tree_names_are_listed_one_per_line() {
    let a = blob("d/a.txt", b"hello");
    let b = create_tree("d/b", vec![blob("d/b/c.txt", b"world")]);
    let t = create_tree("d", vec![b, a]);
    let back = read_object(&t.content).unwrap();
    assert_eq!(tree_name_lines(&back.content).unwrap(), b"a.txt\nb".to_vec());
    assert_eq!(tree_name_lines(b"").unwrap(), Vec::<u8>::new());
    assert!(tree_name_lines(b"100644 a.txt\0short").is_none());
    assert!(tree_name_lines(b"100644").is_none());
}

#[test]
fn walk_skips_self_and_metadata() {
    assert!(is_skipped("./", "./"));
    assert!(is_skipped("./", "./.git"));
    assert!(is_skipped("./", "./.git/objects/ab"));
    assert!(is_skipped("./x", "./x/.git"));
    assert!(!is_skipped("./", "./.gitignore"));
    assert!(!is_skipped("./", "./a.git"));
    assert!(!is_skipped("./", "./src/main.rs"));
}
