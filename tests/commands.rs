use rusty_git::commands::cmd_cat_file;
use rusty_git::commands::cmd_hash_object;
use rusty_git::commands::cmd_init;
use rusty_git::commands::cmd_ls_tree;
use rusty_git::commands::UserInput;
use rusty_git::object::read_and_compress;
use rusty_git::object::ObjectError;
use rusty_git::object::ObjectType;
use rusty_git::store::is_object_name;
use rusty_git::store::object_location;
use rusty_git::tree::create_tree;

#[test]
fn init_target_directory() {
    assert_eq!(cmd_init(UserInput { input: vec![] }), ".");
    assert_eq!(cmd_init(UserInput { input: vec!["repo".to_string()] }), "repo");
    assert_eq!(cmd_init(UserInput { input: vec!["a".to_string(), "b".to_string(), "c".to_string()] }), "a/b/c");
}

#[test]
fn hash_object_makes_a_blob() {
    let o = cmd_hash_object(b"hello");
    assert_eq!(o.object_type, ObjectType::Blob);
    assert_eq!(o.hash_str, "b6fc4c620b67d95f953a5c1c1230aaab5db5a1b0");
    assert!(o.path.is_none());
}

#[test]
fn cat_file_prints_payload() {
    let o = cmd_hash_object(b"hello world");
    assert_eq!(cmd_cat_file(&o.content).unwrap(), b"hello world".to_vec());
    assert!(matches!(cmd_cat_file(b"junk"), Err(ObjectError::Decode)));
}

#[test]
fn ls_tree_lists_names_or_payload() {
    let a = read_and_compress("d/a.txt", b"hello", ObjectType::Blob);
    let b = read_and_compress("d/b.txt", b"world", ObjectType::Blob);
    let t = create_tree("d", vec![b, a]);
    assert_eq!(cmd_ls_tree(true, &t.content).unwrap(), b"a.txt\nb.txt".to_vec());
    let raw = cmd_ls_tree(false, &t.content).unwrap();
    assert!(raw.starts_with(b"100644 a.txt\0"));
    let blob = cmd_hash_object(b"hello");
    assert!(matches!(cmd_ls_tree(true, &blob.content), Err(ObjectError::NotATree)));
}

#[test]
fn object_locations() {
    let hash = "b6fc4c620b67d95f953a5c1c1230aaab5db5a1b0";
    let loc = object_location(".git/objects", hash).unwrap();
    assert_eq!(loc.dir, ".git/objects/b6");
    assert_eq!(loc.file, ".git/objects/b6/fc4c620b67d95f953a5c1c1230aaab5db5a1b0");
    assert!(is_object_name(hash));
    assert!(!is_object_name("ab1234"));
    assert!(!is_object_name("B6FC4C620B67D95F953A5C1C1230AAAB5DB5A1B0"));
    assert!(matches!(object_location(".git/objects", "ab1234"), Err(ObjectError::NotFound)));
}
