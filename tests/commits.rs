use rusty_git::commit::cmd_commit;
use rusty_git::commit::commit_content;
use rusty_git::commit::Signature;
use rusty_git::object::read_object;
use rusty_git::object::ObjectType;

const TREE: &str = "4b825dc642cb6eb9a060e54bf8d69288fbee4904";

fn author() -> Signature {
    Signature::new("Ada Lovelace", "ada@example.org", "+0300")
}

#[test]
fn commit_text_without_parent() {
    let text = commit_content(None, "msg", TREE, &author(), 1700000000123);
    assert_eq!(
        text,
        "tree 4b825dc642cb6eb9a060e54bf8d69288fbee4904\n\
         parent  \n\
         author Ada Lovelace <ada@example.org> 1700000000123 +0300\n\
         committer Ada Lovelace <ada@example.org> 1700000000123 +0300\n\
         \n\
         msg\n"
    );
}

#[test]
fn commit_text_with_parent() {
    let parent = "e69de29bb2d1d6434b8b29ae775ad8c2e48c5391";
    let text = commit_content(Some(parent), "second", TREE, &author(), 5);
    assert!(text.starts_with("tree 4b825dc642cb6eb9a060e54bf8d69288fbee4904\nparent e69de29bb2d1d6434b8b29ae775ad8c2e48c5391\nauthor "));
    assert!(text.ends_with(" 5 +0300\n\nsecond\n"));
}

#[test]
fn commit_object_round_trips() {
    let c = cmd_commit(None, "msg", TREE, &author(), 42);
    assert_eq!(c.object_type, ObjectType::Commit);
    assert!(c.path.is_none());
    let back = read_object(&c.content).unwrap();
    assert_eq!(back.object_type, ObjectType::Commit);
    assert_eq!(back.content, commit_content(None, "msg", TREE, &author(), 42).into_bytes());
}

#[test]
fn commit_hash_depends_on_time() {
    let a = cmd_commit(None, "msg", TREE, &author(), 1);
    let b = cmd_commit(None, "msg", TREE, &author(), 2);
    let c = cmd_commit(None, "msg", TREE, &author(), 1);
    assert_ne!(a.hash_str, b.hash_str);
    assert_eq!(a.hash_str, c.hash_str);
}
