//! The computing cores of the plumbing commands. Reading and writing files
//! and printing are left to the caller.

use vstd::prelude::*;

use crate::object::compress_object;
use crate::object::decode_stored;
use crate::object::encodes;
use crate::object::read_object;
use crate::object::CompressedObject;
use crate::object::ObjectError;
use crate::object::ObjectType;
use crate::tree::create_tree;
use crate::tree::is_tree_entry;
use crate::tree::join_lines;
use crate::tree::tree_name_lines;
use crate::tree::tree_names;
use crate::tree::tree_content;

verus! {

/// The words given on the command line after the command's name.
pub struct UserInput {
    pub input: Vec<String>,
}

/// The words joined with `/`.
pub open spec fn join_path(words: Seq<String>) -> Seq<char>
    decreases words.len(),
{
    if words.len() == 0 {
        Seq::empty()
    } else if words.len() == 1 {
        words[0]@
    } else {
        join_path(words.drop_last()) + seq!['/'] + words.last()@
    }
}

/// The directory that `init` sets up: the current one when no words are
/// given, else the words joined as a path.
pub fn cmd_init(args: UserInput) -> (r: String)
    ensures
        args.input@.len() == 0 ==> r@ == seq!['.'],
        args.input@.len() > 0 ==> r@ == join_path(args.input@),
{
    let words = &args.input;
    if words.len() == 0 {
        proof {
            reveal_strlit(".");
        }
        return String::from_str(".");
    }
    let mut path = words[0].clone();
    let mut i: usize = 1;
    while i < words.len()
        invariant
            1 <= i <= words@.len(),
            path@ == join_path(words@.subrange(0, i as int)),
        decreases words@.len() - i,
    {
        path.append("/");
        path.append(words[i].as_str());
        proof {
            reveal_strlit("/");
            let s = words@.subrange(0, i + 1);
            assert(s.drop_last() =~= words@.subrange(0, i as int));
            assert(s.last() == words@[i as int]);
            assert(join_path(s) == join_path(s.drop_last()) + seq!['/'] + s.last()@);
            assert(path@ =~= join_path(s));
        }
        i = i + 1;
    }
    assert(words@.subrange(0, words@.len() as int) =~= words@);
    path
}

/// What `cat-file` prints for the stored bytes of an object: its payload.
pub fn cmd_cat_file(stored: &[u8]) -> (r: Result<Vec<u8>, ObjectError>)
    ensures
        match decode_stored(stored@) {
            Ok((payload, _)) => r matches Ok(c) && c@ == payload,
            Err(e) => r matches Err(f) && f == e,
        },
{
    match read_object(stored) {
        Ok(object) => Ok(object.content),
        Err(e) => Err(e),
    }
}

/// What `hash-object` makes of some content: a blob.
pub fn cmd_hash_object(content: &[u8]) -> (r: CompressedObject)
    ensures
        encodes(r, content@, ObjectType::Blob),
        r.path is None,
{
    compress_object(content, ObjectType::Blob, None)
}

/// The tree of the working directory, from the objects made from its entries.
pub fn write_tree(objects: Vec<CompressedObject>) -> (r: CompressedObject)
    requires
        forall|i: int| 0 <= i < objects@.len() ==> is_tree_entry(#[trigger] objects@[i]),
    ensures
        encodes(r, tree_content(objects@), ObjectType::Tree),
        r.path matches Some(p) && p@ == seq!['.', '/'],
{
    proof {
        reveal_strlit("./");
    }
    create_tree("./", objects)
}

/// A byte vector, or the error that came instead.
pub open spec fn bytes_result(r: Result<Vec<u8>, ObjectError>) -> Result<Seq<u8>, ObjectError> {
    match r {
        Ok(v) => Ok(v@),
        Err(e) => Err(e),
    }
}

/// What `ls-tree` prints for the stored bytes of an object: the raw payload
/// of a tree, or with `name_only` the names of its entries, one per line.
pub open spec fn ls_tree_output(name_only: bool, stored: Seq<u8>) -> Result<Seq<u8>, ObjectError> {
    match decode_stored(stored) {
        Err(e) => Err(e),
        Ok((payload, t)) => {
            if t != ObjectType::Tree {
                Err(ObjectError::NotATree)
            } else if !name_only {
                Ok(payload)
            } else {
                match tree_names(payload) {
                    Some(names) => Ok(join_lines(names)),
                    None => Err(ObjectError::Corrupt),
                }
            }
        },
    }
}

/// What `ls-tree` prints for the stored bytes of an object.
pub fn cmd_ls_tree(name_only: bool, stored: &[u8]) -> (r: Result<Vec<u8>, ObjectError>)
    ensures
        bytes_result(r) == ls_tree_output(name_only, stored@),
{
    let object = match read_object(stored) {
        Ok(object) => object,
        Err(e) => return Err(e),
    };
    if object.object_type != ObjectType::Tree {
        return Err(ObjectError::NotATree);
    }
    if !name_only {
        return Ok(object.content);
    }
    match tree_name_lines(object.content.as_slice()) {
        Some(lines) => Ok(lines),
        None => Err(ObjectError::Corrupt),
    }
}

} // verus!
