//! Where objects live: under `<objects-root>/<first two hex digits>/<the other
//! thirty-eight>`.

use vstd::prelude::*;

use crate::object::ObjectError;

verus! {

/// A lowercase hexadecimal digit.
pub open spec fn is_hex_char(c: char) -> bool {
    ('0' <= c <= '9') || ('a' <= c <= 'f')
}

/// The name of an object: forty lowercase hexadecimal digits.
pub open spec fn is_hex_name(h: Seq<char>) -> bool {
    h.len() == 40 && forall|i: int| 0 <= i < 40 ==> is_hex_char(#[trigger] h[i])
}

/// The directory that holds the object named `hash`.
pub open spec fn object_dir(root: Seq<char>, hash: Seq<char>) -> Seq<char> {
    root + seq!['/'] + hash.subrange(0, 2)
}

/// The file that holds the object named `hash`.
pub open spec fn object_file(root: Seq<char>, hash: Seq<char>) -> Seq<char> {
    object_dir(root, hash) + seq!['/'] + hash.subrange(2, hash.len() as int)
}

/// The directory and the file of one object.
pub struct ObjectLocation {
    pub dir: String,
    pub file: String,
}

/// Whether `hash` is the name of an object.
pub fn is_object_name(hash: &str) -> (r: bool)
    ensures
        r == is_hex_name(hash@),
{
    if hash.unicode_len() != 40 {
        return false;
    }
    let mut i: usize = 0;
    while i < 40
        invariant
            hash@.len() == 40,
            i <= 40,
            forall|k: int| 0 <= k < i ==> is_hex_char(#[trigger] hash@[k]),
        decreases 40 - i,
    {
        let c = hash.get_char(i);
        if !(('0' <= c && c <= '9') || ('a' <= c && c <= 'f')) {
            return false;
        }
        i = i + 1;
    }
    true
}

/// Where the object named `hash` is stored under `objects_root`. A name that
/// is not forty lowercase hexadecimal digits names no object.
pub fn object_location(objects_root: &str, hash: &str) -> (r: Result<ObjectLocation, ObjectError>)
    ensures
        is_hex_name(hash@) ==> (r matches Ok(l) && l.dir@ == object_dir(objects_root@, hash@)
            && l.file@ == object_file(objects_root@, hash@)),
        !is_hex_name(hash@) ==> (r matches Err(e) && e == ObjectError::NotFound),
{
    if !is_object_name(hash) {
        return Err(ObjectError::NotFound);
    }
    proof {
        reveal_strlit("/");
    }
    let mut dir = String::from_str(objects_root);
    dir.append("/");
    dir.append(hash.substring_char(0, 2));
    let mut file = dir.clone();
    file.append("/");
    file.append(hash.substring_char(2, 40));
    Ok(ObjectLocation { dir, file })
}

} // verus!
