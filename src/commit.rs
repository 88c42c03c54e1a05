//! Commit objects: a text naming the snapshot's tree and its parent, who made
//! it and when, and the message.

use vstd::prelude::*;
use vstd::string::StringSliceAdditionalSpecFns;

use crate::object::compress_object;
use crate::object::encodes;
use crate::object::CompressedObject;
use crate::object::ObjectType;
use crate::text::decimal;
use crate::text::push_decimal;

verus! {

/// Who made a commit, and in which time zone.
pub struct Signature {
    pub name: String,
    pub email: String,
    /// The offset from UTC, as written in the commit (`+0300`).
    pub utc_offset: String,
}

impl Signature {
    pub fn new(name: &str, email: &str, utc_offset: &str) -> (r: Signature)
        ensures
            r.name@ == name@,
            r.email@ == email@,
            r.utc_offset@ == utc_offset@,
    {
        Signature {
            name: String::from_str(name),
            email: String::from_str(email),
            utc_offset: String::from_str(utc_offset),
        }
    }
}

/// `<name> <<email>> <timestamp> <offset>`.
pub open spec fn signature_line(sig: Signature, timestamp: nat) -> Seq<char> {
    sig.name@ + seq![' ', '<'] + sig.email@ + seq!['>', ' '] + decimal(timestamp) + seq![' ']
        + sig.utc_offset@
}

/// The text of a commit. Without a parent the parent line holds a single space.
pub open spec fn commit_text(
    parent: Option<Seq<char>>,
    message: Seq<char>,
    tree: Seq<char>,
    sig: Signature,
    timestamp: nat,
) -> Seq<char> {
    let parent = match parent {
        Some(p) => p,
        None => seq![' '],
    };
    let who = signature_line(sig, timestamp);
    seq!['t', 'r', 'e', 'e', ' '] + tree + seq!['\n', 'p', 'a', 'r', 'e', 'n', 't', ' '] + parent
        + seq!['\n', 'a', 'u', 't', 'h', 'o', 'r', ' '] + who + seq![
        '\n',
        'c',
        'o',
        'm',
        'm',
        'i',
        't',
        't',
        'e',
        'r',
        ' ',
    ] + who + seq!['\n', '\n'] + message + seq!['\n']
}

/// The optional parent as characters.
pub open spec fn parent_chars(parent: Option<&str>) -> Option<Seq<char>> {
    match parent {
        Some(p) => Some(p@),
        None => None,
    }
}

fn push_signature(s: &mut String, sig: &Signature, timestamp: u128)
    ensures
        final(s)@ == old(s)@ + signature_line(*sig, timestamp as nat),
{
    proof {
        reveal_strlit(" <");
        reveal_strlit("> ");
        reveal_strlit(" ");
    }
    s.append(sig.name.as_str());
    s.append(" <");
    s.append(sig.email.as_str());
    s.append("> ");
    push_decimal(s, timestamp);
    s.append(" ");
    s.append(sig.utc_offset.as_str());
    assert(final(s)@ =~= old(s)@ + signature_line(*sig, timestamp as nat));
}

/// The text of a commit of `tree_hash` with the given parent, message, author
/// and time (milliseconds since the Unix epoch). The author is also the
/// committer.
pub fn commit_content(
    parent: Option<&str>,
    message: &str,
    tree_hash: &str,
    author: &Signature,
    timestamp: u128,
) -> (r: String)
    ensures
        r@ == commit_text(parent_chars(parent), message@, tree_hash@, *author, timestamp as nat),
{
    proof {
        reveal_strlit("tree ");
        reveal_strlit("\nparent ");
        reveal_strlit(" ");
        reveal_strlit("\nauthor ");
        reveal_strlit("\ncommitter ");
        reveal_strlit("\n\n");
        reveal_strlit("\n");
    }
    let mut s = String::from_str("tree ");
    s.append(tree_hash);
    s.append("\nparent ");
    match parent {
        Some(p) => s.append(p),
        None => s.append(" "),
    }
    s.append("\nauthor ");
    push_signature(&mut s, author, timestamp);
    s.append("\ncommitter ");
    push_signature(&mut s, author, timestamp);
    s.append("\n\n");
    s.append(message);
    s.append("\n");
    assert(s@ =~= commit_text(parent_chars(parent), message@, tree_hash@, *author, timestamp as nat));
    s
}

/// Builds the commit object of `tree_hash`: its payload is the commit text as
/// UTF-8.
pub fn cmd_commit(
    parent: Option<&str>,
    message: &str,
    tree_hash: &str,
    author: &Signature,
    timestamp: u128,
) -> (r: CompressedObject)
    ensures
        encodes(
            r,
            vstd::utf8::encode_utf8(
                commit_text(parent_chars(parent), message@, tree_hash@, *author, timestamp as nat),
            ),
            ObjectType::Commit,
        ),
        r.path is None,
{
    let content = commit_content(parent, message, tree_hash, author, timestamp);
    let text = content.as_str();
    compress_object(text.as_bytes(), ObjectType::Commit, None)
}

} // verus!
