//! Objects and their envelope. An object is stored as the zlib stream of its
//! wire bytes, `"<type> <length>\0"` followed by the payload, and is named by
//! the SHA-1 digest of those wire bytes.

use vstd::prelude::*;
use vstd::slice::slice_subrange;
use vstd::slice::slice_to_vec;

use crate::codec::compress_content;
use crate::codec::generate_hash;
use crate::codec::hex_encode;
use crate::codec::hex_of;
use crate::codec::inflate_of;
use crate::codec::sha1_of;
use crate::codec::zlib_decompress;
use crate::codec::zlib_of;
use crate::text::decimal;
use crate::text::lemma_decimal_value;
use crate::text::push_decimal;

verus! {

/// The three kinds of stored object.
#[derive(Debug, Clone, Copy, PartialEq, Eq, Structural)]
pub enum ObjectType {
    Tree,
    Blob,
    Commit,
}

impl ObjectType {
    /// The type's name as written in an object header.
    pub open spec fn name_spec(self) -> Seq<char> {
        match self {
            ObjectType::Blob => seq!['b', 'l', 'o', 'b'],
            ObjectType::Tree => seq!['t', 'r', 'e', 'e'],
            ObjectType::Commit => seq!['c', 'o', 'm', 'm', 'i', 't'],
        }
    }

    /// The file mode that a tree entry of this type carries; a commit has none.
    pub open spec fn mode_spec(self) -> Seq<char> {
        match self {
            ObjectType::Blob => seq!['1', '0', '0', '6', '4', '4'],
            ObjectType::Tree => seq!['4', '0', '0', '0', '0'],
            ObjectType::Commit => Seq::empty(),
        }
    }

    /// The type's name as written in an object header.
    pub fn name(&self) -> (r: &'static str)
        ensures
            r@ == self.name_spec(),
    {
        match self {
            ObjectType::Blob => {
                proof {
                    reveal_strlit("blob");
                }
                "blob"
            },
            ObjectType::Tree => {
                proof {
                    reveal_strlit("tree");
                }
                "tree"
            },
            ObjectType::Commit => {
                proof {
                    reveal_strlit("commit");
                }
                "commit"
            },
        }
    }

    /// The file mode of a tree entry of this type.
    pub fn mode(&self) -> (r: String)
        requires
            *self != ObjectType::Commit,
        ensures
            r@ == self.mode_spec(),
    {
        match self {
            ObjectType::Blob => {
                proof {
                    reveal_strlit("100644");
                }
                String::from_str("100644")
            },
            _ => {
                proof {
                    reveal_strlit("40000");
                }
                String::from_str("40000")
            },
        }
    }
}

/// Why an object could not be produced.
#[derive(Debug, Clone, Copy, PartialEq, Eq, Structural)]
pub enum ObjectError {
    /// No object is stored under the requested hash.
    NotFound,
    /// The stored bytes decompress, but not to a well-formed object.
    Corrupt,
    /// The stored bytes are not a complete zlib stream.
    Decode,
    /// The filesystem refused a read or a write.
    Io,
    /// The object is not a tree where a tree is needed.
    NotATree,
}

/// An object read back from the store.
pub struct Object {
    pub content: Vec<u8>,
    pub object_type: ObjectType,
}

/// An encoded object, ready to be written under its hash.
pub struct CompressedObject {
    /// The compressed wire bytes.
    pub content: Vec<u8>,
    pub object_type: ObjectType,
    /// The SHA-1 digest of the wire bytes.
    pub hash: [u8; 20],
    /// `hash` in lowercase hexadecimal.
    pub hash_str: String,
    /// The file or directory the object was made from, if any.
    pub path: Option<String>,
}

/// Bytes of an ASCII text.
pub open spec fn ascii_bytes(s: Seq<char>) -> Seq<u8> {
    Seq::new(s.len(), |i: int| s[i] as u8)
}

/// The header of an object of type `t` whose payload has `len` bytes.
pub open spec fn header_chars(t: ObjectType, len: nat) -> Seq<char> {
    t.name_spec() + seq![' '] + decimal(len) + seq!['\0']
}

/// The header as bytes.
pub open spec fn header_bytes(t: ObjectType, len: nat) -> Seq<u8> {
    ascii_bytes(header_chars(t, len))
}

/// The wire bytes of an object: header, then payload. They are what is hashed
/// and what is compressed.
pub open spec fn wire_of(payload: Seq<u8>, t: ObjectType) -> Seq<u8> {
    header_bytes(t, payload.len()) + payload
}

/// The digest that names an object.
pub open spec fn object_hash(payload: Seq<u8>, t: ObjectType) -> Seq<u8> {
    sha1_of(wire_of(payload, t))
}

/// What the store holds for an object.
pub open spec fn stored_bytes(payload: Seq<u8>, t: ObjectType) -> Seq<u8> {
    zlib_of(wire_of(payload, t))
}

/// `r` is the encoding of `payload` as an object of type `t`.
pub open spec fn encodes(r: CompressedObject, payload: Seq<u8>, t: ObjectType) -> bool {
    &&& r.object_type == t
    &&& r.content@ == stored_bytes(payload, t)
    &&& r.hash@ == object_hash(payload, t)
    &&& r.hash_str@ == hex_of(object_hash(payload, t))
}

/// The source path of an encoded object, as given to the encoder.
pub open spec fn path_matches(r: Option<String>, path: Option<&str>) -> bool {
    match path {
        Some(p) => r matches Some(q) && q@ == p@,
        None => r is None,
    }
}

/// Every character of a decimal numeral is an ASCII digit.
pub proof fn lemma_decimal_digits(n: nat)
    ensures
        decimal(n).len() >= 1,
        forall|i: int| 0 <= i < decimal(n).len() ==> '0' <= #[trigger] decimal(n)[i] <= '9',
    decreases n,
{
    if n >= 10 {
        lemma_decimal_digits(n / 10);
    }
}

/// Headers are ASCII.
pub proof fn lemma_header_ascii(t: ObjectType, len: nat)
    ensures
        vstd::utf8::is_ascii_chars(header_chars(t, len)),
{
    lemma_decimal_digits(len);
    let h = header_chars(t, len);
    let name = t.name_spec();
    assert forall|i: int| 0 <= i < h.len() implies '\0' <= #[trigger] h[i] <= '\u{7f}' by {
        if i < name.len() {
        } else if i == name.len() {
        } else if i < name.len() + 1 + decimal(len).len() {
            assert(h[i] == decimal(len)[i - name.len() - 1]);
        }
    }
}

/// The header of an object: `"<type> <length>\0"`.
pub fn object_header(content_len: usize, object_type: &ObjectType) -> (r: String)
    ensures
        r@ == header_chars(*object_type, content_len as nat),
{
    let mut header = String::from_str(object_type.name());
    proof {
        reveal_strlit(" ");
        reveal_strlit("\0");
    }
    header.append(" ");
    push_decimal(&mut header, content_len as u128);
    header.append("\0");
    assert(header@ =~= header_chars(*object_type, content_len as nat));
    header
}

/// The header of an object, as bytes.
fn header_to_bytes(content_len: usize, object_type: &ObjectType) -> (r: Vec<u8>)
    ensures
        r@ == header_bytes(*object_type, content_len as nat),
{
    let header = object_header(content_len, object_type);
    let s = header.as_str();
    proof {
        lemma_header_ascii(*object_type, content_len as nat);
        vstd::string::is_ascii_spec_bytes(s);
    }
    let r = slice_to_vec(s.as_bytes());
    assert(r@ =~= header_bytes(*object_type, content_len as nat));
    r
}

/// Appends `src` to `dst`.
pub(crate) fn append_bytes(dst: &mut Vec<u8>, src: &[u8])
    ensures
        final(dst)@ == old(dst)@ + src@,
{
    let mut i: usize = 0;
    while i < src.len()
        invariant
            i <= src@.len(),
            dst@ == old(dst)@ + src@.subrange(0, i as int),
        decreases src@.len() - i,
    {
        dst.push(src[i]);
        i = i + 1;
        assert(dst@ =~= old(dst)@ + src@.subrange(0, i as int));
    }
    assert(src@.subrange(0, src@.len() as int) =~= src@);
}

/// Encodes `content` as an object of type `object_type`: builds the wire
/// bytes, hashes them and compresses them.
pub fn compress_object(content: &[u8], object_type: ObjectType, path: Option<&str>) -> (r:
    CompressedObject)
    ensures
        encodes(r, content@, object_type),
        path_matches(r.path, path),
{
    let mut wire = header_to_bytes(content.len(), &object_type);
    append_bytes(&mut wire, content);
    let hash = generate_hash(&wire);
    let hash_str = hex_encode(&hash);
    let compressed = compress_content(wire.as_slice());
    let path = match path {
        Some(p) => Some(String::from_str(p)),
        None => None,
    };
    CompressedObject { content: compressed, object_type, hash, hash_str, path }
}

/// Encodes the contents of the file at `path` as an object of type
/// `object_type` that remembers where it came from.
pub fn read_and_compress(path: &str, content: &[u8], object_type: ObjectType) -> (r:
    CompressedObject)
    ensures
        encodes(r, content@, object_type),
        path_matches(r.path, Some(path)),
{
    compress_object(content, object_type, Some(path))
}

/// Index of the first zero byte of `w` at or after `from`, or -1 when there is none.
pub open spec fn nul_from(w: Seq<u8>, from: nat) -> int
    decreases w.len() - from,
{
    if from >= w.len() {
        -1
    } else if w[from as int] == 0 {
        from as int
    } else {
        nul_from(w, from + 1)
    }
}

/// Index of the first zero byte of `w`, or -1 when there is none.
pub open spec fn first_nul(w: Seq<u8>) -> int {
    nul_from(w, 0)
}

/// What decoding the wire bytes `w` gives: the header runs up to and including
/// the first zero byte and must be exactly the header of one of the three types
/// for the length of what follows; what follows is the payload.
pub open spec fn decode_wire(w: Seq<u8>) -> Result<(Seq<u8>, ObjectType), ObjectError> {
    let i = first_nul(w);
    if i < 0 {
        Err(ObjectError::Corrupt)
    } else {
        let header = w.subrange(0, i + 1);
        let payload = w.subrange(i + 1, w.len() as int);
        if header == header_bytes(ObjectType::Blob, payload.len()) {
            Ok((payload, ObjectType::Blob))
        } else if header == header_bytes(ObjectType::Tree, payload.len()) {
            Ok((payload, ObjectType::Tree))
        } else if header == header_bytes(ObjectType::Commit, payload.len()) {
            Ok((payload, ObjectType::Commit))
        } else {
            Err(ObjectError::Corrupt)
        }
    }
}

/// What decoding the stored (compressed) bytes gives.
pub open spec fn decode_stored(stored: Seq<u8>) -> Result<(Seq<u8>, ObjectType), ObjectError> {
    match inflate_of(stored) {
        Some(w) => decode_wire(w),
        None => Err(ObjectError::Decode),
    }
}

/// The payload and type of a decoded object.
pub open spec fn object_view(r: Result<Object, ObjectError>) -> Result<
    (Seq<u8>, ObjectType),
    ObjectError,
> {
    match r {
        Ok(o) => Ok((o.content@, o.object_type)),
        Err(e) => Err(e),
    }
}

proof fn lemma_nul_found(w: Seq<u8>, from: nat, i: int)
    requires
        from <= i < w.len(),
        w[i] == 0,
        forall|j: int| from <= j < i ==> w[j] != 0,
    ensures
        nul_from(w, from) == i,
    decreases i - from,
{
    if from < i {
        lemma_nul_found(w, from + 1, i);
    }
}

proof fn lemma_nul_absent(w: Seq<u8>, from: nat)
    requires
        forall|j: int| from <= j < w.len() ==> w[j] != 0,
    ensures
        nul_from(w, from) == -1,
    decreases w.len() - from,
{
    if from < w.len() {
        lemma_nul_absent(w, from + 1);
    }
}

/// A header ends with its only zero byte; its first byte tells the type.
proof fn lemma_header_shape(t: ObjectType, len: nat)
    ensures
        header_bytes(t, len).len() == t.name_spec().len() + decimal(len).len() + 2,
        header_bytes(t, len).last() == 0,
        forall|j: int| 0 <= j < header_bytes(t, len).len() - 1 ==> #[trigger] header_bytes(t, len)[j] != 0,
        header_bytes(t, len)[0] == t.name_spec()[0] as u8,
        header_bytes(t, len)[t.name_spec().len() as int] == 32,
{
    lemma_decimal_digits(len);
    let h = header_chars(t, len);
    let name = t.name_spec();
    assert forall|j: int| 0 <= j < header_bytes(t, len).len() - 1 implies #[trigger] header_bytes(t, len)[j] != 0 by {
        if j < name.len() {
        } else if j == name.len() {
        } else {
            assert(h[j] == decimal(len)[j - name.len() - 1]);
        }
    }
}

/// Decoding the wire bytes of an object gives back its payload and type.
pub proof fn lemma_decode_wire_of(payload: Seq<u8>, t: ObjectType)
    ensures
        decode_wire(wire_of(payload, t)) == Ok::<(Seq<u8>, ObjectType), ObjectError>((payload, t)),
{
    let h = header_bytes(t, payload.len());
    let w = wire_of(payload, t);
    lemma_header_shape(t, payload.len());
    lemma_header_shape(ObjectType::Blob, payload.len());
    lemma_header_shape(ObjectType::Tree, payload.len());
    lemma_nul_found(w, 0, h.len() - 1);
    assert(w.subrange(0, h.len() as int) =~= h);
    assert(w.subrange(h.len() as int, w.len() as int) =~= payload);
    if t != ObjectType::Blob {
        assert(h[0] != header_bytes(ObjectType::Blob, payload.len())[0]);
    }
    if t == ObjectType::Commit {
        assert(h[0] != header_bytes(ObjectType::Tree, payload.len())[0]);
    }
}

fn find_nul(w: &[u8]) -> (r: Option<usize>)
    ensures
        match r {
            Some(i) => i < w@.len() && i as int == first_nul(w@),
            None => first_nul(w@) == -1,
        },
{
    let mut i: usize = 0;
    while i < w.len()
        invariant
            i <= w@.len(),
            nul_from(w@, i as nat) == first_nul(w@),
        decreases w@.len() - i,
    {
        if w[i] == 0 {
            return Some(i);
        }
        i = i + 1;
    }
    None
}

/// Whether `w` starts with `h`.
fn has_prefix(w: &[u8], h: &[u8]) -> (r: bool)
    ensures
        r == (h@.len() <= w@.len() && w@.subrange(0, h@.len() as int) == h@),
{
    if h.len() > w.len() {
        return false;
    }
    let mut k: usize = 0;
    while k < h.len()
        invariant
            k <= h@.len() <= w@.len(),
            forall|j: int| 0 <= j < k ==> w@[j] == h@[j],
        decreases h@.len() - k,
    {
        if w[k] != h[k] {
            assert(w@.subrange(0, h@.len() as int)[k as int] != h@[k as int]);
            return false;
        }
        k = k + 1;
    }
    assert(w@.subrange(0, h@.len() as int) =~= h@);
    true
}

fn header_is(wire: &[u8], nul: usize, t: ObjectType) -> (r: bool)
    requires
        nul < wire@.len(),
    ensures
        r == (wire@.subrange(0, nul + 1) == header_bytes(t, (wire@.len() - nul - 1) as nat)),
{
    let h = header_to_bytes(wire.len() - nul - 1, &t);
    let r = h.len() == nul + 1 && has_prefix(wire, h.as_slice());
    proof {
        if h@.len() != nul + 1 {
            assert(wire@.subrange(0, nul + 1).len() != h@.len());
        }
    }
    r
}

/// Decodes wire bytes into the payload and type they carry.
pub fn parse_object(wire: &[u8]) -> (r: Result<Object, ObjectError>)
    ensures
        object_view(r) == decode_wire(wire@),
{
    match find_nul(wire) {
        None => Err(ObjectError::Corrupt),
        Some(i) => {
            let n = wire.len();
            let payload = slice_to_vec(slice_subrange(wire, i + 1, n));
            if header_is(wire, i, ObjectType::Blob) {
                Ok(Object { content: payload, object_type: ObjectType::Blob })
            } else if header_is(wire, i, ObjectType::Tree) {
                Ok(Object { content: payload, object_type: ObjectType::Tree })
            } else if header_is(wire, i, ObjectType::Commit) {
                Ok(Object { content: payload, object_type: ObjectType::Commit })
            } else {
                Err(ObjectError::Corrupt)
            }
        },
    }
}

/// Decodes stored bytes: decompresses them, then parses the wire bytes. Bytes
/// that the encoder produced for a payload and type decode to exactly that
/// payload and type.
pub fn read_object(stored: &[u8]) -> (r: Result<Object, ObjectError>)
    ensures
        object_view(r) == decode_stored(stored@),
        forall|payload: Seq<u8>, t: ObjectType|
            #[trigger] stored_bytes(payload, t) == stored@ ==> object_view(r) == Ok::<
                (Seq<u8>, ObjectType),
                ObjectError,
            >((payload, t)),
{
    let r = match zlib_decompress(stored) {
        None => Err(ObjectError::Decode),
        Some(wire) => parse_object(wire.as_slice()),
    };
    proof {
        assert forall|payload: Seq<u8>, t: ObjectType|
            #[trigger] stored_bytes(payload, t) == stored@ implies object_view(r) == Ok::<
                (Seq<u8>, ObjectType),
                ObjectError,
            >((payload, t)) by {
            lemma_decode_wire_of(payload, t);
        }
    }
    r
}

/// Two headers are equal only for the same type and the same length.
pub proof fn lemma_header_injective(t1: ObjectType, a: nat, t2: ObjectType, b: nat)
    requires
        header_bytes(t1, a) == header_bytes(t2, b),
    ensures
        t1 == t2,
        a == b,
{
    lemma_header_shape(t1, a);
    lemma_header_shape(t2, b);
    lemma_decimal_digits(a);
    lemma_decimal_digits(b);
    let h1 = header_chars(t1, a);
    let h2 = header_chars(t2, b);
    assert(h1[0] as u8 == h2[0] as u8);
    assert(t1 == t2);
    let l = t1.name_spec().len();
    let da = decimal(a);
    let db = decimal(b);
    assert(da.len() == db.len());
    assert forall|j: int| 0 <= j < da.len() implies da[j] == db[j] by {
        assert(h1[l + 1 + j] == da[j]);
        assert(h2[l + 1 + j] == db[j]);
        assert(header_bytes(t1, a)[l + 1 + j] == header_bytes(t2, b)[l + 1 + j]);
        assert(header_bytes(t1, a)[l + 1 + j] == h1[l + 1 + j] as u8);
        assert(header_bytes(t2, b)[l + 1 + j] == h2[l + 1 + j] as u8);
        assert('0' <= da[j] <= '9');
        assert('0' <= db[j] <= '9');
        assert(da[j] as u8 == db[j] as u8);
    }
    assert(da =~= db);
    lemma_decimal_value(a);
    lemma_decimal_value(b);
}

/// Encoding is deterministic: two encodings of one payload as one type carry
/// the same compressed bytes, the same digest and the same hexadecimal name.
pub proof fn lemma_encode_deterministic(
    a: CompressedObject,
    b: CompressedObject,
    payload: Seq<u8>,
    t: ObjectType,
)
    requires
        encodes(a, payload, t),
        encodes(b, payload, t),
    ensures
        a.content@ == b.content@,
        a.hash@ == b.hash@,
        a.hash_str@ == b.hash_str@,
{
}

/// Content addressing: for one type, two payloads get the same digest exactly
/// when they are equal, unless SHA-1 collides on their two wire byte strings.
pub proof fn lemma_content_addressing(first: Seq<u8>, second: Seq<u8>, t: ObjectType)
    requires
        sha1_of(wire_of(first, t)) == sha1_of(wire_of(second, t)) ==> wire_of(first, t) == wire_of(second, t),
    ensures
        (object_hash(first, t) == object_hash(second, t)) <==> first == second,
{
    lemma_decode_wire_of(first, t);
    lemma_decode_wire_of(second, t);
}

/// Decoding never accepts a strict prefix of an object's wire bytes: every
/// truncation is reported as corrupt.
pub proof fn lemma_truncated_wire_rejected(payload: Seq<u8>, t: ObjectType, n: nat)
    requires
        n < wire_of(payload, t).len(),
    ensures
        decode_wire(wire_of(payload, t).subrange(0, n as int)) == Err::<
            (Seq<u8>, ObjectType),
            ObjectError,
        >(ObjectError::Corrupt),
{
    let h = header_bytes(t, payload.len());
    let w = wire_of(payload, t).subrange(0, n as int);
    lemma_header_shape(t, payload.len());
    if n < h.len() {
        assert forall|j: int| 0 <= j < w.len() implies w[j] != 0 by {
            assert(w[j] == h[j]);
        }
        lemma_nul_absent(w, 0);
    } else {
        assert(w[h.len() - 1] == h[h.len() - 1]);
        assert forall|j: int| 0 <= j < h.len() - 1 implies w[j] != 0 by {
            assert(w[j] == h[j]);
        }
        lemma_nul_found(w, 0, h.len() - 1);
        let header = w.subrange(0, h.len() as int);
        assert(header =~= h);
        let m = (n - h.len()) as nat;
        assert(w.subrange(h.len() as int, w.len() as int).len() == m);
        if header == header_bytes(ObjectType::Blob, m) {
            lemma_header_injective(t, payload.len(), ObjectType::Blob, m);
        }
        if header == header_bytes(ObjectType::Tree, m) {
            lemma_header_injective(t, payload.len(), ObjectType::Tree, m);
        }
        if header == header_bytes(ObjectType::Commit, m) {
            lemma_header_injective(t, payload.len(), ObjectType::Commit, m);
        }
    }
}

/// A byte string that may stand where a type name stands: no space, no zero.
pub open spec fn is_token(tok: Seq<u8>) -> bool {
    forall|j: int| 0 <= j < tok.len() ==> #[trigger] tok[j] != 0 && tok[j] != 32
}

/// Decoding rejects an object whose header names a type other than the three:
/// wire bytes `"<tok> <length>\0<payload>"` are corrupt for any such token.
pub proof fn lemma_unknown_type_rejected(tok: Seq<u8>, payload: Seq<u8>)
    requires
        is_token(tok),
        tok != ascii_bytes(ObjectType::Blob.name_spec()),
        tok != ascii_bytes(ObjectType::Tree.name_spec()),
        tok != ascii_bytes(ObjectType::Commit.name_spec()),
    ensures
        decode_wire(tok + seq![32u8] + ascii_bytes(decimal(payload.len())) + seq![0u8] + payload)
            == Err::<(Seq<u8>, ObjectType), ObjectError>(ObjectError::Corrupt),
{
    let d = ascii_bytes(decimal(payload.len()));
    let header = tok + seq![32u8] + d + seq![0u8];
    let w = header + payload;
    lemma_decimal_digits(payload.len());
    assert(w =~= tok + seq![32u8] + d + seq![0u8] + payload);
    assert forall|j: int| 0 <= j < header.len() - 1 implies w[j] != 0 by {
        if j < tok.len() {
            assert(w[j] == tok[j]);
        } else if j > tok.len() {
            assert(w[j] == d[j - tok.len() - 1]);
        }
    }
    lemma_nul_found(w, 0, header.len() - 1);
    assert(w.subrange(0, header.len() as int) =~= header);
    assert(w.subrange(header.len() as int, w.len() as int) =~= payload);
    assert forall|t: ObjectType| header != #[trigger] header_bytes(t, payload.len()) by {
        if header == header_bytes(t, payload.len()) {
            lemma_header_shape(t, payload.len());
            let name = ascii_bytes(t.name_spec());
            let l = name.len();
            if tok.len() < l {
                assert(header[tok.len() as int] == 32);
                assert(header_bytes(t, payload.len())[tok.len() as int] == name[tok.len() as int]);
            } else if tok.len() > l {
                assert(header[l as int] == tok[l as int]);
            } else {
                assert forall|j: int| 0 <= j < l implies tok[j] == name[j] by {
                    assert(header[j] == tok[j]);
                    assert(header_bytes(t, payload.len())[j] == name[j]);
                }
                assert(tok =~= name);
            }
        }
    }
}

} // verus!
