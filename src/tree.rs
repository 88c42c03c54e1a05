//! Tree objects. A tree's payload lists its entries, one after another with
//! no separator, each as `<mode> <name>\0<20-byte hash>`, where the name is the
//! last component of the entry's path. Entries are ordered by their full
//! source path, compared byte by byte, so that the payload does not depend on
//! the order in which a directory listing returned them.

use vstd::prelude::*;
use vstd::string::StringSliceAdditionalSpecFns;
use vstd::utf8::encode_utf8;

use crate::object::append_bytes;
use crate::object::ascii_bytes;
use crate::object::compress_object;
use crate::object::encodes;
use crate::object::object_hash;
use crate::object::path_matches;
use crate::object::CompressedObject;
use crate::object::ObjectType;

verus! {

/// Byte-wise lexicographic order: `a` comes strictly before `b`.
pub open spec fn bytes_lt(a: Seq<u8>, b: Seq<u8>) -> bool
    decreases a.len(),
{
    if a.len() == 0 {
        b.len() > 0
    } else if b.len() == 0 {
        false
    } else if a[0] != b[0] {
        a[0] < b[0]
    } else {
        bytes_lt(a.drop_first(), b.drop_first())
    }
}

proof fn lemma_bytes_lt_irreflexive(a: Seq<u8>)
    ensures
        !bytes_lt(a, a),
    decreases a.len(),
{
    if a.len() > 0 {
        lemma_bytes_lt_irreflexive(a.drop_first());
    }
}

proof fn lemma_bytes_lt_transitive(a: Seq<u8>, b: Seq<u8>, c: Seq<u8>)
    requires
        bytes_lt(a, b),
        bytes_lt(b, c),
    ensures
        bytes_lt(a, c),
    decreases a.len(),
{
    if a.len() > 0 && b.len() > 0 && c.len() > 0 && a[0] == b[0] && b[0] == c[0] {
        lemma_bytes_lt_transitive(a.drop_first(), b.drop_first(), c.drop_first());
    }
}

/// Of two distinct byte strings, one comes before the other, and never both.
proof fn lemma_bytes_lt_total(a: Seq<u8>, b: Seq<u8>)
    ensures
        a != b ==> (bytes_lt(a, b) || bytes_lt(b, a)),
        !(bytes_lt(a, b) && bytes_lt(b, a)),
    decreases a.len(),
{
    if a.len() > 0 && b.len() > 0 && a[0] == b[0] {
        lemma_bytes_lt_total(a.drop_first(), b.drop_first());
        if a != b {
            assert(a =~= seq![a[0]] + a.drop_first());
            assert(b =~= seq![b[0]] + b.drop_first());
        }
    } else if a.len() == 0 && b.len() == 0 {
        assert(a =~= b);
    }
}

/// Whether `a` comes strictly before `b`, byte by byte.
pub fn bytes_less(a: &[u8], b: &[u8]) -> (r: bool)
    ensures
        r == bytes_lt(a@, b@),
{
    let mut i: usize = 0;
    assert(a@.subrange(0, a@.len() as int) =~= a@);
    assert(b@.subrange(0, b@.len() as int) =~= b@);
    while i < a.len() && i < b.len()
        invariant
            i <= a@.len(),
            i <= b@.len(),
            bytes_lt(a@, b@) == bytes_lt(
                a@.subrange(i as int, a@.len() as int),
                b@.subrange(i as int, b@.len() as int),
            ),
        decreases a@.len() - i,
    {
        if a[i] != b[i] {
            return a[i] < b[i];
        }
        proof {
            let sa = a@.subrange(i as int, a@.len() as int);
            let sb = b@.subrange(i as int, b@.len() as int);
            assert(sa.drop_first() =~= a@.subrange(i + 1, a@.len() as int));
            assert(sb.drop_first() =~= b@.subrange(i + 1, b@.len() as int));
        }
        i = i + 1;
    }
    i < b.len()
}

/// The sort key of an entry: its source path as UTF-8 bytes.
pub open spec fn path_key(o: CompressedObject) -> Seq<u8> {
    match o.path {
        Some(p) => encode_utf8(p@),
        None => Seq::empty(),
    }
}

/// The last component of a path: what follows its last `/`.
pub open spec fn base_name(p: Seq<u8>) -> Seq<u8>
    decreases p.len(),
{
    if p.len() == 0 || p.last() == 47 {
        Seq::empty()
    } else {
        base_name(p.drop_last()).push(p.last())
    }
}

/// An object that can stand in a tree: it has a source path and is not a commit.
pub open spec fn is_tree_entry(o: CompressedObject) -> bool {
    o.path is Some && o.object_type != ObjectType::Commit
}

/// One rendered tree entry.
pub open spec fn entry_bytes(o: CompressedObject) -> Seq<u8> {
    ascii_bytes(o.object_type.mode_spec()) + seq![32u8] + base_name(path_key(o)) + seq![0u8]
        + o.hash@
}

/// The rendered entries of `s`, in the order given.
pub open spec fn entries_bytes(s: Seq<CompressedObject>) -> Seq<u8>
    decreases s.len(),
{
    if s.len() == 0 {
        Seq::empty()
    } else {
        entries_bytes(s.drop_last()) + entry_bytes(s.last())
    }
}

fn path_bytes(o: &CompressedObject) -> (r: &[u8])
    ensures
        r@ == path_key(*o),
{
    match &o.path {
        Some(p) => p.as_str().as_bytes(),
        None => {
            let e: &str = "";
            proof {
                reveal_strlit("");
            }
            e.as_bytes()
        },
    }
}

/// Where the last component of `p` starts.
fn base_name_start(p: &[u8]) -> (r: usize)
    ensures
        r <= p@.len(),
        p@.subrange(r as int, p@.len() as int) == base_name(p@),
{
    let mut i: usize = p.len();
    assert(p@.subrange(0, p@.len() as int) =~= p@);
    assert(p@.subrange(p@.len() as int, p@.len() as int) =~= Seq::<u8>::empty());
    assert(p@ + Seq::<u8>::empty() =~= p@);
    while i > 0 && p[i - 1] != 47
        invariant
            i <= p@.len(),
            base_name(p@) == base_name(p@.subrange(0, i as int)) + p@.subrange(
                i as int,
                p@.len() as int,
            ),
        decreases i,
    {
        proof {
            let q = p@.subrange(0, i as int);
            assert(q.drop_last() =~= p@.subrange(0, i - 1));
            assert(p@.subrange(i - 1, p@.len() as int) =~= seq![q.last()] + p@.subrange(
                i as int,
                p@.len() as int,
            ));
            assert(base_name(q) == base_name(q.drop_last()).push(q.last()));
            assert(base_name(q) + p@.subrange(i as int, p@.len() as int) =~= base_name(
                q.drop_last(),
            ) + p@.subrange(i - 1, p@.len() as int));
        }
        i = i - 1;
    }
    proof {
        let q = p@.subrange(0, i as int);
        assert(base_name(q) =~= Seq::<u8>::empty());
        assert(base_name(p@) =~= p@.subrange(i as int, p@.len() as int));
    }
    i
}

fn push_entry(out: &mut Vec<u8>, o: &CompressedObject)
    requires
        is_tree_entry(*o),
    ensures
        final(out)@ == old(out)@ + entry_bytes(*o),
{
    let mode = o.object_type.mode();
    let m = mode.as_str();
    proof {
        assert(vstd::utf8::is_ascii_chars(m@));
        vstd::string::is_ascii_spec_bytes(m);
        assert(m.spec_bytes() =~= ascii_bytes(o.object_type.mode_spec()));
    }
    append_bytes(out, m.as_bytes());
    out.push(32u8);
    let p = path_bytes(o);
    let start = base_name_start(p);
    let n = p.len();
    append_bytes(out, vstd::slice::slice_subrange(p, start, n));
    out.push(0u8);
    append_bytes(out, &o.hash);
    assert(final(out)@ =~= old(out)@ + entry_bytes(*o));
}

/// Renders the entries of a tree payload, in the order given.
pub fn tree_format(tree: &Vec<CompressedObject>) -> (r: Vec<u8>)
    requires
        forall|i: int| 0 <= i < tree@.len() ==> is_tree_entry(#[trigger] tree@[i]),
    ensures
        r@ == entries_bytes(tree@),
{
    let mut out: Vec<u8> = Vec::new();
    let mut i: usize = 0;
    while i < tree.len()
        invariant
            i <= tree@.len(),
            forall|k: int| 0 <= k < tree@.len() ==> is_tree_entry(#[trigger] tree@[k]),
            out@ == entries_bytes(tree@.subrange(0, i as int)),
        decreases tree@.len() - i,
    {
        push_entry(&mut out, &tree[i]);
        proof {
            let s = tree@.subrange(0, i + 1);
            assert(s.drop_last() =~= tree@.subrange(0, i as int));
        }
        i = i + 1;
    }
    assert(tree@.subrange(0, tree@.len() as int) =~= tree@);
    out
}

/// Index of the first entry with the smallest path among the first `n` of `s`.
pub open spec fn min_path_index(s: Seq<CompressedObject>, n: nat) -> int
    decreases n,
{
    if n <= 1 {
        0
    } else {
        let m = min_path_index(s, (n - 1) as nat);
        if bytes_lt(path_key(s[n - 1]), path_key(s[m])) {
            n - 1
        } else {
            m
        }
    }
}

/// The entries of `s` ordered by path; of entries with equal paths, the one
/// given first comes first.
pub open spec fn path_order(s: Seq<CompressedObject>) -> Seq<CompressedObject>
    decreases s.len(),
{
    let m = min_path_index(s, s.len());
    if 0 <= m < s.len() {
        seq![s[m]] + path_order(s.remove(m))
    } else {
        s
    }
}

/// The payload of the tree whose entries are `objects`, in whatever order.
pub open spec fn tree_content(objects: Seq<CompressedObject>) -> Seq<u8> {
    entries_bytes(path_order(objects))
}

/// No two entries of `s` share a path.
pub open spec fn distinct_paths(s: Seq<CompressedObject>) -> bool {
    forall|i: int, j: int|
        0 <= i < j < s.len() ==> path_key(#[trigger] s[i]) != path_key(#[trigger] s[j])
}

proof fn lemma_min_path_index(s: Seq<CompressedObject>, n: nat)
    requires
        1 <= n <= s.len(),
    ensures
        0 <= min_path_index(s, n) < n,
        forall|k: int|
            0 <= k < n ==> !bytes_lt(path_key(#[trigger] s[k]), path_key(s[min_path_index(s, n)])),
    decreases n,
{
    let m = min_path_index(s, n);
    if n == 1 {
        lemma_bytes_lt_irreflexive(path_key(s[0]));
    } else {
        let p = min_path_index(s, (n - 1) as nat);
        lemma_min_path_index(s, (n - 1) as nat);
        assert forall|k: int| 0 <= k < n implies !bytes_lt(path_key(#[trigger] s[k]), path_key(s[m])) by {
            if k == n - 1 {
                lemma_bytes_lt_irreflexive(path_key(s[k]));
                lemma_bytes_lt_total(path_key(s[k]), path_key(s[p]));
            } else if m == n - 1 {
                if bytes_lt(path_key(s[k]), path_key(s[m])) {
                    lemma_bytes_lt_transitive(path_key(s[k]), path_key(s[m]), path_key(s[p]));
                }
            }
        }
    }
}

proof fn lemma_path_order_entries(s: Seq<CompressedObject>)
    requires
        forall|i: int| 0 <= i < s.len() ==> is_tree_entry(#[trigger] s[i]),
    ensures
        path_order(s).len() == s.len(),
        forall|i: int| 0 <= i < s.len() ==> is_tree_entry(#[trigger] path_order(s)[i]),
    decreases s.len(),
{
    if s.len() > 0 {
        let m = min_path_index(s, s.len());
        lemma_min_path_index(s, s.len());
        let rest = s.remove(m);
        assert forall|i: int| 0 <= i < rest.len() implies is_tree_entry(#[trigger] rest[i]) by {
            if i < m {
                assert(rest[i] == s[i]);
            } else {
                assert(rest[i] == s[i + 1]);
            }
        }
        lemma_path_order_entries(rest);
        let r = path_order(s);
        assert forall|i: int| 0 <= i < s.len() implies is_tree_entry(#[trigger] r[i]) by {
            if i > 0 {
                assert(r[i] == path_order(rest)[i - 1]);
            }
        }
    }
}

/// Ordering by path forgets the order the entries came in, as long as their
/// paths are distinct: two sequences holding the same entries are ordered alike.
pub proof fn lemma_path_order_unique(a: Seq<CompressedObject>, b: Seq<CompressedObject>)
    requires
        a.to_multiset() == b.to_multiset(),
        distinct_paths(a),
    ensures
        path_order(a) == path_order(b),
    decreases a.len(),
{
    broadcast use vstd::seq_lib::group_to_multiset_ensures;

    vstd::seq_lib::to_multiset_len(a);
    vstd::seq_lib::to_multiset_len(b);
    if a.len() == 0 {
        assert(b.len() == 0);
        assert(a =~= b);
    } else {
        assert(b.len() == a.len());
        lemma_min_path_index(a, a.len());
        lemma_min_path_index(b, b.len());
        let ma = min_path_index(a, a.len());
        let mb = min_path_index(b, b.len());
        let x = a[ma];
        let y = b[mb];
        assert(b.to_multiset().count(y) > 0);
        assert(a.contains(y));
        let k = choose|k: int| 0 <= k < a.len() && a[k] == y;
        assert(a.to_multiset().count(x) > 0);
        assert(b.contains(x));
        let j = choose|j: int| 0 <= j < b.len() && b[j] == x;
        assert(!bytes_lt(path_key(a[k]), path_key(x)));
        assert(!bytes_lt(path_key(b[j]), path_key(y)));
        lemma_bytes_lt_total(path_key(x), path_key(y));
        assert(k == ma);
        assert(x == y);
        let ra = a.remove(ma);
        let rb = b.remove(mb);
        assert(ra.to_multiset() == a.to_multiset().remove(x));
        assert(rb.to_multiset() == b.to_multiset().remove(y));
        assert forall|i: int, l: int| 0 <= i < l < ra.len() implies path_key(#[trigger] ra[i])
            != path_key(#[trigger] ra[l]) by {
            let i2 = if i < ma { i } else { i + 1 };
            let l2 = if l < ma { l } else { l + 1 };
            assert(ra[i] == a[i2]);
            assert(ra[l] == a[l2]);
        }
        lemma_path_order_unique(ra, rb);
    }
}

/// Tree determinism: the payload of a tree, and so its digest, does not depend
/// on the order in which its entries are supplied, as long as their paths are
/// distinct, as the paths in one directory listing are.
pub proof fn lemma_tree_order_independent(a: Seq<CompressedObject>, b: Seq<CompressedObject>)
    requires
        a.to_multiset() == b.to_multiset(),
        distinct_paths(a),
    ensures
        tree_content(a) == tree_content(b),
        object_hash(tree_content(a), ObjectType::Tree) == object_hash(
            tree_content(b),
            ObjectType::Tree,
        ),
{
    lemma_path_order_unique(a, b);
}

fn min_path_position(v: &Vec<CompressedObject>) -> (r: usize)
    requires
        v@.len() > 0,
    ensures
        r as int == min_path_index(v@, v@.len()),
        r < v@.len(),
{
    let mut best: usize = 0;
    let mut j: usize = 1;
    while j < v.len()
        invariant
            1 <= j <= v@.len(),
            best as int == min_path_index(v@, j as nat),
        decreases v@.len() - j,
    {
        proof {
            lemma_min_path_index(v@, j as nat);
        }
        if bytes_less(path_bytes(&v[j]), path_bytes(&v[best])) {
            best = j;
        }
        j = j + 1;
    }
    proof {
        lemma_min_path_index(v@, v@.len());
    }
    best
}

/// Orders entries by path; of entries with equal paths, the one given first
/// comes first.
pub fn sort_by_path(objects: Vec<CompressedObject>) -> (r: Vec<CompressedObject>)
    ensures
        r@ == path_order(objects@),
{
    let mut rest = objects;
    let mut out: Vec<CompressedObject> = Vec::new();
    while rest.len() > 0
        invariant
            out@ + path_order(rest@) == path_order(objects@),
        decreases rest@.len(),
    {
        let m = min_path_position(&rest);
        let ghost before = rest@;
        let ghost out_before = out@;
        let x = rest.remove(m);
        out.push(x);
        assert(out@ + path_order(rest@) =~= out_before + path_order(before));
    }
    assert(out@ + path_order(rest@) =~= out@);
    out
}

/// Builds the tree object of the directory at `path` from the objects made
/// from its entries: orders them by path, renders them and encodes the
/// payload as a tree.
pub fn create_tree(path: &str, objects: Vec<CompressedObject>) -> (r: CompressedObject)
    requires
        forall|i: int| 0 <= i < objects@.len() ==> is_tree_entry(#[trigger] objects@[i]),
    ensures
        encodes(r, tree_content(objects@), ObjectType::Tree),
        path_matches(r.path, Some(path)),
{
    proof {
        lemma_path_order_entries(objects@);
    }
    let sorted = sort_by_path(objects);
    let payload = tree_format(&sorted);
    compress_object(payload.as_slice(), ObjectType::Tree, Some(path))
}

/// `b` holds the component `.git` starting at byte `i`.
pub open spec fn git_component_at(b: Seq<u8>, i: int) -> bool {
    &&& 0 <= i
    &&& i + 4 <= b.len()
    &&& b.subrange(i, i + 4) == seq![46u8, 103u8, 105u8, 116u8]
    &&& (i == 0 || b[i - 1] == 47)
    &&& (i + 4 == b.len() || b[i + 4] == 47)
}

/// The path lies in (or is) a repository metadata directory `.git`.
pub open spec fn in_metadata_dir(b: Seq<u8>) -> bool {
    exists|i: int| git_component_at(b, i)
}

/// Whether a directory walk over `dir` leaves out the entry at `entry`: the
/// directory itself, and anything within the repository's metadata directory.
pub fn is_skipped(dir: &str, entry: &str) -> (r: bool)
    ensures
        r == (entry@ == dir@ || in_metadata_dir(entry.spec_bytes())),
{
    if String::from_str(entry) == String::from_str(dir) {
        return true;
    }
    let b = entry.as_bytes();
    let n = b.len();
    let mut i: usize = 0;
    while n >= 4 && i <= n - 4
        invariant
            n == b@.len(),
            b@ == entry.spec_bytes(),
            i <= n,
            forall|k: int| 0 <= k < i ==> !git_component_at(b@, k),
        decreases n - i,
    {
        if b[i] == 46 && b[i + 1] == 103 && b[i + 2] == 105 && b[i + 3] == 116 && (i == 0 || b[i
            - 1] == 47) && (i + 4 == n || b[i + 4] == 47) {
            assert(b@.subrange(i as int, i + 4) =~= seq![46u8, 103u8, 105u8, 116u8]);
            assert(git_component_at(b@, i as int));
            return true;
        }
        proof {
            if git_component_at(b@, i as int) {
                let w = b@.subrange(i as int, i + 4);
                assert(w[0] == 46 && w[1] == 103 && w[2] == 105 && w[3] == 116);
            }
        }
        i = i + 1;
    }
    proof {
        assert forall|k: int| !git_component_at(b@, k) by {
            if git_component_at(b@, k) {
                assert(k < i);
            }
        }
    }
    false
}

/// Index of the first byte `b` in `p` at or after `from`, or -1 when there is none.
pub open spec fn index_of_from(p: Seq<u8>, b: u8, from: nat) -> int
    decreases p.len() - from,
{
    if from >= p.len() {
        -1
    } else if p[from as int] == b {
        from as int
    } else {
        index_of_from(p, b, from + 1)
    }
}

/// The names of the entries of the tree payload `p` from byte `pos` on, or
/// `None` when those bytes are not a sequence of `<mode> <name>\0<20 bytes>`.
pub open spec fn tree_names_from(p: Seq<u8>, pos: nat) -> Option<Seq<Seq<u8>>>
    decreases p.len() - pos,
{
    if pos >= p.len() {
        Some(Seq::empty())
    } else {
        let s = index_of_from(p, 32, pos);
        let z = if s < 0 {
            -1
        } else {
            index_of_from(p, 0, (s + 1) as nat)
        };
        if s < 0 || z < pos || z + 21 > p.len() {
            None
        } else {
            match tree_names_from(p, (z + 21) as nat) {
                Some(rest) => Some(seq![p.subrange(s + 1, z)] + rest),
                None => None,
            }
        }
    }
}

/// The names of the entries of a tree payload, in order.
pub open spec fn tree_names(p: Seq<u8>) -> Option<Seq<Seq<u8>>> {
    tree_names_from(p, 0)
}

/// Lines joined with `\n`.
pub open spec fn join_lines(lines: Seq<Seq<u8>>) -> Seq<u8>
    decreases lines.len(),
{
    if lines.len() == 0 {
        Seq::empty()
    } else if lines.len() == 1 {
        lines[0]
    } else {
        join_lines(lines.drop_last()) + seq![10u8] + lines.last()
    }
}

fn find_byte(p: &[u8], b: u8, from: usize) -> (r: Option<usize>)
    ensures
        match r {
            Some(i) => from <= i < p@.len() && i as int == index_of_from(p@, b, from as nat),
            None => index_of_from(p@, b, from as nat) == -1,
        },
{
    let mut i: usize = from;
    while i < p.len()
        invariant
            from <= i,
            index_of_from(p@, b, i as nat) == index_of_from(p@, b, from as nat),
        decreases p@.len() - i,
    {
        if p[i] == b {
            return Some(i);
        }
        i = i + 1;
    }
    None
}

/// The names of the entries of a tree payload, one per line.
pub fn tree_name_lines(payload: &[u8]) -> (r: Option<Vec<u8>>)
    ensures
        match tree_names(payload@) {
            Some(names) => r matches Some(out) && out@ == join_lines(names),
            None => r is None,
        },
{
    let mut out: Vec<u8> = Vec::new();
    let mut pos: usize = 0;
    let ghost mut acc: Seq<Seq<u8>> = Seq::empty();
    let n = payload.len();
    while pos < n
        invariant
            n == payload@.len(),
            pos <= n,
            (pos == 0) == (acc.len() == 0),
            out@ == join_lines(acc),
            tree_names(payload@) == match tree_names_from(payload@, pos as nat) {
                Some(rest) => Some(acc + rest),
                None => None::<Seq<Seq<u8>>>,
            },
        decreases n - pos,
    {
        let s = match find_byte(payload, 32, pos) {
            Some(s) => s,
            None => return None,
        };
        let z = match find_byte(payload, 0, s + 1) {
            Some(z) => z,
            None => return None,
        };
        if n < 21 || z > n - 21 {
            return None;
        }
        let name = vstd::slice::slice_subrange(payload, s + 1, z);
        if pos > 0 {
            out.push(10u8);
        }
        crate::object::append_bytes(&mut out, name);
        proof {
            let ghost old_acc = acc;
            acc = acc.push(name@);
            if old_acc.len() > 0 {
                assert(acc.drop_last() =~= old_acc);
            } else {
                assert(acc =~= seq![name@]);
            }
            let rest = tree_names_from(payload@, (z + 21) as nat);
            if rest is Some {
                assert(old_acc + (seq![name@] + rest->Some_0) =~= acc + rest->Some_0);
            }
        }
        pos = z + 21;
    }
    assert(acc + Seq::<Seq<u8>>::empty() =~= acc);
    Some(out)
}

/// The names under which the entries of `s` appear in a tree payload.
pub open spec fn entry_names(s: Seq<CompressedObject>) -> Seq<Seq<u8>> {
    Seq::new(s.len(), |i: int| base_name(path_key(s[i])))
}

/// No zero byte in `b`.
pub open spec fn no_nul(b: Seq<u8>) -> bool {
    forall|j: int| 0 <= j < b.len() ==> #[trigger] b[j] != 0
}

proof fn lemma_index_found(p: Seq<u8>, b: u8, from: nat, i: int)
    requires
        from <= i < p.len(),
        p[i] == b,
        forall|j: int| from <= j < i ==> p[j] != b,
    ensures
        index_of_from(p, b, from) == i,
    decreases i - from,
{
    if from < i {
        lemma_index_found(p, b, from + 1, i);
    }
}

proof fn lemma_index_range(p: Seq<u8>, b: u8, from: nat)
    ensures
        index_of_from(p, b, from) == -1 || (from <= index_of_from(p, b, from) < p.len()),
    decreases p.len() - from,
{
    if from < p.len() {
        lemma_index_range(p, b, from + 1);
    }
}

proof fn lemma_index_shift(a: Seq<u8>, q: Seq<u8>, b: u8, k: nat)
    ensures
        index_of_from(a + q, b, a.len() + k) == if index_of_from(q, b, k) < 0 {
            -1
        } else {
            index_of_from(q, b, k) + a.len()
        },
    decreases q.len() - k,
{
    if k < q.len() {
        assert((a + q)[a.len() + k as int] == q[k as int]);
        lemma_index_shift(a, q, b, k + 1);
        assert(a.len() + k + 1 == a.len() + (k + 1));
    }
}

proof fn lemma_names_shift(a: Seq<u8>, q: Seq<u8>, k: nat)
    ensures
        tree_names_from(a + q, a.len() + k) == tree_names_from(q, k),
    decreases q.len() - k,
{
    let p = a + q;
    let pos = a.len() + k;
    if k < q.len() {
        lemma_index_shift(a, q, 32, k);
        let sq = index_of_from(q, 32, k);
        if sq >= 0 {
            lemma_index_shift(a, q, 0, (sq + 1) as nat);
            assert(a.len() + (sq + 1) == index_of_from(p, 32, pos) + 1);
            let zq = index_of_from(q, 0, (sq + 1) as nat);
            lemma_index_range(q, 0, (sq + 1) as nat);
            if zq >= k && zq + 21 <= q.len() {
                lemma_names_shift(a, q, (zq + 21) as nat);
                assert(a.len() + (zq + 21) == index_of_from(p, 0, (index_of_from(p, 32, pos) + 1) as nat) + 21);
                assert(p.subrange(sq + 1 + a.len(), zq + a.len()) =~= q.subrange(sq + 1, zq));
            }
        }
    }
}

proof fn lemma_entries_front(s: Seq<CompressedObject>)
    requires
        s.len() > 0,
    ensures
        entries_bytes(s) == entry_bytes(s[0]) + entries_bytes(s.drop_first()),
    decreases s.len(),
{
    if s.len() == 1 {
        assert(s.drop_last() =~= Seq::<CompressedObject>::empty());
        assert(s.drop_first() =~= Seq::<CompressedObject>::empty());
        assert(entry_bytes(s[0]) + Seq::<u8>::empty() =~= entry_bytes(s[0]));
    } else {
        lemma_entries_front(s.drop_last());
        assert(s.drop_last().drop_first() =~= s.drop_first().drop_last());
        assert(s.drop_first().last() == s.last());
        assert(entries_bytes(s.drop_first()) == entries_bytes(s.drop_first().drop_last())
            + entry_bytes(s.drop_first().last()));
        assert(entries_bytes(s) =~= entry_bytes(s[0]) + entries_bytes(s.drop_first()));
    }
}

/// Parsing a rendered tree payload gives back the names of its entries, in
/// order, as long as no name holds a zero byte.
pub proof fn lemma_tree_names_of_entries(s: Seq<CompressedObject>)
    requires
        forall|i: int| 0 <= i < s.len() ==> is_tree_entry(#[trigger] s[i]),
        forall|i: int| 0 <= i < s.len() ==> no_nul(base_name(path_key(#[trigger] s[i]))),
    ensures
        tree_names(entries_bytes(s)) == Some(entry_names(s)),
    decreases s.len(),
{
    if s.len() == 0 {
        assert(entry_names(s) =~= Seq::<Seq<u8>>::empty());
    } else {
        let x = s[0];
        let rest = s.drop_first();
        assert forall|i: int| 0 <= i < rest.len() implies is_tree_entry(#[trigger] rest[i]) by {
            assert(rest[i] == s[i + 1]);
        }
        assert forall|i: int| 0 <= i < rest.len() implies no_nul(base_name(path_key(#[trigger] rest[i]))) by {
            assert(rest[i] == s[i + 1]);
        }
        lemma_tree_names_of_entries(rest);
        lemma_entries_front(s);
        let e = entry_bytes(x);
        let r = entries_bytes(rest);
        let p = e + r;
        let mode = ascii_bytes(x.object_type.mode_spec());
        let name = base_name(path_key(x));
        assert(is_tree_entry(x));
        assert(no_nul(name));
        assert forall|j: int| 0 <= j < mode.len() implies p[j] != 32 && p[j] != 0 by {
            assert(p[j] == mode[j]);
        }
        assert(p[mode.len() as int] == 32);
        lemma_index_found(p, 32, 0, mode.len() as int);
        let z: int = (mode.len() + 1 + name.len()) as int;
        assert forall|j: int| mode.len() + 1 <= j < z implies p[j] != 0 by {
            assert(p[j] == name[j - mode.len() - 1]);
        }
        assert(p[z] == 0);
        lemma_index_found(p, 0, (mode.len() + 1) as nat, z);
        assert(e.len() == z + 21);
        lemma_names_shift(e, r, 0);
        assert(e.len() + 0 == z + 21);
        assert(p.subrange(mode.len() + 1 as int, z) =~= name);
        assert(entry_names(s) =~= seq![name] + entry_names(rest));
    }
}

} // verus!
