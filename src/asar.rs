use vstd::prelude::*;
use vstd::slice::slice_to_vec;

use crate::diff::join_path;
use crate::pathmap::PathMap;

verus! {

/// One node of an archive's header tree: a directory listing named children, or a file
/// stored at a decimal `offset` past the payload base, `size` bytes long.
#[derive(Debug)]
pub enum AsarEntry {
    Directory { files: Vec<(String, AsarEntry)> },
    File { offset: String, size: usize },
}

impl Default for AsarEntry {
    fn default() -> (r: Self)
        ensures
            r matches AsarEntry::Directory { files } && files@.len() == 0,
    {
        AsarEntry::Directory { files: Vec::new() }
    }
}

/// The extracted files of an archive: relative path to content.
pub type FileTree = PathMap<Vec<u8>>;

/// Why an archive could not be decoded.
#[derive(Clone, Copy, Debug, PartialEq, Eq, Structural)]
pub enum DecodeError {
    /// The stream ends inside the fixed header fields or inside the header JSON.
    TruncatedHeader,
    /// A file's offset is not a decimal number that fits in 64 bits.
    InvalidOffset,
    /// A file's bytes run past the end of the stream.
    TruncatedPayload,
}

/// The fixed fields at the start of an archive.
#[derive(Clone, Copy, Debug, PartialEq, Eq, Structural)]
pub struct AsarHeader {
    pub payload_size: u32,
    pub header_size: u32,
    pub header_string_size: u32,
    pub actual_string_size: u32,
}

/// Length of the four fixed 32-bit fields.
pub const HEADER_FIELDS_LEN: usize = 16;

/// The little-endian 32-bit unsigned integer stored at `b[i..i + 4]`.
pub open spec fn le_u32_at(b: Seq<u8>, i: int) -> int {
    b[i] + 256 * b[i + 1] + 65536 * b[i + 2] + 16777216 * b[i + 3]
}

/// The fixed fields that the first 16 bytes of `b` declare.
pub open spec fn header_of(b: Seq<u8>) -> AsarHeader {
    AsarHeader {
        payload_size: le_u32_at(b, 0) as u32,
        header_size: le_u32_at(b, 4) as u32,
        header_string_size: le_u32_at(b, 8) as u32,
        actual_string_size: le_u32_at(b, 12) as u32,
    }
}

impl AsarHeader {
    /// Where the file payload region starts: after the 8-byte prefix, the declared header
    /// string and a 4-byte pad.
    pub open spec fn base(&self) -> int {
        8 + self.header_string_size + 4
    }

    pub fn payload_base(&self) -> (r: u64)
        ensures
            r == self.base(),
    {
        8 + self.header_string_size as u64 + 4
    }
}

fn read_u32_le(data: &[u8], i: usize) -> (r: u32)
    requires
        i + 4 <= data@.len(),
    ensures
        r == le_u32_at(data@, i as int),
{
    let v: u64 = data[i] as u64 + data[i + 1] as u64 * 256 + data[i + 2] as u64 * 65536
        + data[i + 3] as u64 * 16777216;
    v as u32
}

/// Reads the four fixed fields, and checks that the header JSON that they announce is
/// present in full.
pub fn read_header(data: &[u8]) -> (r: Result<AsarHeader, DecodeError>)
    ensures
        r is Ok <==> (data@.len() >= HEADER_FIELDS_LEN && data@.len() >= HEADER_FIELDS_LEN
            + le_u32_at(data@, 12)),
        r matches Ok(h) ==> h == header_of(data@),
        r matches Err(e) ==> e == DecodeError::TruncatedHeader,
{
    if data.len() < HEADER_FIELDS_LEN {
        return Err(DecodeError::TruncatedHeader);
    }
    let h = AsarHeader {
        payload_size: read_u32_le(data, 0),
        header_size: read_u32_le(data, 4),
        header_string_size: read_u32_le(data, 8),
        actual_string_size: read_u32_le(data, 12),
    };
    if data.len() - HEADER_FIELDS_LEN < h.actual_string_size as usize {
        return Err(DecodeError::TruncatedHeader);
    }
    Ok(h)
}

/// The header JSON: exactly `actual_string_size` bytes right after the fixed fields.
pub fn header_json<'a>(data: &'a [u8], header: &AsarHeader) -> (r: &'a [u8])
    requires
        data@.len() >= HEADER_FIELDS_LEN + header.actual_string_size,
    ensures
        r@ == data@.subrange(
            HEADER_FIELDS_LEN as int,
            HEADER_FIELDS_LEN + header.actual_string_size,
        ),
{
    // A slice's length fits in `usize`, so the end index below does too.
    let _len = data.len();
    let end = HEADER_FIELDS_LEN + header.actual_string_size as usize;
    &data[HEADER_FIELDS_LEN..end]
}

// ----- decimal offsets -----
pub open spec fn is_digit(c: char) -> bool {
    '0' <= c <= '9'
}

pub open spec fn all_digits(s: Seq<char>) -> bool {
    forall|i: int| 0 <= i < s.len() ==> is_digit(#[trigger] s[i])
}

/// The number that the decimal digits `s` spell.
pub open spec fn digits_value(s: Seq<char>) -> int
    decreases s.len(),
{
    if s.len() == 0 {
        0
    } else {
        digits_value(s.drop_last()) * 10 + (s.last() as int - '0' as int)
    }
}

/// The digits of an offset string, after an optional leading `+`.
pub open spec fn offset_digits(s: Seq<char>) -> Seq<char> {
    if s.len() > 0 && s[0] == '+' {
        s.drop_first()
    } else {
        s
    }
}

/// The value of an offset string: an optional `+` and one or more decimal digits whose
/// value fits in 64 bits.
pub open spec fn offset_value(s: Seq<char>) -> Option<int> {
    let d = offset_digits(s);
    if d.len() > 0 && all_digits(d) && digits_value(d) <= u64::MAX {
        Some(digits_value(d))
    } else {
        None
    }
}

proof fn lemma_digits_monotone(s: Seq<char>, i: int)
    requires
        0 <= i <= s.len(),
        all_digits(s),
    ensures
        0 <= digits_value(s.take(i)) <= digits_value(s),
    decreases s.len(),
{
    if s.len() > 0 {
        if i == s.len() {
            assert(s.take(i) =~= s);
            lemma_digits_monotone(s.drop_last(), s.len() - 1);
            assert(s.drop_last().take(s.len() - 1) =~= s.drop_last());
        } else {
            lemma_digits_monotone(s.drop_last(), i);
            assert(s.drop_last().take(i) =~= s.take(i));
            lemma_digits_monotone(s.drop_last(), s.len() - 1);
            assert(s.drop_last().take(s.len() - 1) =~= s.drop_last());
            assert(is_digit(s[s.len() - 1]));
        }
    }
}

/// Parses a file offset as the header writes it.
pub fn parse_offset(s: &str) -> (r: Option<u64>)
    ensures
        r is Some <==> offset_value(s@) is Some,
        r matches Some(v) ==> offset_value(s@) == Some(v as int),
{
    let n = s.unicode_len();
    let start: usize = if n > 0 && s.get_char(0) == '+' {
        1
    } else {
        0
    };
    let ghost d = offset_digits(s@);
    proof {
        assert(d =~= s@.subrange(start as int, n as int));
    }
    if start == n {
        return None;
    }
    let mut acc: u64 = 0;
    let mut i: usize = start;
    while i < n
        invariant
            n == s@.len(),
            start <= i <= n,
            d == s@.subrange(start as int, n as int),
            d == offset_digits(s@),
            all_digits(d.take(i - start)),
            acc == digits_value(d.take(i - start)),
        decreases n - i,
    {
        let c = s.get_char(i);
        let ghost t = d.take(i - start);
        let ghost t2 = d.take(i - start + 1);
        proof {
            assert(t2.drop_last() =~= t);
            assert(d[i - start] == c);
            assert(t2.last() == c);
        }
        if !('0' <= c && c <= '9') {
            proof {
                assert(!is_digit(d[i - start]));
            }
            return None;
        }
        let digit = (c as u32 - '0' as u32) as u64;
        let next = match acc.checked_mul(10) {
            Some(x) => x.checked_add(digit),
            None => None,
        };
        match next {
            Some(x) => {
                acc = x;
            },
            None => {
                proof {
                    assert(digits_value(t2) == digits_value(t) * 10 + (c as int - '0' as int));
                    assert(digits_value(t2) > u64::MAX);
                    if all_digits(d) {
                        lemma_digits_monotone(d, i - start + 1);
                    }
                }
                return None;
            },
        }
        i = i + 1;
    }
    proof {
        assert(d.take(n - start) =~= d);
    }
    Some(acc)
}

} // verus!

verus! {

// ----- extraction -----
/// A file of the header tree: its accumulated path, offset string and size.
pub type Leaf = (Seq<char>, Seq<char>, nat);

/// The path of child `name` below `path` (root children have no leading `/`).
pub open spec fn child_path(path: Seq<char>, name: Seq<char>) -> Seq<char> {
    if path.len() == 0 {
        name
    } else {
        path + seq!['/'] + name
    }
}

/// The files below `e`, depth first, starting at child `i` when `e` is a directory.
pub open spec fn entry_leaves(e: AsarEntry, path: Seq<char>, i: int) -> Seq<Leaf>
    decreases e, (match e {
        AsarEntry::Directory { files } => files@.len() - i,
        AsarEntry::File { .. } => 0,
    }),
    when 0 <= i
{
    match e {
        AsarEntry::File { offset, size } => seq![(path, offset@, size as nat)],
        AsarEntry::Directory { files } => {
            if i >= files@.len() {
                Seq::empty()
            } else {
                entry_leaves(files@[i].1, child_path(path, files@[i].0@), 0) + entry_leaves(
                    e,
                    path,
                    i + 1,
                )
            }
        },
    }
}

/// No two entries of one directory share a name.
pub open spec fn names_distinct(files: Seq<(String, AsarEntry)>) -> bool {
    forall|i: int, j: int|
        0 <= i < j < files.len() ==> (#[trigger] files[i]).0@ != (#[trigger] files[j]).0@
}

/// The header tree below `e` is a mapping at every level: from child `i` on (and, once
/// past the last child, for the whole directory), no two entries of one directory share a
/// name.
pub open spec fn entry_wf(e: AsarEntry, i: int) -> bool
    decreases e, (match e {
        AsarEntry::Directory { files } => files@.len() - i,
        AsarEntry::File { .. } => 0,
    }),
    when 0 <= i
{
    match e {
        AsarEntry::File { .. } => true,
        AsarEntry::Directory { files } => {
            if i >= files@.len() {
                names_distinct(files@)
            } else {
                entry_wf(files@[i].1, 0) && entry_wf(e, i + 1)
            }
        },
    }
}

/// The header tree `e` is well formed: each directory maps names to entries.
pub open spec fn wf_entry(e: AsarEntry) -> bool {
    entry_wf(e, 0)
}

/// The files of the header tree `e`, depth first, in each directory's listed order.
pub open spec fn leaves(e: AsarEntry, path: Seq<char>) -> Seq<Leaf> {
    entry_leaves(e, path, 0)
}

/// Whether the bytes of a file are available: it starts and ends within the stream, even
/// when it is empty.
pub open spec fn leaf_in_range(data: Seq<u8>, base: int, off: int, size: int) -> bool {
    base + off + size <= data.len()
}

/// The bytes of a file stored at `off` past `base`.
pub open spec fn leaf_bytes(data: Seq<u8>, base: int, off: int, size: int) -> Seq<u8> {
    data.subrange(base + off, base + off + size)
}

/// Adds the files `ls` in order to `m`, a later file replacing an earlier one at the same
/// path; fails at the first file whose offset is invalid or whose bytes are missing.
pub open spec fn extract_spec(
    m: Map<Seq<char>, Seq<u8>>,
    ls: Seq<Leaf>,
    data: Seq<u8>,
    base: int,
) -> Result<Map<Seq<char>, Seq<u8>>, DecodeError>
    decreases ls.len(),
{
    if ls.len() == 0 {
        Ok(m)
    } else {
        let (p, off, size) = ls[0];
        match offset_value(off) {
            None => Err(DecodeError::InvalidOffset),
            Some(o) => {
                if !leaf_in_range(data, base, o, size as int) {
                    Err(DecodeError::TruncatedPayload)
                } else {
                    extract_spec(
                        m.insert(p, leaf_bytes(data, base, o, size as int)),
                        ls.drop_first(),
                        data,
                        base,
                    )
                }
            },
        }
    }
}

/// The contents of an extracted tree, as byte sequences.
pub open spec fn tree_view(t: Map<Seq<char>, Vec<u8>>) -> Map<Seq<char>, Seq<u8>> {
    t.map_values(|v: Vec<u8>| v@)
}

proof fn lemma_extract_append(
    m: Map<Seq<char>, Seq<u8>>,
    a: Seq<Leaf>,
    b: Seq<Leaf>,
    data: Seq<u8>,
    base: int,
)
    ensures
        extract_spec(m, a + b, data, base) == match extract_spec(m, a, data, base) {
            Ok(m2) => extract_spec(m2, b, data, base),
            Err(e) => Err(e),
        },
    decreases a.len(),
{
    if a.len() == 0 {
        assert(a + b =~= b);
    } else {
        assert((a + b)[0] == a[0]);
        assert((a + b).drop_first() =~= a.drop_first() + b);
        let (p, off, size) = a[0];
        match offset_value(off) {
            None => {},
            Some(o) => {
                if leaf_in_range(data, base, o, size as int) {
                    lemma_extract_append(
                        m.insert(p, leaf_bytes(data, base, o, size as int)),
                        a.drop_first(),
                        b,
                        data,
                        base,
                    );
                }
            },
        }
    }
}

proof fn lemma_tree_view_insert(t: Map<Seq<char>, Vec<u8>>, k: Seq<char>, v: Vec<u8>)
    ensures
        tree_view(t.insert(k, v)) == tree_view(t).insert(k, v@),
{
    assert(tree_view(t.insert(k, v)) =~= tree_view(t).insert(k, v@));
}

/// Extracts the files below `entry` into `output`, depth first.
fn walk_tree(
    entry: &AsarEntry,
    data: &[u8],
    base: u64,
    output: &mut FileTree,
    path: String,
) -> (r: Result<(), DecodeError>)
    requires
        old(output).wf(),
    ensures
        final(output).wf(),
        match extract_spec(tree_view(old(output)@), leaves(*entry, path@), data@, base as int) {
            Ok(m) => r is Ok && tree_view(final(output)@) == m,
            Err(e) => r == Err::<(), DecodeError>(e),
        },
    decreases entry,
{
    match entry {
        AsarEntry::Directory { files } => {
            let ghost target = extract_spec(
                tree_view(old(output)@),
                leaves(*entry, path@),
                data@,
                base as int,
            );
            let mut i: usize = 0;
            while i < files.len()
                invariant
                    output.wf(),
                    i <= files@.len(),
                    *entry == (AsarEntry::Directory { files: *files }),
                    target == extract_spec(
                        tree_view(old(output)@),
                        leaves(*entry, path@),
                        data@,
                        base as int,
                    ),
                    extract_spec(tree_view(output@), entry_leaves(*entry, path@, i as int), data@, base as int)
                        == target,
                decreases files@.len() - i,
            {
                let (name, child) = &files[i];
                let child_name = if path.unicode_len() == 0 {
                    name.clone()
                } else {
                    join_path(path.as_str(), name.as_str())
                };
                let ghost before = tree_view(output@);
                let ghost head = leaves(*child, child_name@);
                let ghost rest = entry_leaves(*entry, path@, i + 1);
                proof {
                    assert(child_name@ == child_path(path@, name@));
                    assert(entry_leaves(*entry, path@, i as int) == head + rest);
                    lemma_extract_append(before, head, rest, data@, base as int);
                }
                match walk_tree(child, data, base, output, child_name) {
                    Ok(()) => {},
                    Err(e) => {
                        return Err(e);
                    },
                }
                i = i + 1;
            }
            proof {
                assert(entry_leaves(*entry, path@, i as int) =~= Seq::<Leaf>::empty());
                assert(extract_spec(tree_view(output@), Seq::<Leaf>::empty(), data@, base as int)
                    == Ok::<Map<Seq<char>, Seq<u8>>, DecodeError>(tree_view(output@)));
                assert(target == Ok::<Map<Seq<char>, Seq<u8>>, DecodeError>(tree_view(output@)));
            }
            Ok(())
        },
        AsarEntry::File { offset, size } => {
            proof {
                let ls = leaves(*entry, path@);
                assert(ls.drop_first() =~= Seq::<Leaf>::empty());
            }
            let off = match parse_offset(offset.as_str()) {
                Some(o) => o,
                None => {
                    return Err(DecodeError::InvalidOffset);
                },
            };
            let len = data.len() as u64;
            let size64 = *size as u64;
            if !(base <= len && off <= len - base && size64 <= len - base - off) {
                return Err(DecodeError::TruncatedPayload);
            }
            let start = (base + off) as usize;
            let end = start + *size;
            let bytes = slice_to_vec(&data[start..end]);
            proof {
                lemma_tree_view_insert(output@, path@, bytes);
                assert(bytes@ == leaf_bytes(data@, base as int, off as int, *size as int));
            }
            output.insert(path, bytes);
            Ok(())
        },
    }
}

/// Extracts every file of the header tree `root` from the archive bytes `data`, whose
/// fixed fields are `header`. All or nothing: the first failing file ends the extraction.
pub fn extract_files(data: &[u8], header: &AsarHeader, root: &AsarEntry) -> (r: Result<
    FileTree,
    DecodeError,
>)
    requires
        wf_entry(*root),
    ensures
        match extract_spec(Map::empty(), leaves(*root, Seq::empty()), data@, header.base()) {
            Ok(m) => r matches Ok(t) && t.wf() && tree_view(t@) == m,
            Err(e) => r matches Err(x) && x == e,
        },
{
    let mut output: FileTree = PathMap::new();
    let empty = String::new();
    proof {
        assert(tree_view(output@) =~= Map::<Seq<char>, Seq<u8>>::empty());
    }
    match walk_tree(root, data, header.payload_base(), &mut output, empty) {
        Ok(()) => Ok(output),
        Err(e) => Err(e),
    }
}

} // verus!

verus! {

/// Extraction reproduces file contents byte for byte: when extracting the files `ls`
/// succeeds, the path of each file that no later file reuses holds exactly the bytes
/// that its offset and size point at.
pub proof fn lemma_extract_reproduces(
    m: Map<Seq<char>, Seq<u8>>,
    ls: Seq<Leaf>,
    data: Seq<u8>,
    base: int,
    k: int,
)
    requires
        extract_spec(m, ls, data, base) is Ok,
        0 <= k < ls.len(),
        forall|j: int| k < j < ls.len() ==> (#[trigger] ls[j]).0 != ls[k].0,
    ensures
        offset_value(ls[k].1) is Some,
        leaf_in_range(data, base, offset_value(ls[k].1)->0, ls[k].2 as int),
        extract_spec(m, ls, data, base)->Ok_0.contains_key(ls[k].0),
        extract_spec(m, ls, data, base)->Ok_0[ls[k].0] == leaf_bytes(
            data,
            base,
            offset_value(ls[k].1)->0,
            ls[k].2 as int,
        ),
    decreases ls.len(),
{
    let (p, off, size) = ls[0];
    let o = offset_value(off)->0;
    let m2 = m.insert(p, leaf_bytes(data, base, o, size as int));
    let rest = ls.drop_first();
    if k == 0 {
        lemma_extract_keeps(m2, rest, data, base, p);
    } else {
        assert forall|j: int| k - 1 < j < rest.len() implies (#[trigger] rest[j]).0 != rest[k - 1].0 by {
            assert(rest[j] == ls[j + 1]);
        }
        lemma_extract_reproduces(m2, rest, data, base, k - 1);
    }
}

/// A path that no file of `ls` uses keeps its entry through the extraction.
proof fn lemma_extract_keeps(
    m: Map<Seq<char>, Seq<u8>>,
    ls: Seq<Leaf>,
    data: Seq<u8>,
    base: int,
    p: Seq<char>,
)
    requires
        extract_spec(m, ls, data, base) is Ok,
        m.contains_key(p),
        forall|j: int| 0 <= j < ls.len() ==> (#[trigger] ls[j]).0 != p,
    ensures
        extract_spec(m, ls, data, base)->Ok_0.contains_key(p),
        extract_spec(m, ls, data, base)->Ok_0[p] == m[p],
    decreases ls.len(),
{
    if ls.len() > 0 {
        let (q, off, size) = ls[0];
        let o = offset_value(off)->0;
        let m2 = m.insert(q, leaf_bytes(data, base, o, size as int));
        let rest = ls.drop_first();
        assert forall|j: int| 0 <= j < rest.len() implies (#[trigger] rest[j]).0 != p by {
            assert(rest[j] == ls[j + 1]);
        }
        assert(ls[0].0 != p);
        lemma_extract_keeps(m2, rest, data, base, p);
    }
}

} // verus!

verus! {

/// The payload base depends on the declared header string size alone: headers that differ
/// only in the length of their JSON share it.
pub proof fn lemma_base_ignores_json_size(h: AsarHeader, actual_string_size: u32)
    ensures
        (AsarHeader { actual_string_size, ..h }).base() == h.base(),
        h.base() == 8 + h.header_string_size + 4,
{
}

} // verus!

verus! {

/// Extraction reads the stream only from the payload base on: two streams of one length
/// that agree from `base` on give the same result, whatever their header bytes (the length
/// of the header JSON included) hold.
pub proof fn lemma_extract_reads_only_payload(
    m: Map<Seq<char>, Seq<u8>>,
    ls: Seq<Leaf>,
    d1: Seq<u8>,
    d2: Seq<u8>,
    base: int,
)
    requires
        0 <= base <= d1.len(),
        d1.len() == d2.len(),
        d1.subrange(base, d1.len() as int) == d2.subrange(base, d2.len() as int),
    ensures
        extract_spec(m, ls, d1, base) == extract_spec(m, ls, d2, base),
    decreases ls.len(),
{
    if ls.len() > 0 {
        let (p, off, size) = ls[0];
        match offset_value(off) {
            None => {},
            Some(o) => {
                lemma_digits_monotone(offset_digits(off), 0);
                if leaf_in_range(d1, base, o, size as int) {
                    let s1 = leaf_bytes(d1, base, o, size as int);
                    let s2 = leaf_bytes(d2, base, o, size as int);
                    assert forall|k: int| 0 <= k < s1.len() implies #[trigger] s1[k] == s2[k] by {
                        assert(d1.subrange(base, d1.len() as int)[o + k] == d1[base + o + k]);
                        assert(d2.subrange(base, d2.len() as int)[o + k] == d2[base + o + k]);
                    }
                    assert(s1 =~= s2);
                    lemma_extract_reads_only_payload(
                        m.insert(p, leaf_bytes(d1, base, o, size as int)),
                        ls.drop_first(),
                        d1,
                        d2,
                        base,
                    );
                }
            },
        }
    }
}

} // verus!
