//! Writing a scanned tree to bytes and reading it back.

use vstd::prelude::*;
use vstd::utf8::{encode_utf8, valid_utf8};
use crate::format::{
    be_bytes, be_value, encode_entries, encode_entry, encode_stream, first_invalid_name,
    first_invalid_name_in, header, header_byte_error, is_reserved, is_separator,
    lemma_be_bytes_of_value, name_valid, names_valid, parse_entries, parse_entry, parse_size,
    parse_stream, reserved, scan, DecodeError, DIR_MARKER, SEPARATOR, SIZE_WIDTH, VERSION,
};
use crate::inverse::{lemma_decoded_is_encoded, readable};
use crate::item::{views, Item};
use crate::text::is_text;
use crate::tree::Tree;

verus! {

/// Why a tree could not be encoded.
#[derive(Debug, PartialEq, Eq)]
pub enum EncodeError {
    /// An entry is called `name`, which holds a `/` or a NUL byte: the stream
    /// could not be read back.
    ReservedByte { name: Vec<u8> },
}

/// The bytes of `v`, most significant first, added to `out`.
fn append_size(out: &mut Vec<u8>, v: u64)
    ensures
        final(out)@ == old(out)@ + be_bytes(v),
{
    out.push((v / 0x100_0000_0000_0000) as u8);
    out.push((v / 0x1_0000_0000_0000 % 256) as u8);
    out.push((v / 0x100_0000_0000 % 256) as u8);
    out.push((v / 0x1_0000_0000 % 256) as u8);
    out.push((v / 0x100_0000 % 256) as u8);
    out.push((v / 0x1_0000 % 256) as u8);
    out.push((v / 0x100 % 256) as u8);
    out.push((v % 256) as u8);
    assert(out@ =~= old(out)@ + be_bytes(v));
}

/// The bytes of `bytes`, added to `out`.
fn append_bytes(out: &mut Vec<u8>, bytes: &[u8])
    ensures
        final(out)@ == old(out)@ + bytes@,
{
    let mut i: usize = 0;
    while i < bytes.len()
        invariant
            0 <= i <= bytes@.len(),
            out@ == old(out)@ + bytes@.take(i as int),
        decreases bytes@.len() - i,
    {
        out.push(bytes[i]);
        i = i + 1;
        assert(out@ =~= old(out)@ + bytes@.take(i as int));
    }
    assert(bytes@.take(i as int) =~= bytes@);
}

/// A copy of the bytes of `bytes` from `from` up to `to`.
pub(crate) fn copy_range(bytes: &[u8], from: usize, to: usize) -> (copy: Vec<u8>)
    requires
        from <= to <= bytes@.len(),
    ensures
        copy@ == bytes@.subrange(from as int, to as int),
{
    let mut copy: Vec<u8> = Vec::new();
    let mut i: usize = from;
    while i < to
        invariant
            from <= i <= to <= bytes@.len(),
            copy@ == bytes@.subrange(from as int, i as int),
        decreases to - i,
    {
        copy.push(bytes[i]);
        i = i + 1;
        assert(copy@ =~= bytes@.subrange(from as int, i as int));
    }
    copy
}

/// The encoding of a list of entries grows entry by entry.
proof fn lemma_encode_entries_step(s: Seq<Tree>, i: int)
    requires
        0 <= i < s.len(),
    ensures
        encode_entries(s.take(i + 1)) == encode_entries(s.take(i)) + encode_entry(s[i]),
    decreases i,
{
    if i == 0 {
        assert(s.take(1).drop_first() =~= Seq::<Tree>::empty());
        assert(s.take(0) =~= Seq::<Tree>::empty());
        assert(encode_entries(Seq::<Tree>::empty()) =~= Seq::<u8>::empty());
        assert(s.take(1).first() == s[0]);
        assert(encode_entries(s.take(1)) =~= encode_entry(s[0]));
        assert(encode_entries(s.take(0)) + encode_entry(s[0]) =~= encode_entry(s[0]));
    } else {
        let t = s.drop_first();
        lemma_encode_entries_step(t, i - 1);
        assert(s.take(i + 1).drop_first() =~= t.take(i));
        assert(s.take(i).drop_first() =~= t.take(i - 1));
        assert(t[i - 1] == s[i]);
        assert(encode_entries(s.take(i + 1)) =~= encode_entry(s[0]) + (encode_entries(
            t.take(i - 1),
        ) + encode_entry(s[i])));
    }
}

/// Whether the name holds no reserved byte.
fn name_is_valid(name: &Vec<u8>) -> (valid: bool)
    ensures
        valid == name_valid(name@),
{
    let mut i: usize = 0;
    while i < name.len()
        invariant
            0 <= i <= name@.len(),
            forall|j: int| 0 <= j < i ==> !reserved(#[trigger] name@[j]),
        decreases name@.len() - i,
    {
        if name[i] == SEPARATOR || name[i] == DIR_MARKER {
            return false;
        }
        i = i + 1;
    }
    true
}

/// The first name of the tree, root first and children in order, that holds
/// a reserved byte.
pub fn find_invalid_name(entry: &Item) -> (found: Option<&Vec<u8>>)
    ensures
        match found {
            Some(name) => first_invalid_name(entry@) == Some(name@),
            None => names_valid(entry@),
        },
    decreases entry@,
{
    if !name_is_valid(entry.name()) {
        return Some(entry.name());
    }
    if !entry.is_directory() {
        return None;
    }
    let children = entry.children();
    let ghost kids = entry@.children;
    let mut i: usize = 0;
    assert(kids.skip(0) =~= kids);
    while i < children.len()
        invariant
            0 <= i <= children@.len(),
            kids == views(children@),
            kids == entry@.children,
            first_invalid_name(entry@) == first_invalid_name_in(kids),
            first_invalid_name_in(kids) == first_invalid_name_in(kids.skip(i as int)),
        decreases children@.len() - i,
    {
        let ghost rest = kids.skip(i as int);
        assert(rest.first() == children@[i as int]@);
        assert(rest.first() == kids[i as int]);
        assert(rest.drop_first() =~= kids.skip(i + 1));
        match find_invalid_name(&children[i]) {
            Some(name) => {
                return Some(name);
            },
            None => {},
        }
        i = i + 1;
    }
    assert(kids.skip(i as int) =~= Seq::<Tree>::empty());
    None
}

/// The bytes of `entry`, added to `out`.
fn append_entry(out: &mut Vec<u8>, entry: &Item)
    ensures
        final(out)@ == old(out)@ + encode_entry(entry@),
    decreases entry@,
{
    append_bytes(out, entry.name().as_slice());
    if entry.is_directory() {
        out.push(DIR_MARKER);
        let children = entry.children();
        let ghost kids = entry@.children;
        let ghost start = out@;
        let mut i: usize = 0;
        assert(kids.take(0) =~= Seq::<Tree>::empty());
        while i < children.len()
            invariant
                0 <= i <= children@.len(),
                kids == views(children@),
                kids == entry@.children,
                out@ == start + encode_entries(kids.take(i as int)),
                decreases children@.len() - i,
        {
            proof {
                lemma_encode_entries_step(kids, i as int);
            }
            append_entry(out, &children[i]);
            i = i + 1;
            assert(out@ =~= start + encode_entries(kids.take(i as int)));
        }
        assert(kids.take(i as int) =~= kids);
        out.push(SEPARATOR);
        out.push(SEPARATOR);
        append_size(out, entry.own_size());
        assert(out@ =~= old(out)@ + encode_entry(entry@));
    } else {
        out.push(SEPARATOR);
        append_size(out, entry.own_size());
        assert(out@ =~= old(out)@ + encode_entry(entry@));
    }
}

/// Adds the bytes of `entry` to `out`, unless a name in it holds a reserved
/// byte: then nothing is written and the first such name is reported.
pub fn write_entry(out: &mut Vec<u8>, entry: &Item) -> (result: Result<(), EncodeError>)
    ensures
        match result {
            Ok(_) => names_valid(entry@) && final(out)@ == old(out)@ + encode_entry(entry@),
            Err(EncodeError::ReservedByte { name }) => first_invalid_name(entry@) == Some(name@)
                && final(out)@ == old(out)@,
        },
{
    match find_invalid_name(entry) {
        Some(name) => Err(EncodeError::ReservedByte { name: copy_range(name.as_slice(), 0, name.len()) }),
        None => {
            append_entry(out, entry);
            Ok(())
        },
    }
}

/// The stream for `entry` under the base path `base_path`, unless a name in
/// the tree holds a reserved byte: then the first such name is reported.
pub fn encode(base_path: &str, entry: &Item) -> (result: Result<Vec<u8>, EncodeError>)
    ensures
        match result {
            Ok(bytes) => names_valid(entry@) && bytes@ == encode_stream(
                encode_utf8(base_path@),
                entry@,
            ),
            Err(EncodeError::ReservedByte { name }) => first_invalid_name(entry@) == Some(name@),
        },
{
    let mut out: Vec<u8> = Vec::new();
    out.push(0x44);
    out.push(0x55);
    out.push(0x49);
    out.push(VERSION);
    append_bytes(&mut out, base_path.as_bytes());
    out.push(SEPARATOR);
    assert(out@ =~= header() + encode_utf8(base_path@).push(SEPARATOR));
    match write_entry(&mut out, entry) {
        Ok(_) => Ok(out),
        Err(e) => Err(e),
    }
}

/// The first position at or after `pos` that holds a reserved byte, or the
/// length of the stream.
fn scan_reserved(bytes: &[u8], pos: usize) -> (end: usize)
    requires
        pos <= bytes@.len(),
    ensures
        end == scan(bytes@, pos as int, is_reserved()),
        pos <= end <= bytes@.len(),
{
    let mut i: usize = pos;
    while i < bytes.len() && bytes[i] != SEPARATOR && bytes[i] != DIR_MARKER
        invariant
            pos <= i <= bytes@.len(),
            scan(bytes@, pos as int, is_reserved()) == scan(bytes@, i as int, is_reserved()),
        decreases bytes@.len() - i,
    {
        i = i + 1;
    }
    i
}

/// The first position at or after `pos` that holds a separator, or the
/// length of the stream.
fn scan_separator(bytes: &[u8], pos: usize) -> (end: usize)
    requires
        pos <= bytes@.len(),
    ensures
        end == scan(bytes@, pos as int, is_separator()),
        pos <= end <= bytes@.len(),
{
    let mut i: usize = pos;
    while i < bytes.len() && bytes[i] != SEPARATOR
        invariant
            pos <= i <= bytes@.len(),
            scan(bytes@, pos as int, is_separator()) == scan(bytes@, i as int, is_separator()),
        decreases bytes@.len() - i,
    {
        i = i + 1;
    }
    i
}

/// The size field at `pos`, and the position after it.
fn read_size(bytes: &[u8], pos: usize) -> (result: Result<(u64, usize), DecodeError>)
    requires
        pos <= bytes@.len(),
    ensures
        match result {
            Ok((size, after)) => parse_size(bytes@, pos as int) == Ok::<_, DecodeError>(
                (size, after as int),
            ) && after == pos + SIZE_WIDTH && after <= bytes@.len(),
            Err(e) => parse_size(bytes@, pos as int) == Err::<(u64, int), _>(e),
        },
{
    if bytes.len() - pos < SIZE_WIDTH {
        return Err(DecodeError::Truncated { offset: pos, needed: SIZE_WIDTH });
    }
    let ghost field = bytes@.subrange(pos as int, pos + SIZE_WIDTH);
    proof {
        lemma_be_bytes_of_value(field);
    }
    let size: u64 = (bytes[pos] as u64) * 0x100_0000_0000_0000 + (bytes[pos + 1] as u64)
        * 0x1_0000_0000_0000 + (bytes[pos + 2] as u64) * 0x100_0000_0000 + (bytes[pos + 3] as u64)
        * 0x1_0000_0000 + (bytes[pos + 4] as u64) * 0x100_0000 + (bytes[pos + 5] as u64) * 0x1_0000
        + (bytes[pos + 6] as u64) * 0x100 + (bytes[pos + 7] as u64);
    assert(size == be_value(field));
    Ok((size, pos + SIZE_WIDTH))
}

/// What a decoder returned is what the stream holds.
pub open spec fn entry_decoded(
    result: Result<(Item, usize), DecodeError>,
    held: Result<(Tree, int), DecodeError>,
) -> bool {
    match (result, held) {
        (Ok((item, next)), Ok((t, n))) => item@ == t && next == n,
        (Err(e), Err(f)) => e == f,
        _ => false,
    }
}

/// The children read so far, put in front of what the rest of a list holds.
spec fn after_children(
    done: Seq<Tree>,
    rest: Result<(Seq<Tree>, int), DecodeError>,
) -> Result<(Seq<Tree>, int), DecodeError> {
    match rest {
        Ok((more, after)) => Ok((done + more, after)),
        Err(e) => Err(e),
    }
}

proof fn lemma_after_no_children(rest: Result<(Seq<Tree>, int), DecodeError>)
    ensures
        after_children(Seq::empty(), rest) == rest,
{
    match rest {
        Ok((more, after)) => {
            assert(Seq::<Tree>::empty() + more =~= more);
        },
        Err(e) => {},
    }
}

proof fn lemma_after_one_more_child(
    done: Seq<Tree>,
    child: Tree,
    rest: Result<(Seq<Tree>, int), DecodeError>,
)
    ensures
        after_children(done, after_children(seq![child], rest)) == after_children(
            done.push(child),
            rest,
        ),
{
    match rest {
        Ok((more, after)) => {
            assert(done + (seq![child] + more) =~= done.push(child) + more);
        },
        Err(e) => {},
    }
}

/// Reads the entry that starts at `pos`; returns it with the position after
/// it, or the reason why the stream holds no entry there: it ends too early,
/// a directory does not end with a separator after its children, or a name
/// is no text.
pub fn read_entry(bytes: &[u8], pos: usize) -> (result: Result<(Item, usize), DecodeError>)
    ensures
        entry_decoded(result, parse_entry(bytes@, pos as int)),
        result matches Ok((_, next)) ==> pos < next <= bytes@.len(),
    decreases bytes@.len() - pos,
{
    let ghost s = bytes@;
    if pos > bytes.len() {
        return Err(DecodeError::Truncated { offset: bytes.len(), needed: 1 });
    }
    let end = scan_reserved(bytes, pos);
    if end >= bytes.len() {
        return Err(DecodeError::Truncated { offset: bytes.len(), needed: 1 });
    }
    let name = copy_range(bytes, pos, end);
    if bytes[end] == SEPARATOR {
        return match read_size(bytes, end + 1) {
            Err(e) => Err(e),
            Ok((size, after)) => if is_text(name.as_slice()) {
                let children: Vec<Item> = Vec::new();
                assert(views(children@) =~= Seq::<Tree>::empty());
                Ok((Item::assemble(name, size, false, children), after))
            } else {
                Err(DecodeError::Encoding { offset: pos })
            },
        };
    }
    let mut children: Vec<Item> = Vec::new();
    let mut cur: usize = end + 1;
    proof {
        lemma_after_no_children(parse_entries(s, cur as int));
        assert(views(children@) =~= Seq::<Tree>::empty());
    }
    while cur < bytes.len() && bytes[cur] != SEPARATOR
        invariant
            s == bytes@,
            pos <= end < cur <= s.len(),
            end == scan(s, pos as int, is_reserved()),
            s[end as int] != SEPARATOR,
            parse_entries(s, end + 1) == after_children(
                views(children@),
                parse_entries(s, cur as int),
            ),
        decreases s.len() - cur,
    {
        let ghost done = views(children@);
        match read_entry(bytes, cur) {
            Err(e) => {
                assert(parse_entries(s, cur as int) == Err::<(Seq<Tree>, int), _>(e));
                return Err(e);
            },
            Ok((child, next)) => {
                proof {
                    lemma_after_one_more_child(done, child@, parse_entries(s, next as int));
                }
                children.push(child);
                assert(views(children@) =~= done.push(child@));
                cur = next;
            },
        }
    }
    if cur >= bytes.len() {
        return Err(DecodeError::Truncated { offset: bytes.len(), needed: 1 });
    }
    proof {
        assert(views(children@) + Seq::<Tree>::empty() =~= views(children@));
    }
    let closed = cur + 1;
    if closed >= bytes.len() {
        return Err(DecodeError::Truncated { offset: bytes.len(), needed: 1 });
    }
    if bytes[closed] != SEPARATOR {
        return Err(
            DecodeError::Format { offset: closed, expected: SEPARATOR, found: bytes[closed] },
        );
    }
    match read_size(bytes, closed + 1) {
        Err(e) => Err(e),
        Ok((size, after)) => if is_text(name.as_slice()) {
            Ok((Item::assemble(name, size, true, children), after))
        } else {
            Err(DecodeError::Encoding { offset: pos })
        },
    }
}

/// What is wrong with the header byte at `i`, where `expected` belongs.
fn check_header_byte(bytes: &[u8], i: usize, expected: u8) -> (error: Option<DecodeError>)
    requires
        0 <= i < 4,
        expected == header()[i as int],
    ensures
        error == header_byte_error(bytes@, i as int),
{
    if i >= bytes.len() {
        Some(DecodeError::Truncated { offset: bytes.len(), needed: 1 })
    } else if bytes[i] != expected {
        Some(DecodeError::Format { offset: i, expected, found: bytes[i] })
    } else {
        None
    }
}

/// What a decoder returned for a whole stream is what the stream holds.
pub open spec fn stream_decoded(
    result: Result<(Vec<u8>, Item), DecodeError>,
    held: Result<(Seq<u8>, Tree), DecodeError>,
) -> bool {
    match (result, held) {
        (Ok((base_path, item)), Ok((b, t))) => base_path@ == b && item@ == t,
        (Err(e), Err(f)) => e == f,
        _ => false,
    }
}

/// Reads a stream: returns the base path and the root entry, or the reason
/// why the bytes are no stream of this format.
///
/// The header is checked byte by byte, so that a wrong byte is reported
/// without reading further. The base path and every name have to be text.
/// Bytes after the root entry are not read.
pub fn decode(bytes: &[u8]) -> (result: Result<(Vec<u8>, Item), DecodeError>)
    ensures
        stream_decoded(result, parse_stream(bytes@)),
        result matches Ok((base_path, item)) ==> readable(item@) && !base_path@.contains(SEPARATOR)
            && valid_utf8(base_path@) && encode_stream(base_path@, item@).is_prefix_of(bytes@),
{
    proof {
        lemma_decoded_is_encoded(bytes@);
    }
    if let Some(e) = check_header_byte(bytes, 0, 0x44) {
        return Err(e);
    }
    if let Some(e) = check_header_byte(bytes, 1, 0x55) {
        return Err(e);
    }
    if let Some(e) = check_header_byte(bytes, 2, 0x49) {
        return Err(e);
    }
    if let Some(e) = check_header_byte(bytes, 3, VERSION) {
        return Err(e);
    }
    let end = scan_separator(bytes, 4);
    if end >= bytes.len() {
        return Err(DecodeError::Truncated { offset: bytes.len(), needed: 1 });
    }
    let base_path = copy_range(bytes, 4, end);
    if !is_text(base_path.as_slice()) {
        return Err(DecodeError::Encoding { offset: 4 });
    }
    match read_entry(bytes, end + 1) {
        Err(e) => Err(e),
        Ok((item, _)) => Ok((base_path, item)),
    }
}

} // verus!
