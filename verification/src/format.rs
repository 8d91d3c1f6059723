//! The persisted form of a scanned tree, as a specification.
//!
//! ```text
//! stream    := "DUI" version(1) base_path NUL entry
//! entry     := name [ '/' entry* NUL ] NUL size
//! size      := 8 bytes, big-endian
//! ```
//!
//! A name holds neither `/` nor NUL. An entry with a `/` after its name is a
//! directory; its children follow back to back and a NUL closes the list.
//! A NUL ends every entry, file or directory, before its size. Names and the
//! base path are text, kept as UTF-8.

use vstd::prelude::*;
use vstd::utf8::valid_utf8;
use crate::tree::Tree;

verus! {

/// The byte that follows the name of a directory and opens its children.
pub const DIR_MARKER: u8 = 0x2f;

/// The byte that ends a name, a list of children, and the base path.
pub const SEPARATOR: u8 = 0;

/// The format version this library reads and writes.
pub const VERSION: u8 = 1;

/// Width of the size field.
pub const SIZE_WIDTH: usize = 8;

/// The signature and version every stream starts with.
pub open spec fn header() -> Seq<u8> {
    seq![0x44u8, 0x55u8, 0x49u8, VERSION]
}

/// A byte that no name may hold.
pub open spec fn reserved(b: u8) -> bool {
    b == SEPARATOR || b == DIR_MARKER
}

/// The name holds no reserved byte.
pub open spec fn name_valid(name: Seq<u8>) -> bool {
    forall|i: int| 0 <= i < name.len() ==> !reserved(#[trigger] name[i])
}

/// The eight bytes of `v`, most significant first.
pub open spec fn be_bytes(v: u64) -> Seq<u8> {
    seq![
        (v / 0x100_0000_0000_0000) as u8,
        (v / 0x1_0000_0000_0000 % 256) as u8,
        (v / 0x100_0000_0000 % 256) as u8,
        (v / 0x1_0000_0000 % 256) as u8,
        (v / 0x100_0000 % 256) as u8,
        (v / 0x1_0000 % 256) as u8,
        (v / 0x100 % 256) as u8,
        (v % 256) as u8,
    ]
}

/// The number that eight bytes stand for, most significant first.
pub open spec fn be_value(b: Seq<u8>) -> nat
    recommends
        b.len() == 8,
{
    (b[0] as nat) * 0x100_0000_0000_0000 + (b[1] as nat) * 0x1_0000_0000_0000 + (b[2] as nat)
        * 0x100_0000_0000 + (b[3] as nat) * 0x1_0000_0000 + (b[4] as nat) * 0x100_0000 + (
    b[5] as nat) * 0x1_0000 + (b[6] as nat) * 0x100 + (b[7] as nat)
}

/// Reading back the bytes of a number gives the number.
pub proof fn lemma_be_value_of_bytes(v: u64)
    ensures
        be_bytes(v).len() == 8,
        be_value(be_bytes(v)) == v,
{
    assert(v / 0x100_0000_0000_0000 < 256);
    assert((v / 0x100_0000_0000_0000) * 0x100_0000_0000_0000 + (v / 0x1_0000_0000_0000 % 256)
        * 0x1_0000_0000_0000 + (v / 0x100_0000_0000 % 256) * 0x100_0000_0000 + (v / 0x1_0000_0000
        % 256) * 0x1_0000_0000 + (v / 0x100_0000 % 256) * 0x100_0000 + (v / 0x1_0000 % 256)
        * 0x1_0000 + (v / 0x100 % 256) * 0x100 + (v % 256) == v) by (bit_vector);
}

/// Eight bytes are the bytes of the number they stand for.
pub proof fn lemma_be_bytes_of_value(b: Seq<u8>)
    requires
        b.len() == 8,
    ensures
        be_value(b) <= u64::MAX,
        be_bytes(be_value(b) as u64) == b,
{
    let (b0, b1, b2, b3, b4, b5, b6, b7) = (b[0], b[1], b[2], b[3], b[4], b[5], b[6], b[7]);
    let v: u64 = be_value(b) as u64;
    assert(v == b0 * 0x100_0000_0000_0000 + b1 * 0x1_0000_0000_0000 + b2 * 0x100_0000_0000 + b3
        * 0x1_0000_0000 + b4 * 0x100_0000 + b5 * 0x1_0000 + b6 * 0x100 + b7);
    assert(v / 0x100_0000_0000_0000 == b0 && v / 0x1_0000_0000_0000 % 256 == b1 && v
        / 0x100_0000_0000 % 256 == b2 && v / 0x1_0000_0000 % 256 == b3 && v / 0x100_0000 % 256
        == b4 && v / 0x1_0000 % 256 == b5 && v / 0x100 % 256 == b6 && v % 256 == b7)
        by (bit_vector)
        requires
            v == b0 * 0x100_0000_0000_0000 + b1 * 0x1_0000_0000_0000 + b2 * 0x100_0000_0000 + b3
                * 0x1_0000_0000 + b4 * 0x100_0000 + b5 * 0x1_0000 + b6 * 0x100 + b7,
    ;
    assert(be_bytes(v) =~= b);
}

/// The bytes of one entry: the name, for a directory the marker, the
/// children and the separator that closes the list, then for every entry
/// the separator that ends it and the own size.
pub open spec fn encode_entry(t: Tree) -> Seq<u8>
    decreases t, 0nat,
{
    if t.is_directory {
        t.name.push(DIR_MARKER) + encode_entries(t.children).push(SEPARATOR) + seq![SEPARATOR]
            + be_bytes(t.own_size)
    } else {
        t.name.push(SEPARATOR) + be_bytes(t.own_size)
    }
}

/// The bytes of a list of entries, back to back.
pub open spec fn encode_entries(s: Seq<Tree>) -> Seq<u8>
    decreases s, 1nat,
{
    if s.len() == 0 {
        Seq::empty()
    } else {
        encode_entry(s.first()) + encode_entries(s.drop_first())
    }
}

/// The bytes of a whole stream: header, base path, separator, root entry.
pub open spec fn encode_stream(base: Seq<u8>, t: Tree) -> Seq<u8> {
    header() + base.push(SEPARATOR) + encode_entry(t)
}

/// The first name of the tree, root first and children in order, that holds
/// a reserved byte.
pub open spec fn first_invalid_name(t: Tree) -> Option<Seq<u8>>
    decreases t, 0nat,
{
    if !name_valid(t.name) {
        Some(t.name)
    } else if t.is_directory {
        first_invalid_name_in(t.children)
    } else {
        None
    }
}

/// The first name among the trees of `s` that holds a reserved byte.
pub open spec fn first_invalid_name_in(s: Seq<Tree>) -> Option<Seq<u8>>
    decreases s, 1nat,
{
    if s.len() == 0 {
        None
    } else {
        match first_invalid_name(s.first()) {
            Some(name) => Some(name),
            None => first_invalid_name_in(s.drop_first()),
        }
    }
}

/// No name of the tree holds a reserved byte.
pub open spec fn names_valid(t: Tree) -> bool {
    first_invalid_name(t) is None
}

/// Every name of the tree is text: well-formed UTF-8.
pub open spec fn names_text(t: Tree) -> bool
    decreases t,
{
    &&& valid_utf8(t.name)
    &&& forall|i: int| 0 <= i < t.children.len() ==> names_text(#[trigger] t.children[i])
}

/// Why a stream could not be decoded.
#[derive(Debug, Clone, Copy, PartialEq, Eq, Structural)]
pub enum DecodeError {
    /// The stream is not of this format: at `offset` it holds `found` where
    /// `expected` belongs. That is so for a wrong byte in the signature or
    /// the version, and for a directory that does not end with a separator
    /// after its list of children.
    Format { offset: usize, expected: u8, found: u8 },
    /// The stream ends inside a field: the field starts at `offset` and is
    /// `needed` bytes wide.
    Truncated { offset: usize, needed: usize },
    /// The name or the base path that starts at `offset` is no text: its
    /// bytes are not well-formed UTF-8.
    Encoding { offset: usize },
}

/// What is wrong with the byte at `i`, where `expected` belongs.
pub open spec fn header_byte_error(s: Seq<u8>, i: int) -> Option<DecodeError> {
    if i >= s.len() {
        Some(DecodeError::Truncated { offset: s.len() as usize, needed: 1 })
    } else if s[i] != header()[i] {
        Some(DecodeError::Format { offset: i as usize, expected: header()[i], found: s[i] })
    } else {
        None
    }
}

/// The first thing wrong with the header, reading byte by byte.
pub open spec fn header_error(s: Seq<u8>) -> Option<DecodeError> {
    if header_byte_error(s, 0) is Some {
        header_byte_error(s, 0)
    } else if header_byte_error(s, 1) is Some {
        header_byte_error(s, 1)
    } else if header_byte_error(s, 2) is Some {
        header_byte_error(s, 2)
    } else {
        header_byte_error(s, 3)
    }
}

/// The first position at or after `pos` that holds a byte for which `stop`
/// holds, or the length of `s` where there is none.
pub open spec fn scan(s: Seq<u8>, pos: int, stop: spec_fn(u8) -> bool) -> int
    decreases s.len() - pos,
{
    if pos < 0 || pos >= s.len() {
        s.len() as int
    } else if stop(s[pos]) {
        pos
    } else {
        scan(s, pos + 1, stop)
    }
}

/// A scan stops at or after its start, passes only bytes it does not stop
/// for, and stops inside the stream only at a byte it stops for.
pub proof fn lemma_scan(s: Seq<u8>, pos: int, stop: spec_fn(u8) -> bool)
    requires
        0 <= pos <= s.len(),
    ensures
        pos <= scan(s, pos, stop) <= s.len(),
        forall|i: int| pos <= i < scan(s, pos, stop) ==> !stop(#[trigger] s[i]),
        scan(s, pos, stop) < s.len() ==> stop(s[scan(s, pos, stop)]),
    decreases s.len() - pos,
{
    if pos < s.len() && !stop(s[pos]) {
        lemma_scan(s, pos + 1, stop);
    }
}

/// The test "is a reserved byte".
pub open spec fn is_reserved() -> spec_fn(u8) -> bool {
    |b: u8| reserved(b)
}

/// The test "is the separator".
pub open spec fn is_separator() -> spec_fn(u8) -> bool {
    |b: u8| b == SEPARATOR
}

/// The size field at `pos`, and the position after it.
pub open spec fn parse_size(s: Seq<u8>, pos: int) -> Result<(u64, int), DecodeError> {
    if pos + SIZE_WIDTH > s.len() {
        Err(DecodeError::Truncated { offset: pos as usize, needed: SIZE_WIDTH })
    } else {
        Ok((be_value(s.subrange(pos, pos + SIZE_WIDTH)) as u64, pos + SIZE_WIDTH))
    }
}

/// The entry `t`, read from `pos` up to `after`, where its name is text;
/// else the name is reported.
pub open spec fn named(t: Tree, pos: int, after: int) -> Result<(Tree, int), DecodeError> {
    if valid_utf8(t.name) {
        Ok((t, after))
    } else {
        Err(DecodeError::Encoding { offset: pos as usize })
    }
}

/// The entry that starts at `pos`, and the position after it.
///
/// The name runs up to the first reserved byte. A separator there ends the
/// entry, a file. A directory marker makes it a directory: its children
/// follow up to the separator that closes the list, and one more separator
/// has to end the entry; another byte in its place is a format error, the
/// end of the stream a truncation. The size comes last. An entry that is
/// there in full is looked at once more: its name has to be text.
pub open spec fn parse_entry(s: Seq<u8>, pos: int) -> Result<(Tree, int), DecodeError>
    decreases s.len() - pos, 0nat,
{
    let end = scan(s, pos, is_reserved());
    if pos < 0 || end >= s.len() {
        Err(DecodeError::Truncated { offset: s.len() as usize, needed: 1 })
    } else if s[end] == SEPARATOR {
        match parse_size(s, end + 1) {
            Err(e) => Err(e),
            Ok((size, after)) => named(
                Tree {
                    name: s.subrange(pos, end),
                    own_size: size,
                    is_directory: false,
                    children: Seq::empty(),
                },
                pos,
                after,
            ),
        }
    } else {
        proof {
            lemma_scan(s, pos, is_reserved());
        }
        match parse_entries(s, end + 1) {
            Err(e) => Err(e),
            Ok((children, closed)) => if closed >= s.len() {
                Err(DecodeError::Truncated { offset: s.len() as usize, needed: 1 })
            } else if s[closed] != SEPARATOR {
                Err(
                    DecodeError::Format {
                        offset: closed as usize,
                        expected: SEPARATOR,
                        found: s[closed],
                    },
                )
            } else {
                match parse_size(s, closed + 1) {
                    Err(e) => Err(e),
                    Ok((size, after)) => named(
                        Tree {
                            name: s.subrange(pos, end),
                            own_size: size,
                            is_directory: true,
                            children,
                        },
                        pos,
                        after,
                    ),
                }
            },
        }
    }
}

/// The children that start at `pos`, up to the separator that closes the
/// list, and the position after that separator.
pub open spec fn parse_entries(s: Seq<u8>, pos: int) -> Result<(Seq<Tree>, int), DecodeError>
    decreases s.len() - pos, 1nat,
{
    if pos < 0 || pos >= s.len() {
        Err(DecodeError::Truncated { offset: s.len() as usize, needed: 1 })
    } else if s[pos] == SEPARATOR {
        Ok((Seq::empty(), pos + 1))
    } else {
        match parse_entry(s, pos) {
            Err(e) => Err(e),
            Ok((child, next)) => {
                // An entry is never empty, so `next` lies beyond `pos`; the
                // test is what makes this definition well-founded.
                if pos < next <= s.len() {
                    match parse_entries(s, next) {
                        Err(e) => Err(e),
                        Ok((rest, after)) => Ok((seq![child] + rest, after)),
                    }
                } else {
                    Err(DecodeError::Truncated { offset: s.len() as usize, needed: 1 })
                }
            },
        }
    }
}

/// The base path and the root entry that a stream holds.
///
/// The header is checked byte by byte. The base path runs up to the first
/// separator after it and has to be text; the root entry follows. Bytes
/// after the root entry are not read.
pub open spec fn parse_stream(s: Seq<u8>) -> Result<(Seq<u8>, Tree), DecodeError> {
    match header_error(s) {
        Some(e) => Err(e),
        None => {
            let end = scan(s, 4, is_separator());
            if end >= s.len() {
                Err(DecodeError::Truncated { offset: s.len() as usize, needed: 1 })
            } else if !valid_utf8(s.subrange(4, end)) {
                Err(DecodeError::Encoding { offset: 4 })
            } else {
                match parse_entry(s, end + 1) {
                    Err(e) => Err(e),
                    Ok((t, _)) => Ok((s.subrange(4, end), t)),
                }
            }
        },
    }
}

} // verus!
