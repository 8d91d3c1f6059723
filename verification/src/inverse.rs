//! Decoding is the inverse of encoding.

use vstd::prelude::*;
use vstd::utf8::valid_utf8;
use crate::format::{
    be_bytes, be_value, encode_entries, encode_entry, encode_stream, first_invalid_name_in,
    header, header_error, is_reserved, is_separator, lemma_be_bytes_of_value,
    lemma_be_value_of_bytes, lemma_scan, name_valid, names_text, names_valid, parse_entries,
    parse_entry,
    parse_size, parse_stream, reserved, scan, DecodeError, DIR_MARKER, SEPARATOR, SIZE_WIDTH,
};
use crate::tree::Tree;

verus! {

/// The stream `s` holds the bytes `part` from `pos` on.
pub open spec fn holds_at(s: Seq<u8>, pos: int, part: Seq<u8>) -> bool {
    &&& 0 <= pos
    &&& pos + part.len() <= s.len()
    &&& forall|i: int| 0 <= i < part.len() ==> s[pos + i] == #[trigger] part[i]
}

/// Every file below the root has a name: the encoding of a file without a
/// name starts with the byte that closes a list of children.
pub open spec fn children_named(t: Tree) -> bool
    decreases t,
{
    forall|i: int|
        0 <= i < t.children.len() ==> {
            let c = #[trigger] t.children[i];
            (c.is_directory || c.name.len() > 0) && children_named(c)
        }
}

/// The tree can be read back from its encoding: files are leaves, every
/// name is text without a reserved byte, and every file below the root has a
/// name.
pub open spec fn readable(t: Tree) -> bool {
    t.wf() && names_valid(t) && names_text(t) && children_named(t)
}

/// `readable`, spelled out entry by entry.
spec fn readable_entry(t: Tree) -> bool
    decreases t,
{
    &&& name_valid(t.name)
    &&& valid_utf8(t.name)
    &&& t.is_directory || t.children.len() == 0
    &&& forall|i: int|
        0 <= i < t.children.len() ==> {
            let c = #[trigger] t.children[i];
            (c.is_directory || c.name.len() > 0) && readable_entry(c)
        }
}

proof fn lemma_names_valid_in(s: Seq<Tree>, i: int)
    requires
        first_invalid_name_in(s) is None,
        0 <= i < s.len(),
    ensures
        names_valid(s[i]),
    decreases s.len(),
{
    if i > 0 {
        lemma_names_valid_in(s.drop_first(), i - 1);
    }
}

proof fn lemma_readable_entry(t: Tree)
    requires
        readable(t),
    ensures
        readable_entry(t),
    decreases t,
{
    assert forall|i: int| 0 <= i < t.children.len() implies {
        let c = #[trigger] t.children[i];
        (c.is_directory || c.name.len() > 0) && readable_entry(c)
    } by {
        let c = t.children[i];
        assert(t.is_directory);
        lemma_names_valid_in(t.children, i);
        lemma_readable_entry(c);
    }
}

/// Where the bytes from `pos` up to `end` are none the scan stops for, and
/// the byte at `end` is one, the scan from `pos` stops at `end`.
proof fn lemma_scan_finds(s: Seq<u8>, pos: int, end: int, stop: spec_fn(u8) -> bool)
    requires
        0 <= pos <= end < s.len(),
        forall|i: int| pos <= i < end ==> !stop(#[trigger] s[i]),
        stop(s[end]),
    ensures
        scan(s, pos, stop) == end,
    decreases end - pos,
{
    if pos < end {
        lemma_scan_finds(s, pos + 1, end, stop);
    }
}

proof fn lemma_holds_at_split(s: Seq<u8>, pos: int, a: Seq<u8>, b: Seq<u8>)
    requires
        holds_at(s, pos, a + b),
    ensures
        holds_at(s, pos, a),
        holds_at(s, pos + a.len(), b),
{
    assert forall|i: int| 0 <= i < a.len() implies s[pos + i] == #[trigger] a[i] by {
        assert((a + b)[i] == a[i]);
    }
    assert forall|i: int| 0 <= i < b.len() implies s[pos + a.len() + i] == #[trigger] b[i] by {
        assert((a + b)[a.len() + i] == b[i]);
    }
}

proof fn lemma_parse_size_at(s: Seq<u8>, pos: int, v: u64)
    requires
        holds_at(s, pos, be_bytes(v)),
    ensures
        parse_size(s, pos) == Ok::<_, DecodeError>((v, pos + SIZE_WIDTH)),
{
    lemma_be_value_of_bytes(v);
    assert(s.subrange(pos, pos + SIZE_WIDTH) =~= be_bytes(v)) by {
        assert forall|i: int| 0 <= i < 8 implies s.subrange(pos, pos + SIZE_WIDTH)[i] == be_bytes(
            v,
        )[i] by {
            assert(s[pos + i] == be_bytes(v)[i]);
        }
    }
}

/// An entry takes at least nine bytes: a separator or marker and the size.
pub proof fn lemma_entry_length(t: Tree)
    ensures
        encode_entry(t).len() >= t.name.len() + 1 + SIZE_WIDTH,
{
}

/// Where a stream holds the encoding of a readable entry, that entry is
/// what is read there.
proof fn lemma_parse_entry_at(s: Seq<u8>, pos: int, t: Tree)
    requires
        readable_entry(t),
        holds_at(s, pos, encode_entry(t)),
    ensures
        parse_entry(s, pos) == Ok::<_, DecodeError>((t, pos + encode_entry(t).len())),
    decreases t, 0nat,
{
    let n = t.name.len() as int;
    let mark = if t.is_directory { DIR_MARKER } else { SEPARATOR };
    let head = t.name.push(mark);
    let tail = if t.is_directory {
        encode_entries(t.children).push(SEPARATOR) + (seq![SEPARATOR] + be_bytes(t.own_size))
    } else {
        be_bytes(t.own_size)
    };
    assert(encode_entry(t) =~= head + tail);
    lemma_holds_at_split(s, pos, head, tail);
    assert forall|i: int| pos <= i < pos + n implies !is_reserved()(#[trigger] s[i]) by {
        assert(s[pos + (i - pos)] == head[i - pos]);
        assert(head[i - pos] == t.name[i - pos]);
    }
    assert(s[pos + n] == head[n]);
    lemma_scan_finds(s, pos, pos + n, is_reserved());
    assert(s.subrange(pos, pos + n) =~= t.name) by {
        assert forall|i: int| 0 <= i < n implies s.subrange(pos, pos + n)[i] == t.name[i] by {
            assert(s[pos + i] == head[i]);
        }
    }
    if t.is_directory {
        let list = encode_entries(t.children).push(SEPARATOR);
        let rest = seq![SEPARATOR] + be_bytes(t.own_size);
        let closed = pos + n + 1 + list.len();
        lemma_holds_at_split(s, pos + n + 1, list, rest);
        lemma_holds_at_split(s, closed, seq![SEPARATOR], be_bytes(t.own_size));
        lemma_parse_entries_at(s, pos + n + 1, t.children);
        assert(parse_entries(s, pos + n + 1) == Ok::<_, DecodeError>((t.children, closed)));
        assert(s[closed + 0] == seq![SEPARATOR][0]);
        lemma_parse_size_at(s, closed + 1, t.own_size);
        assert(encode_entry(t).len() == n + 1 + list.len() + 1 + SIZE_WIDTH);
    } else {
        lemma_parse_size_at(s, pos + n + 1, t.own_size);
        assert(t.children =~= Seq::<Tree>::empty());
    }
}

/// Where a stream holds the encodings of readable children and the
/// separator that closes the list, those children are what is read there.
proof fn lemma_parse_entries_at(s: Seq<u8>, pos: int, cs: Seq<Tree>)
    requires
        forall|i: int|
            0 <= i < cs.len() ==> {
                let c = #[trigger] cs[i];
                (c.is_directory || c.name.len() > 0) && readable_entry(c)
            },
        holds_at(s, pos, encode_entries(cs).push(SEPARATOR)),
    ensures
        parse_entries(s, pos) == Ok::<_, DecodeError>((cs, pos + encode_entries(cs).len() + 1)),
    decreases cs, 1nat,
{
    if cs.len() == 0 {
        assert(encode_entries(cs).push(SEPARATOR)[0] == SEPARATOR);
        assert(s[pos + 0] == SEPARATOR);
        assert(cs =~= Seq::<Tree>::empty());
    } else {
        let c = cs.first();
        let rest = cs.drop_first();
        let one = encode_entry(c);
        let others = encode_entries(rest).push(SEPARATOR);
        assert(encode_entries(cs).push(SEPARATOR) =~= one + others);
        lemma_holds_at_split(s, pos, one, others);
        assert(one.len() > 0 && !(one[0] == SEPARATOR)) by {
            if c.name.len() > 0 {
                assert(one[0] == c.name[0]);
                assert(!reserved(c.name[0]));
            } else {
                assert(one[0] == DIR_MARKER);
            }
        }
        assert(s[pos + 0] == one[0]);
        lemma_parse_entry_at(s, pos, c);
        assert forall|i: int| 0 <= i < rest.len() implies {
            let d = #[trigger] rest[i];
            (d.is_directory || d.name.len() > 0) && readable_entry(d)
        } by {
            assert(rest[i] == cs[i + 1]);
        }
        lemma_parse_entries_at(s, pos + one.len(), rest);
        assert(seq![c] + rest =~= cs);
        assert(one.len() >= 9) by {
            lemma_entry_length(c);
        }
        assert(parse_entry(s, pos) == Ok::<_, DecodeError>((c, pos + one.len())));
        assert(parse_entries(s, pos + one.len()) == Ok::<_, DecodeError>(
            (rest, pos + one.len() + encode_entries(rest).len() + 1),
        ));
        assert(encode_entries(cs).len() == one.len() + encode_entries(rest).len());
    }
}

/// Reading a stream that was written gives back what was written, whatever
/// bytes follow the stream: the same base path and a tree with the same
/// names, sizes, directory flags and order of children.
///
/// The tree has to be readable and the base path text without a separator.
pub proof fn lemma_read_back(base: Seq<u8>, t: Tree, extra: Seq<u8>)
    requires
        readable(t),
        !base.contains(SEPARATOR),
        valid_utf8(base),
    ensures
        parse_stream(encode_stream(base, t) + extra) == Ok::<_, DecodeError>((base, t)),
{
    let s = encode_stream(base, t) + extra;
    let end = 4 + base.len() as int;
    assert(header_error(s) is None);
    assert forall|i: int| 4 <= i < end implies !is_separator()(#[trigger] s[i]) by {
        assert(s[i] == base[i - 4]);
        assert(base.contains(base[i - 4]));
    }
    assert(s[end] == SEPARATOR);
    lemma_scan_finds(s, 4, end, is_separator());
    assert(s.subrange(4, end) =~= base);
    lemma_readable_entry(t);
    assert(holds_at(s, end + 1, encode_entry(t))) by {
        assert forall|i: int| 0 <= i < encode_entry(t).len() implies s[end + 1 + i]
            == #[trigger] encode_entry(t)[i] by {}
    }
    lemma_parse_entry_at(s, end + 1, t);
}

/// Decoding undoes encoding: the stream written for a base path and a tree
/// reads back as that base path and that tree.
pub proof fn lemma_decode_encode(base: Seq<u8>, t: Tree)
    requires
        readable(t),
        !base.contains(SEPARATOR),
        valid_utf8(base),
    ensures
        parse_stream(encode_stream(base, t)) == Ok::<_, DecodeError>((base, t)),
{
    lemma_read_back(base, t, Seq::empty());
    assert(encode_stream(base, t) + Seq::<u8>::empty() =~= encode_stream(base, t));
}

proof fn lemma_no_invalid_name_in(s: Seq<Tree>)
    requires
        forall|i: int| 0 <= i < s.len() ==> names_valid(#[trigger] s[i]),
    ensures
        first_invalid_name_in(s) is None,
    decreases s.len(),
{
    if s.len() > 0 {
        assert(names_valid(s[0]));
        assert forall|i: int| 0 <= i < s.drop_first().len() implies names_valid(
            #[trigger] s.drop_first()[i],
        ) by {
            assert(s.drop_first()[i] == s[i + 1]);
        }
        lemma_no_invalid_name_in(s.drop_first());
    }
}

proof fn lemma_readable_from_entry(t: Tree)
    requires
        readable_entry(t),
    ensures
        readable(t),
    decreases t,
{
    assert forall|i: int| 0 <= i < t.children.len() implies readable(#[trigger] t.children[i]) by {
        lemma_readable_from_entry(t.children[i]);
    }
    lemma_no_invalid_name_in(t.children);
}

proof fn lemma_holds_at_join(s: Seq<u8>, pos: int, a: Seq<u8>, b: Seq<u8>)
    requires
        holds_at(s, pos, a),
        holds_at(s, pos + a.len(), b),
    ensures
        holds_at(s, pos, a + b),
{
    assert forall|i: int| 0 <= i < (a + b).len() implies s[pos + i] == #[trigger] (a + b)[i] by {
        if i < a.len() {
            assert(s[pos + i] == a[i]);
        } else {
            assert(s[pos + a.len() + (i - a.len())] == b[i - a.len()]);
        }
    }
}

proof fn lemma_parse_size_sound(s: Seq<u8>, pos: int)
    requires
        0 <= pos,
    ensures
        parse_size(s, pos) matches Ok((size, after)) ==> holds_at(s, pos, be_bytes(size)) && after
            == pos + SIZE_WIDTH,
{
    if pos + SIZE_WIDTH <= s.len() {
        let field = s.subrange(pos, pos + SIZE_WIDTH);
        lemma_be_bytes_of_value(field);
        let size = be_value(field) as u64;
        assert forall|i: int| 0 <= i < 8 implies s[pos + i] == #[trigger] be_bytes(size)[i] by {
            assert(field[i] == s[pos + i]);
        }
    }
}

/// What is read as an entry is a readable entry whose encoding the stream
/// holds there, and reading ends where that encoding ends.
proof fn lemma_parse_entry_sound(s: Seq<u8>, pos: int)
    requires
        0 <= pos <= s.len(),
    ensures
        parse_entry(s, pos) matches Ok((t, next)) ==> readable_entry(t) && holds_at(
            s,
            pos,
            encode_entry(t),
        ) && next == pos + encode_entry(t).len(),
    decreases s.len() - pos, 0nat,
{
    let end = scan(s, pos, is_reserved());
    lemma_scan(s, pos, is_reserved());
    if end < s.len() {
        let name = s.subrange(pos, end);
        assert(name_valid(name)) by {
            assert forall|i: int| 0 <= i < name.len() implies !reserved(#[trigger] name[i]) by {
                assert(!is_reserved()(s[pos + i]));
            }
        }
        assert(is_reserved()(s[end]));
        let mark = s[end];
        assert(holds_at(s, pos, name.push(mark)));
        if mark == SEPARATOR {
            lemma_parse_size_sound(s, end + 1);
            if let Ok((size, after)) = parse_size(s, end + 1) {
                lemma_holds_at_join(s, pos, name.push(mark), be_bytes(size));
            }
        } else {
            lemma_parse_entries_sound(s, end + 1);
            if let Ok((children, closed)) = parse_entries(s, end + 1) {
                if closed < s.len() && s[closed] == SEPARATOR {
                    lemma_parse_size_sound(s, closed + 1);
                    if let Ok((size, after)) = parse_size(s, closed + 1) {
                        let list = encode_entries(children).push(SEPARATOR);
                        let last = seq![SEPARATOR];
                        assert(holds_at(s, closed, last)) by {
                            assert(s[closed + 0] == last[0]);
                        }
                        lemma_holds_at_join(s, closed, last, be_bytes(size));
                        lemma_holds_at_join(s, end + 1, list, last + be_bytes(size));
                        lemma_holds_at_join(
                            s,
                            pos,
                            name.push(mark),
                            list + (last + be_bytes(size)),
                        );
                        assert(name.push(mark) + (list + (last + be_bytes(size))) =~= name.push(
                            mark,
                        ) + list + last + be_bytes(size));
                    }
                }
            }
        }
    }
}

/// What is read as a list of children are readable entries, none of them a
/// file without a name, whose encodings the stream holds there, closed by a
/// separator.
proof fn lemma_parse_entries_sound(s: Seq<u8>, pos: int)
    requires
        0 <= pos <= s.len(),
    ensures
        parse_entries(s, pos) matches Ok((cs, after)) ==> holds_at(
            s,
            pos,
            encode_entries(cs).push(SEPARATOR),
        ) && after == pos + encode_entries(cs).len() + 1 && forall|i: int|
            0 <= i < cs.len() ==> {
                let c = #[trigger] cs[i];
                (c.is_directory || c.name.len() > 0) && readable_entry(c)
            },
    decreases s.len() - pos, 1nat,
{
    if pos < s.len() {
        if s[pos] == SEPARATOR {
            assert(encode_entries(Seq::<Tree>::empty()).push(SEPARATOR) =~= seq![SEPARATOR]);
        } else {
            lemma_parse_entry_sound(s, pos);
            if let Ok((child, next)) = parse_entry(s, pos) {
                lemma_entry_length(child);
                lemma_parse_entries_sound(s, next);
                if let Ok((rest, after)) = parse_entries(s, next) {
                    let cs = seq![child] + rest;
                    assert(cs.first() == child);
                    assert(cs.drop_first() =~= rest);
                    let one = encode_entry(child);
                    let others = encode_entries(rest).push(SEPARATOR);
                    lemma_holds_at_join(s, pos, one, others);
                    assert(encode_entries(cs).push(SEPARATOR) =~= one + others);
                    assert(child.is_directory || child.name.len() > 0) by {
                        if !child.is_directory && child.name.len() == 0 {
                            assert(one[0] == SEPARATOR);
                            assert(s[pos + 0] == one[0]);
                        }
                    }
                    assert forall|i: int| 0 <= i < cs.len() implies {
                        let c = #[trigger] cs[i];
                        (c.is_directory || c.name.len() > 0) && readable_entry(c)
                    } by {
                        if i > 0 {
                            assert(cs[i] == rest[i - 1]);
                        }
                    }
                }
            }
        }
    }
}

/// One of the first four bytes of the stream is not the byte of the header
/// that belongs there.
pub open spec fn header_mismatch(s: Seq<u8>) -> bool {
    exists|i: int| 0 <= i < 4 && i < s.len() && s[i] != #[trigger] header()[i]
}

/// What decodes is an encoding: where a stream reads as a base path and a
/// tree, the tree is readable, the base path is text without a separator,
/// and the stream starts with the encoding of the two.
pub proof fn lemma_decoded_is_encoded(s: Seq<u8>)
    ensures
        parse_stream(s) matches Ok((base, t)) ==> readable(t) && !base.contains(SEPARATOR)
            && valid_utf8(base) && encode_stream(base, t).is_prefix_of(s),
{
    if header_error(s) is None {
        let end = scan(s, 4, is_separator());
        lemma_scan(s, 4, is_separator());
        if end < s.len() && valid_utf8(s.subrange(4, end)) {
            lemma_parse_entry_sound(s, end + 1);
            if let Ok((t, next)) = parse_entry(s, end + 1) {
                let base = s.subrange(4, end);
                lemma_readable_from_entry(t);
                if base.contains(SEPARATOR) {
                    let i = choose|i: int| 0 <= i < base.len() && base[i] == SEPARATOR;
                    assert(is_separator()(s[4 + i]));
                }
                let enc = encode_stream(base, t);
                assert(is_separator()(s[end]));
                assert(enc =~= s.subrange(0, enc.len() as int)) by {
                    assert forall|i: int| 0 <= i < enc.len() implies enc[i] == s[i] by {
                        if i >= 4 + base.len() + 1 {
                            assert(s[end + 1 + (i - end - 1)] == encode_entry(t)[i - end - 1]);
                        }
                    }
                }
            }
        }
    }
}

/// A stream with a wrong byte among its first four is rejected as not of
/// this format: the error names the first wrong byte, and what comes after
/// that byte plays no part.
pub proof fn lemma_wrong_header_rejected(s: Seq<u8>)
    requires
        header_mismatch(s),
    ensures
        parse_stream(s) matches Err(DecodeError::Format { offset, expected, found }) && offset < 4
            && offset < s.len() && found == s[offset as int] && expected == header()[offset as int]
            && found != expected && forall|j: int| 0 <= j < offset ==> s[j] == header()[j],
{
}

/// What is read at a position stays what it is when bytes are added to the
/// end of the stream, unless the stream was found to end too early.
proof fn lemma_parse_entry_longer(s: Seq<u8>, w: Seq<u8>, pos: int)
    requires
        s.is_prefix_of(w),
        0 <= pos <= s.len(),
        !(parse_entry(s, pos) matches Err(DecodeError::Truncated { .. })),
    ensures
        parse_entry(w, pos) == parse_entry(s, pos),
    decreases s.len() - pos, 0nat,
{
    let end = scan(s, pos, is_reserved());
    lemma_scan(s, pos, is_reserved());
    assert forall|i: int| 0 <= i < s.len() implies s[i] == w[i] by {
        assert(s[i] == w.subrange(0, s.len() as int)[i]);
    }
    assert forall|i: int| pos <= i < end implies !is_reserved()(#[trigger] w[i]) by {
        assert(!is_reserved()(s[i]));
    }
    lemma_scan_finds(w, pos, end, is_reserved());
    assert(w.subrange(pos, end) =~= s.subrange(pos, end));
    if s[end] == SEPARATOR {
        lemma_parse_size_longer(s, w, end + 1);
    } else {
        lemma_parse_entries_longer(s, w, end + 1);
        if let Ok((children, closed)) = parse_entries(s, end + 1) {
            lemma_parse_entries_sound(s, end + 1);
            assert(closed < s.len());
            assert(s[closed] == w[closed]);
            if s[closed] == SEPARATOR {
                lemma_parse_size_longer(s, w, closed + 1);
            }
        }
    }
}

proof fn lemma_parse_size_longer(s: Seq<u8>, w: Seq<u8>, pos: int)
    requires
        s.is_prefix_of(w),
        0 <= pos,
        parse_size(s, pos) is Ok,
    ensures
        parse_size(w, pos) == parse_size(s, pos),
{
    let field = s.subrange(pos, pos + SIZE_WIDTH);
    let same = w.subrange(pos, pos + SIZE_WIDTH);
    assert(same =~= field) by {
        assert forall|i: int| 0 <= i < 8 implies #[trigger] same[i] == field[i] by {
            assert(s[pos + i] == w.subrange(0, s.len() as int)[pos + i]);
        }
    }
}

/// What is read as a list of children stays what it is when bytes are added
/// to the end of the stream, unless the stream was found to end too early.
proof fn lemma_parse_entries_longer(s: Seq<u8>, w: Seq<u8>, pos: int)
    requires
        s.is_prefix_of(w),
        0 <= pos <= s.len(),
        !(parse_entries(s, pos) matches Err(DecodeError::Truncated { .. })),
    ensures
        parse_entries(w, pos) == parse_entries(s, pos),
    decreases s.len() - pos, 1nat,
{
    assert(pos < s.len());
    assert(s[pos] == w.subrange(0, s.len() as int)[pos]);
    if s[pos] != SEPARATOR {
        lemma_parse_entry_longer(s, w, pos);
        if let Ok((child, next)) = parse_entry(s, pos) {
            lemma_parse_entry_sound(s, pos);
            lemma_entry_length(child);
            lemma_parse_entries_longer(s, w, next);
        }
    }
}

/// What a stream reads as stays what it is when bytes are added to its end,
/// unless the stream was found to end too early.
proof fn lemma_parse_stream_longer(s: Seq<u8>, w: Seq<u8>)
    requires
        s.is_prefix_of(w),
        !(parse_stream(s) matches Err(DecodeError::Truncated { .. })),
    ensures
        parse_stream(w) == parse_stream(s),
{
    assert forall|i: int| 0 <= i < s.len() implies #[trigger] s[i] == w[i] by {
        assert(s[i] == w.subrange(0, s.len() as int)[i]);
    }
    if header_error(s) is None {
        assert(s.len() >= 4);
        assert(s[0] == w[0] && s[1] == w[1] && s[2] == w[2] && s[3] == w[3]);
        assert(header_error(w) is None);
        let end = scan(s, 4, is_separator());
        lemma_scan(s, 4, is_separator());
        assert forall|i: int| 4 <= i < end implies !is_separator()(#[trigger] w[i]) by {
            assert(!is_separator()(s[i]));
        }
        assert(is_separator()(s[end]));
        assert(s[end] == w[end]);
        lemma_scan_finds(w, 4, end, is_separator());
        assert(w.subrange(4, end) =~= s.subrange(4, end));
        if valid_utf8(s.subrange(4, end)) {
            lemma_parse_entry_longer(s, w, end + 1);
        }
    } else {
        let e = header_error(s)->0;
        assert(e is Format);
        let i = e->Format_offset as int;
        assert(s[i] == w[i]);
        assert(forall|j: int| 0 <= j < i ==> s[j] == w[j]);
    }
}

/// A stream that is cut short is reported as truncated: no proper prefix of
/// the stream written for a base path and a readable tree can be decoded,
/// and none is taken for anything but cut short.
pub proof fn lemma_truncated_rejected(base: Seq<u8>, t: Tree, k: int)
    requires
        readable(t),
        !base.contains(SEPARATOR),
        valid_utf8(base),
        0 <= k < encode_stream(base, t).len(),
    ensures
        parse_stream(encode_stream(base, t).take(k)) matches Err(e) && e is Truncated,
{
    let whole = encode_stream(base, t);
    let s = whole.take(k);
    assert(s.is_prefix_of(whole)) by {
        assert(s =~= whole.subrange(0, s.len() as int));
    }
    if !(parse_stream(s) matches Err(DecodeError::Truncated { .. })) {
        lemma_parse_stream_longer(s, whole);
        lemma_decode_encode(base, t);
        lemma_decoded_is_encoded(s);
        assert(parse_stream(s) == Ok::<_, DecodeError>((base, t)));
        assert(encode_stream(base, t).is_prefix_of(s));
        assert(false);
    }
}

} // verus!
