use vstd::prelude::*;
use vstd::utf8::{encode_utf8, is_ascii_chars};
use crate::buffer::{placed, BUFFER_SIZE};
use crate::emission::Emission;
use crate::error::CodecError;
use crate::name::{
    separator, is_pointer, label_end, label_text, labels_encoding, lemma_label_end_bounds,
    name_encoding, name_walk, pointer_target, NameWalk, DOT, MAX_JUMPS, MAX_LABEL_LEN,
};
use crate::text::{
    ascii_lower, ascii_text, is_ascii_bytes, lemma_lossy_text_of_ascii, lowercase_text,
};

verus! {

/// Every label of `name` from index `from` on holds at least one byte and at
/// most `MAX_LABEL_LEN`.
pub open spec fn plain_labels(name: Seq<u8>, from: int) -> bool
    decreases name.len() - from,
    via plain_labels_decreases
{
    let end = label_end(name, from);
    &&& 0 <= from
    &&& 1 <= end - from <= MAX_LABEL_LEN
    &&& end >= name.len() || plain_labels(name, end + 1)
}

#[via_fn]
proof fn plain_labels_decreases(name: Seq<u8>, from: int) {
    if 0 <= from <= name.len() {
        lemma_label_end_bounds(name, from);
    }
}

/// A name that is empty, or whose labels all hold at least one byte and at
/// most `MAX_LABEL_LEN`: it does not start or end with a dot and holds no two
/// dots in a row.
pub open spec fn plain_name(name: Seq<u8>) -> bool {
    name.len() == 0 || plain_labels(name, 0)
}

/// The lowercase text of ASCII bytes.
pub open spec fn lower_ascii(bytes: Seq<u8>) -> Seq<char> {
    Seq::new(bytes.len(), |i: int| ascii_lower(bytes[i] as char))
}

/// The text of a label of ASCII bytes is its bytes in lowercase.
pub proof fn lemma_label_text_of_ascii(bytes: Seq<u8>)
    requires
        is_ascii_bytes(bytes),
    ensures
        label_text(bytes) == lower_ascii(bytes),
{
    lemma_lossy_text_of_ascii(bytes);
    assert(lowercase_text(ascii_text(bytes)) =~= lower_ascii(bytes));
}

/// The labels of a plain name are written in full: each byte of the name
/// and two bytes more.
pub proof fn lemma_plain_labels_encoding(name: Seq<u8>, from: int)
    requires
        from <= name.len(),
        plain_labels(name, from),
    ensures
        labels_encoding(name, from).complete,
        labels_encoding(name, from).bytes.len() == name.len() - from + 2,
    decreases name.len() - from,
{
    lemma_label_end_bounds(name, from);
    let end = label_end(name, from);
    if end < name.len() {
        lemma_plain_labels_encoding(name, end + 1);
    }
}

/// A plain name is written in full.
pub proof fn lemma_plain_name_encoding(name: Seq<u8>)
    requires
        plain_name(name),
    ensures
        name_encoding(name).complete,
        name_encoding(name).bytes.len() == if name.len() == 0 {
            1
        } else {
            name.len() + 2
        },
{
    if name.len() > 0 {
        lemma_plain_labels_encoding(name, 0);
    }
}

/// Decoding the wire form of the labels of a plain ASCII name, wherever it
/// stands in a buffer, gives the labels in lowercase with dots between them
/// and ends behind the wire form.
pub proof fn lemma_walk_labels_encoding(
    name: Seq<u8>,
    from: int,
    bytes: Seq<u8>,
    at: int,
    jumps: int,
    first: bool,
)
    requires
        from <= name.len(),
        plain_labels(name, from),
        is_ascii_bytes(name),
        jumps <= MAX_JUMPS,
        bytes.len() == BUFFER_SIZE,
        0 <= at,
        at + labels_encoding(name, from).bytes.len() <= BUFFER_SIZE,
        bytes.subrange(at, at + labels_encoding(name, from).bytes.len()) == labels_encoding(
            name,
            from,
        ).bytes,
    ensures
        name_walk(bytes, at, jumps, first) == (NameWalk {
            text: separator(first) + lower_ascii(name.subrange(from, name.len() as int)),
            cursor: Some(at + labels_encoding(name, from).bytes.len()),
            error: None,
        }),
    decreases name.len() - from,
{
    lemma_label_end_bounds(name, from);
    lemma_plain_labels_encoding(name, from);
    let enc = labels_encoding(name, from).bytes;
    let end = label_end(name, from);
    let len = end - from;
    let label = name.subrange(from, end);
    let next = at + 1 + len;
    let region = bytes.subrange(at, at + enc.len());
    assert(enc[0] == len as u8);
    assert(bytes[at] == region[0]);
    assert(bytes[at] == len);
    assert(bytes.subrange(at + 1, next) =~= label) by {
        assert forall|i: int| 0 <= i < len implies bytes[at + 1 + i] == label[i] by {
            assert(bytes[at + 1 + i] == region[1 + i]);
            assert(enc[1 + i] == label[i]);
        }
    }
    assert(is_ascii_bytes(label));
    lemma_label_text_of_ascii(label);
    let walk = name_walk(bytes, at, jumps, first);
    let whole = lower_ascii(name.subrange(from, name.len() as int));
    if end >= name.len() {
        assert(enc[1 + len] == 0u8);
        assert(bytes[next] == region[1 + len]);
        assert(name_walk(bytes, next, jumps, false).text == Seq::<char>::empty());
        assert(label =~= name.subrange(from, name.len() as int));
        assert(walk.text =~= separator(first) + whole);
    } else {
        let rest_enc = labels_encoding(name, end + 1).bytes;
        lemma_plain_labels_encoding(name, end + 1);
        assert(enc =~= (seq![len as u8] + label) + rest_enc);
        assert(bytes.subrange(next, next + rest_enc.len()) =~= rest_enc) by {
            assert forall|i: int| 0 <= i < rest_enc.len() implies bytes[next + i] == rest_enc[i] by {
                assert(bytes[next + i] == region[1 + len + i]);
                assert(enc[1 + len + i] == rest_enc[i]);
            }
        }
        lemma_walk_labels_encoding(name, end + 1, bytes, next, jumps, false);
        let rest = name_walk(bytes, next, jumps, false);
        let tail = lower_ascii(name.subrange(end + 1, name.len() as int));
        assert(rest.text == separator(false) + tail);
        assert(name[end] == DOT);
        assert(ascii_lower(DOT as char) == '.');
        assert(walk.text == separator(first) + lower_ascii(label) + rest.text);
        assert(lower_ascii(label) + (separator(false) + tail) =~= whole);
        assert(walk.text =~= separator(first) + whole);
    }
}

/// The bytes of ASCII text are ASCII, and their lowercase text is the
/// lowercase form of the text.
pub proof fn lemma_ascii_name_bytes(name: Seq<char>)
    requires
        is_ascii_chars(name),
    ensures
        is_ascii_bytes(encode_utf8(name)),
        encode_utf8(name).len() == name.len(),
        lower_ascii(encode_utf8(name)) == lowercase_text(name),
{
    vstd::utf8::is_ascii_chars_encode_utf8(name);
    let bytes = encode_utf8(name);
    assert forall|i: int| 0 <= i < bytes.len() implies bytes[i] < 0x80 by {
        assert(bytes[i] == name[i] as u8);
    }
    assert(lower_ascii(bytes) =~= lowercase_text(name)) by {
        assert forall|i: int| 0 <= i < name.len() implies ascii_lower(bytes[i] as char)
            == ascii_lower(name[i]) by {
            assert(bytes[i] == name[i] as u8);
        }
    }
}

/// Decoding the wire form of a plain ASCII name, wherever it stands in a
/// buffer, gives the name in lowercase and ends behind the wire form.
pub proof fn lemma_walk_name_encoding(name: Seq<char>, bytes: Seq<u8>, at: int, jumps: int)
    requires
        jumps <= MAX_JUMPS,
        is_ascii_chars(name),
        plain_name(encode_utf8(name)),
        bytes.len() == BUFFER_SIZE,
        0 <= at,
        at + name_encoding(encode_utf8(name)).bytes.len() <= BUFFER_SIZE,
        bytes.subrange(at, at + name_encoding(encode_utf8(name)).bytes.len()) == name_encoding(
            encode_utf8(name),
        ).bytes,
    ensures
        name_encoding(encode_utf8(name)).complete,
        name_walk(bytes, at, jumps, true) == (NameWalk {
            text: lowercase_text(name),
            cursor: Some(at + name_encoding(encode_utf8(name)).bytes.len()),
            error: None,
        }),
{
    let raw = encode_utf8(name);
    lemma_ascii_name_bytes(name);
    lemma_plain_name_encoding(raw);
    if raw.len() == 0 {
        assert(bytes[at] == bytes.subrange(at, at + 1)[0]);
        assert(lowercase_text(name) =~= Seq::<char>::empty());
    } else {
        lemma_walk_labels_encoding(raw, 0, bytes, at, jumps, true);
        assert(raw.subrange(0, raw.len() as int) =~= raw);
        assert(separator(true) + lower_ascii(raw) =~= lower_ascii(raw));
    }
}

/// A name that has been written is read back in lowercase: for every ASCII
/// name without empty labels and without a label longer than `MAX_LABEL_LEN`,
/// written to a place in the buffer where it fits, decoding from that place
/// gives the lowercase form of the name and leaves the cursor behind it.
pub proof fn lemma_name_read_written(name: Seq<char>, bytes: Seq<u8>, at: int)
    requires
        is_ascii_chars(name),
        plain_name(encode_utf8(name)),
        bytes.len() == BUFFER_SIZE,
        0 <= at,
        at + name_encoding(encode_utf8(name)).bytes.len() <= BUFFER_SIZE,
    ensures
        name_encoding(encode_utf8(name)).complete,
        name_walk(placed(bytes, at, name_encoding(encode_utf8(name)).bytes), at, 0, true) == (
        NameWalk {
            text: lowercase_text(name),
            cursor: Some(at + name_encoding(encode_utf8(name)).bytes.len()),
            error: None,
        }),
{
    let enc = name_encoding(encode_utf8(name)).bytes;
    let out = placed(bytes, at, enc);
    assert(out.subrange(at, at + enc.len()) =~= enc);
    lemma_walk_name_encoding(name, out, at, 0);
}

/// The empty name is written as a single zero byte, and that byte is read
/// back as the empty name.
pub proof fn lemma_empty_name(bytes: Seq<u8>, at: int)
    requires
        bytes.len() == BUFFER_SIZE,
        0 <= at < BUFFER_SIZE,
    ensures
        name_encoding(Seq::empty()) == (Emission {
            bytes: seq![0u8],
            complete: true,
        }),
        name_walk(placed(bytes, at, seq![0u8]), at, 0, true) == (NameWalk {
            text: Seq::empty(),
            cursor: Some(at + 1),
            error: None,
        }),
{
}

/// A name of a single label is written in full if the label holds at most
/// `MAX_LABEL_LEN` bytes, and not at all if it holds more.
pub proof fn lemma_label_limit(label: Seq<u8>)
    requires
        label.len() > 0,
        forall|i: int| 0 <= i < label.len() ==> label[i] != DOT,
    ensures
        name_encoding(label).complete <==> label.len() <= MAX_LABEL_LEN,
        label.len() > MAX_LABEL_LEN ==> name_encoding(label).bytes.len() == 0,
        label.len() <= MAX_LABEL_LEN ==> name_encoding(label).bytes == seq![label.len() as u8]
            + label + seq![0u8],
{
    lemma_label_end_is_len(label, 0);
    assert(label.subrange(0, label.len() as int) =~= label);
}

/// Where no dot stands from `from` on, the label that starts there runs to
/// the end of the name.
pub proof fn lemma_label_end_is_len(name: Seq<u8>, from: int)
    requires
        0 <= from <= name.len(),
        forall|i: int| from <= i < name.len() ==> name[i] != DOT,
    ensures
        label_end(name, from) == name.len(),
    decreases name.len() - from,
{
    if from < name.len() {
        lemma_label_end_is_len(name, from + 1);
    }
}

/// Reading a name where the cursor stands at or past the end of the buffer
/// fails and changes nothing.
pub proof fn lemma_walk_at_end(bytes: Seq<u8>, at: int)
    requires
        at >= BUFFER_SIZE,
    ensures
        name_walk(bytes, at, 0, true) == (NameWalk {
            text: Seq::empty(),
            cursor: None,
            error: Some(CodecError::BufferBounds),
        }),
{
}

/// A pointer whose target is a pointer again counts as two jumps: decoding
/// goes on at the second target with two jumps more on the count.
pub proof fn lemma_pointer_to_pointer(bytes: Seq<u8>, at: int, jumps: int, first: bool)
    requires
        0 <= at,
        at + 1 < BUFFER_SIZE,
        jumps + 1 <= MAX_JUMPS,
        is_pointer(bytes[at]),
        ({
            let target = pointer_target(bytes[at], bytes[at + 1]);
            target + 1 < BUFFER_SIZE && is_pointer(bytes[target])
        }),
    ensures
        ({
            let target = pointer_target(bytes[at], bytes[at + 1]);
            let second = pointer_target(bytes[target], bytes[target + 1]);
            let walk = name_walk(bytes, at, jumps, first);
            let rest = name_walk(bytes, second, jumps + 2, first);
            walk.text == rest.text && walk.error == rest.error && walk.cursor == Some(at + 2)
        }),
{
    let target = pointer_target(bytes[at], bytes[at + 1]);
    assert(name_walk(bytes, at, jumps, first).text == name_walk(
        bytes,
        target,
        jumps + 1,
        first,
    ).text);
}

/// `n` pointers in a row, each with both of its bytes inside the buffer, the
/// first at `at` and each next one at the target of the one before.
pub open spec fn pointer_chain(bytes: Seq<u8>, at: int, n: nat) -> bool
    decreases n,
{
    n == 0 || (0 <= at && at + 1 < BUFFER_SIZE && is_pointer(bytes[at]) && pointer_chain(
        bytes,
        pointer_target(bytes[at], bytes[at + 1]),
        (n - 1) as nat,
    ))
}

/// Where a chain of `n` pointers ends.
pub open spec fn chain_end(bytes: Seq<u8>, at: int, n: nat) -> int
    decreases n,
{
    if n == 0 {
        at
    } else {
        chain_end(bytes, pointer_target(bytes[at], bytes[at + 1]), (n - 1) as nat)
    }
}

/// A chain of pointers that stays within the limit is followed to its end.
pub proof fn lemma_chain_followed(bytes: Seq<u8>, at: int, jumps: int, first: bool, n: nat)
    requires
        n >= 1,
        0 <= jumps,
        jumps + n <= MAX_JUMPS + 1,
        pointer_chain(bytes, at, n),
    ensures
        ({
            let walk = name_walk(bytes, at, jumps, first);
            let rest = name_walk(bytes, chain_end(bytes, at, n), jumps + n, first);
            walk.text == rest.text && walk.error == rest.error && walk.cursor == Some(at + 2)
        }),
    decreases n,
{
    let target = pointer_target(bytes[at], bytes[at + 1]);
    let next = name_walk(bytes, target, jumps + 1, first);
    let walk = name_walk(bytes, at, jumps, first);
    assert(is_pointer(bytes[at]) && 0 <= at && at + 1 < BUFFER_SIZE);
    assert(pointer_chain(bytes, target, (n - 1) as nat));
    assert(chain_end(bytes, at, n) == chain_end(bytes, target, (n - 1) as nat));
    assert(walk.text == next.text && walk.error == next.error && walk.cursor == Some(at + 2));
    if n > 1 {
        lemma_chain_followed(bytes, target, jumps + 1, first, (n - 1) as nat);
    } else {
        assert(chain_end(bytes, target, 0) == target);
    }
}

/// Following more pointers than the limit allows fails: a chain of
/// `MAX_JUMPS + 1` pointers ends in `JumpLimitExceeded`, whatever stands
/// behind it, with the cursor behind the first pointer.
pub proof fn lemma_jump_limit(bytes: Seq<u8>, at: int)
    requires
        pointer_chain(bytes, at, (MAX_JUMPS + 1) as nat),
    ensures
        name_walk(bytes, at, 0, true) == (NameWalk {
            text: Seq::empty(),
            cursor: Some(at + 2),
            error: Some(CodecError::JumpLimitExceeded),
        }),
{
    lemma_chain_followed(bytes, at, 0, true, (MAX_JUMPS + 1) as nat);
    let walk = name_walk(bytes, at, 0, true);
    assert(walk.text =~= Seq::<char>::empty());
}

/// Following as many pointers as the limit allows succeeds: a chain of at
/// most `MAX_JUMPS` pointers that ends at the wire form of a plain ASCII name
/// is decoded as that name in lowercase, with the cursor behind the first
/// pointer.
pub proof fn lemma_jumps_within_limit(name: Seq<char>, bytes: Seq<u8>, at: int, n: nat)
    requires
        1 <= n <= MAX_JUMPS,
        pointer_chain(bytes, at, n),
        is_ascii_chars(name),
        plain_name(encode_utf8(name)),
        bytes.len() == BUFFER_SIZE,
        ({
            let end = chain_end(bytes, at, n);
            let enc = name_encoding(encode_utf8(name)).bytes;
            0 <= end && end + enc.len() <= BUFFER_SIZE && bytes.subrange(end, end + enc.len())
                == enc
        }),
    ensures
        name_walk(bytes, at, 0, true) == (NameWalk {
            text: lowercase_text(name),
            cursor: Some(at + 2),
            error: None,
        }),
{
    lemma_chain_followed(bytes, at, 0, true, n);
    lemma_walk_name_encoding(name, bytes, chain_end(bytes, at, n), n as int);
}

/// Every label met while decoding the name at `at` holds ASCII bytes only.
pub open spec fn walk_labels_ascii(bytes: Seq<u8>, at: int, jumps: int) -> bool
    decreases MAX_JUMPS + 1 - jumps, BUFFER_SIZE - at,
{
    if jumps > MAX_JUMPS || at < 0 || at >= BUFFER_SIZE {
        true
    } else if is_pointer(bytes[at]) {
        at + 1 >= BUFFER_SIZE || walk_labels_ascii(
            bytes,
            pointer_target(bytes[at], bytes[at + 1]),
            jumps + 1,
        )
    } else if bytes[at] == 0 {
        true
    } else {
        let next = at + 1 + bytes[at];
        next > BUFFER_SIZE || (is_ascii_bytes(bytes.subrange(at + 1, next)) && walk_labels_ascii(
            bytes,
            next,
            jumps,
        ))
    }
}

/// ASCII text that lowercasing leaves as it is.
pub open spec fn is_lower_ascii(text: Seq<char>) -> bool {
    forall|i: int|
        0 <= i < text.len() ==> (#[trigger] text[i]) as u32 <= 0x7f && ascii_lower(text[i])
            == text[i]
}

/// Lowercasing leaves lowercase ASCII text as it is.
pub proof fn lemma_lower_ascii_fixed(text: Seq<char>)
    requires
        is_lower_ascii(text),
    ensures
        is_ascii_chars(text),
        lowercase_text(text) == text,
{
    assert(is_ascii_chars(text)) by {
        assert forall|i: int| 0 <= i < text.len() implies '\0' <= #[trigger] text[i]
            <= '\u{7f}' by {
            assert(text[i] as u32 <= 0x7f);
        }
    }
    assert(lowercase_text(text) =~= text);
}

/// A name whose labels are ASCII decodes to lowercase ASCII text.
pub proof fn lemma_walk_text_lower_ascii(bytes: Seq<u8>, at: int, jumps: int, first: bool)
    requires
        walk_labels_ascii(bytes, at, jumps),
    ensures
        is_lower_ascii(name_walk(bytes, at, jumps, first).text),
    decreases MAX_JUMPS + 1 - jumps, BUFFER_SIZE - at,
{
    let walk = name_walk(bytes, at, jumps, first);
    if jumps > MAX_JUMPS || at < 0 || at >= BUFFER_SIZE {
    } else if is_pointer(bytes[at]) {
        if at + 1 < BUFFER_SIZE {
            lemma_walk_text_lower_ascii(
                bytes,
                pointer_target(bytes[at], bytes[at + 1]),
                jumps + 1,
                first,
            );
        }
    } else if bytes[at] != 0 {
        let next = at + 1 + bytes[at];
        if next <= BUFFER_SIZE {
            let label = bytes.subrange(at + 1, next);
            lemma_label_text_of_ascii(label);
            lemma_walk_text_lower_ascii(bytes, next, jumps, false);
            let rest = name_walk(bytes, next, jumps, false);
            let head = separator(first) + lower_ascii(label);
            assert(walk.text == head + rest.text);
            assert forall|i: int| 0 <= i < walk.text.len() implies (#[trigger] walk.text[i]) as u32
                <= 0x7f && ascii_lower(walk.text[i]) == walk.text[i] by {
                if i < separator(first).len() {
                    assert(walk.text[i] == '.');
                } else if i < head.len() {
                    let k = i - separator(first).len();
                    assert(walk.text[i] == ascii_lower(label[k] as char));
                    assert(label[k] < 0x80);
                } else {
                    assert(walk.text[i] == rest.text[i - head.len()]);
                }
            }
        } else {
            assert forall|i: int| 0 <= i < walk.text.len() implies (#[trigger] walk.text[i]) as u32
                <= 0x7f && ascii_lower(walk.text[i]) == walk.text[i] by {
                assert(walk.text[i] == '.');
            }
        }
    }
}

/// The wire form of the labels of a plain ASCII name holds no byte that
/// introduces a pointer.
pub proof fn lemma_labels_encoding_uncompressed(name: Seq<u8>, from: int)
    requires
        from <= name.len(),
        plain_labels(name, from),
        is_ascii_bytes(name),
    ensures
        forall|i: int|
            0 <= i < labels_encoding(name, from).bytes.len() ==> !is_pointer(
                #[trigger] labels_encoding(name, from).bytes[i],
            ),
    decreases name.len() - from,
{
    lemma_label_end_bounds(name, from);
    let end = label_end(name, from);
    let enc = labels_encoding(name, from).bytes;
    let len = end - from;
    if end < name.len() {
        lemma_labels_encoding_uncompressed(name, end + 1);
        let rest = labels_encoding(name, end + 1).bytes;
        assert forall|i: int| 0 <= i < enc.len() implies !is_pointer(#[trigger] enc[i]) by {
            if i == 0 {
            } else if i < 1 + len {
                assert(enc[i] == name[from + i - 1]);
            } else {
                assert(enc[i] == rest[i - 1 - len]);
            }
        }
    } else {
        assert forall|i: int| 0 <= i < enc.len() implies !is_pointer(#[trigger] enc[i]) by {
            if i == 0 {
            } else if i < 1 + len {
                assert(enc[i] == name[from + i - 1]);
            } else {
            }
        }
    }
}

/// A decoded name is written without compression and read back as it was:
/// for every name that decodes without failure from ASCII labels to text
/// without empty labels and without a label longer than `MAX_LABEL_LEN`,
/// the wire form of that text holds no pointer, and decoding it gives the
/// same text.
pub proof fn lemma_decoded_name_rewritten(source: Seq<u8>, from: int, bytes: Seq<u8>, at: int)
    requires
        name_walk(source, from, 0, true).error is None,
        walk_labels_ascii(source, from, 0),
        plain_name(encode_utf8(name_walk(source, from, 0, true).text)),
        bytes.len() == BUFFER_SIZE,
        0 <= at,
        at + name_encoding(encode_utf8(name_walk(source, from, 0, true).text)).bytes.len()
            <= BUFFER_SIZE,
    ensures
        ({
            let text = name_walk(source, from, 0, true).text;
            let enc = name_encoding(encode_utf8(text));
            &&& enc.complete
            &&& forall|i: int| 0 <= i < enc.bytes.len() ==> !is_pointer(#[trigger] enc.bytes[i])
            &&& name_walk(placed(bytes, at, enc.bytes), at, 0, true) == (NameWalk {
                text,
                cursor: Some(at + enc.bytes.len()),
                error: None,
            })
        }),
{
    let text = name_walk(source, from, 0, true).text;
    lemma_walk_text_lower_ascii(source, from, 0, true);
    lemma_lower_ascii_fixed(text);
    lemma_name_read_written(text, bytes, at);
    lemma_ascii_name_bytes(text);
    if encode_utf8(text).len() > 0 {
        lemma_labels_encoding_uncompressed(encode_utf8(text), 0);
    }
}

} // verus!
