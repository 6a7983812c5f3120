//! The record format of the command log.
//!
//! A record is one JSON object, written without whitespace:
//! `{"Set":{"key":K,"value":V}}` or `{"Remove":{"key":K}}`, where `K` and `V`
//! are JSON string literals. The frame around the literals is this module's;
//! the literals themselves are written and read by `serde_json`.

use vstd::prelude::*;
use vstd::slice::slice_subrange;
use crate::error::KvsError;
use crate::json::{from_json_text, json_text, json_value, malformed, to_json_text};

verus! {

/// A mutation as it is stored in the log.
#[derive(Debug)]
pub enum Command {
    /// Records the current value for `key`; its tag in the log is `Set`.
    Put { key: String, value: String },
    /// Records a tombstone for `key`.
    Remove { key: String },
}

/// The mathematical value of a [`Command`].
pub enum CommandView {
    Put { key: Seq<char>, value: Seq<char> },
    Remove { key: Seq<char> },
}

impl View for Command {
    type V = CommandView;

    open spec fn view(&self) -> CommandView {
        match self {
            Command::Put { key, value } => CommandView::Put { key: key@, value: value@ },
            Command::Remove { key } => CommandView::Remove { key: key@ },
        }
    }
}

/// The byte `"`.
pub const QUOTE: u8 = 34;

/// The byte `\`.
pub const BACKSLASH: u8 = 92;

/// The bytes `{"Set":{"key":`.
pub open spec fn set_head() -> Seq<u8> {
    seq![123u8, 34u8, 83u8, 101u8, 116u8, 34u8, 58u8, 123u8, 34u8, 107u8, 101u8, 121u8, 34u8, 58u8]
}

/// The bytes `{"Remove":{"key":`.
pub open spec fn remove_head() -> Seq<u8> {
    seq![
        123u8, 34u8, 82u8, 101u8, 109u8, 111u8, 118u8, 101u8, 34u8, 58u8, 123u8, 34u8, 107u8,
        101u8, 121u8, 34u8, 58u8,
    ]
}

/// The bytes `,"value":`.
pub open spec fn value_label() -> Seq<u8> {
    seq![44u8, 34u8, 118u8, 97u8, 108u8, 117u8, 101u8, 34u8, 58u8]
}

/// The bytes `}}`.
pub open spec fn tail() -> Seq<u8> {
    seq![125u8, 125u8]
}

/// The lengths of the four pieces of a record's frame.
pub proof fn lemma_frame_lengths()
    ensures
        set_head().len() == 14,
        remove_head().len() == 17,
        value_label().len() == 9,
        tail().len() == 2,
{
}

/// `pat` stands in `bytes` at `pos`.
pub open spec fn has_at(bytes: Seq<u8>, pos: int, pat: Seq<u8>) -> bool {
    &&& 0 <= pos
    &&& pos + pat.len() <= bytes.len()
    &&& bytes.subrange(pos, pos + pat.len()) == pat
}

/// Where the string literal ends whose body is scanned from `i` on: the
/// position behind the first quote that no backslash escapes.
pub open spec fn literal_end(bytes: Seq<u8>, i: int) -> Option<int>
    decreases bytes.len() + 1 - i,
{
    if i < 0 || i >= bytes.len() {
        None
    } else if bytes[i] == QUOTE {
        Some(i + 1)
    } else if bytes[i] == BACKSLASH {
        literal_end(bytes, i + 2)
    } else {
        literal_end(bytes, i + 1)
    }
}

/// The string whose literal opens at `pos`, and the position behind it.
pub open spec fn string_at(bytes: Seq<u8>, pos: int) -> Option<(Seq<char>, int)> {
    if 0 <= pos < bytes.len() && bytes[pos] == QUOTE {
        match literal_end(bytes, pos + 1) {
            Some(end) => match json_value(bytes.subrange(pos, end)) {
                Some(s) => Some((s, end)),
                None => None,
            },
            None => None,
        }
    } else {
        None
    }
}

/// The `Set` record that starts at `pos`, and the position behind it.
pub open spec fn set_at(bytes: Seq<u8>, pos: int) -> Option<(CommandView, int)> {
    if has_at(bytes, pos, set_head()) {
        match string_at(bytes, pos + 14) {
            Some((key, mid)) => if has_at(bytes, mid, value_label()) {
                match string_at(bytes, mid + 9) {
                    Some((value, end)) => if has_at(bytes, end, tail()) {
                        Some((CommandView::Put { key, value }, end + 2))
                    } else {
                        None
                    },
                    None => None,
                }
            } else {
                None
            },
            None => None,
        }
    } else {
        None
    }
}

/// The `Remove` record that starts at `pos`, and the position behind it.
pub open spec fn remove_at(bytes: Seq<u8>, pos: int) -> Option<(CommandView, int)> {
    if has_at(bytes, pos, remove_head()) {
        match string_at(bytes, pos + 17) {
            Some((key, end)) => if has_at(bytes, end, tail()) {
                Some((CommandView::Remove { key }, end + 2))
            } else {
                None
            },
            None => None,
        }
    } else {
        None
    }
}

/// The record that starts at `pos`, and the position behind it; `None` where
/// the bytes at `pos` are not a record.
pub open spec fn decode_at(bytes: Seq<u8>, pos: int) -> Option<(CommandView, int)> {
    if has_at(bytes, pos, set_head()) {
        set_at(bytes, pos)
    } else {
        remove_at(bytes, pos)
    }
}

/// The bytes `{"Set":{"key":`.
pub fn set_head_bytes() -> (r: [u8; 14])
    ensures
        r@ == set_head(),
{
    let r: [u8; 14] = [123, 34, 83, 101, 116, 34, 58, 123, 34, 107, 101, 121, 34, 58];
    assert(r@ =~= set_head());
    r
}

/// The bytes `{"Remove":{"key":`.
pub fn remove_head_bytes() -> (r: [u8; 17])
    ensures
        r@ == remove_head(),
{
    let r: [u8; 17] = [
        123, 34, 82, 101, 109, 111, 118, 101, 34, 58, 123, 34, 107, 101, 121, 34, 58,
    ];
    assert(r@ =~= remove_head());
    r
}

/// The bytes `,"value":`.
pub fn value_label_bytes() -> (r: [u8; 9])
    ensures
        r@ == value_label(),
{
    let r: [u8; 9] = [44, 34, 118, 97, 108, 117, 101, 34, 58];
    assert(r@ =~= value_label());
    r
}

/// The bytes `}}`.
pub fn tail_bytes() -> (r: [u8; 2])
    ensures
        r@ == tail(),
{
    let r: [u8; 2] = [125, 125];
    assert(r@ =~= tail());
    r
}

/// Tells whether `pat` stands in `bytes` at `pos`.
pub fn matches_at(bytes: &[u8], pos: usize, pat: &[u8]) -> (r: bool)
    ensures
        r == has_at(bytes@, pos as int, pat@),
        r ==> pos + pat@.len() <= usize::MAX,
{
    if pos > bytes.len() || pat.len() > bytes.len() - pos {
        return false;
    }
    let mut i: usize = 0;
    while i < pat.len()
        invariant
            pos + pat.len() <= bytes.len(),
            i <= pat.len(),
            forall|j: int| 0 <= j < i ==> bytes@[pos + j] == pat@[j],
        decreases pat.len() - i,
    {
        if bytes[pos + i] != pat[i] {
            assert(bytes@.subrange(pos as int, pos + pat.len())[i as int] != pat@[i as int]);
            return false;
        }
        i += 1;
    }
    assert(bytes@.subrange(pos as int, pos + pat.len()) =~= pat@);
    true
}

/// Scans the body of a string literal from `start` on and returns the
/// position behind its closing quote, or `None` where the bytes end first.
pub fn scan_literal(bytes: &[u8], start: usize) -> (r: Option<usize>)
    ensures
        match r {
            Some(end) => literal_end(bytes@, start as int) == Some(end as int) && start < end
                <= bytes.len(),
            None => literal_end(bytes@, start as int) is None,
        },
{
    let mut i: usize = start;
    while i < bytes.len()
        invariant
            start <= i,
            literal_end(bytes@, start as int) == literal_end(bytes@, i as int),
        decreases bytes.len() - i,
    {
        let b: u8 = bytes[i];
        if b == QUOTE {
            return Some(i + 1);
        } else if b == BACKSLASH {
            if bytes.len() - i < 2 {
                assert(literal_end(bytes@, i + 2) is None);
                return None;
            }
            i += 2;
        } else {
            i += 1;
        }
    }
    None
}

/// Reads the string whose literal opens at `pos`.
pub fn read_string(bytes: &[u8], pos: usize) -> (r: Option<(String, usize)>)
    ensures
        match r {
            Some((s, end)) => string_at(bytes@, pos as int) == Some((s@, end as int)) && pos + 2
                <= end <= bytes.len(),
            None => string_at(bytes@, pos as int) is None,
        },
{
    if pos >= bytes.len() || bytes[pos] != QUOTE {
        return None;
    }
    match scan_literal(bytes, pos + 1) {
        Some(end) => {
            match from_json_text(slice_subrange(bytes, pos, end)) {
                Ok(s) => Some((s, end)),
                Err(_) => None,
            }
        },
        None => None,
    }
}

/// Reads the record that starts at `pos`. Bytes that are not a record give
/// a serialization error.
pub fn decode_record(bytes: &[u8], pos: usize) -> (r: Result<(Command, usize), KvsError>)
    ensures
        match r {
            Ok((command, next)) => decode_at(bytes@, pos as int) == Some((command@, next as int))
                && pos + 18 <= next <= bytes.len(),
            Err(e) => decode_at(bytes@, pos as int) is None && e is Serde,
        },
{
    let set_open = set_head_bytes();
    let remove_open = remove_head_bytes();
    let label = value_label_bytes();
    let close = tail_bytes();
    proof {
        lemma_frame_lengths();
    }
    if matches_at(bytes, pos, set_open.as_slice()) {
        let (key, mid) = match read_string(bytes, pos + 14) {
            Some(found) => found,
            None => { return Err(malformed(pos)); },
        };
        if !matches_at(bytes, mid, label.as_slice()) {
            return Err(malformed(pos));
        }
        let (value, end) = match read_string(bytes, mid + 9) {
            Some(found) => found,
            None => { return Err(malformed(pos)); },
        };
        if !matches_at(bytes, end, close.as_slice()) {
            return Err(malformed(pos));
        }
        Ok((Command::Put { key, value }, end + 2))
    } else if matches_at(bytes, pos, remove_open.as_slice()) {
        let (key, end) = match read_string(bytes, pos + 17) {
            Some(found) => found,
            None => { return Err(malformed(pos)); },
        };
        if !matches_at(bytes, end, close.as_slice()) {
            return Err(malformed(pos));
        }
        Ok((Command::Remove { key }, end + 2))
    } else {
        Err(malformed(pos))
    }
}

/// A `Set` record around the JSON texts of its key and value.
pub open spec fn set_frame(key_text: Seq<u8>, value_text: Seq<u8>) -> Seq<u8> {
    set_head() + key_text + value_label() + value_text + tail()
}

/// A `Remove` record around the JSON text of its key.
pub open spec fn remove_frame(key_text: Seq<u8>) -> Seq<u8> {
    remove_head() + key_text + tail()
}

/// The bytes written for a command, or `None` where one of its strings has
/// no JSON text.
pub open spec fn frame(command: CommandView) -> Option<Seq<u8>> {
    match command {
        CommandView::Put { key, value } => match (json_text(key), json_text(value)) {
            (Some(key_text), Some(value_text)) => Some(set_frame(key_text, value_text)),
            _ => None,
        },
        CommandView::Remove { key } => match json_text(key) {
            Some(key_text) => Some(remove_frame(key_text)),
            None => None,
        },
    }
}

/// `bytes` hold exactly one record, and it is `command`.
pub open spec fn reads_as(bytes: Seq<u8>, command: CommandView) -> bool {
    decode_at(bytes, 0) == Some((command, bytes.len() as int))
}

/// The record of a command: the bytes written for it, provided that they
/// read back as the same command; `None` for a command that cannot be stored.
#[verifier::opaque]
pub open spec fn encoded(command: CommandView) -> Option<Seq<u8>> {
    match frame(command) {
        Some(bytes) => if reads_as(bytes, command) {
            Some(bytes)
        } else {
            None
        },
        None => None,
    }
}

/// The record of a command is the bytes written for it, and reads as the
/// command.
pub proof fn lemma_encoded(command: CommandView)
    requires
        encoded(command) is Some,
    ensures
        frame(command) == encoded(command),
        reads_as(encoded(command).unwrap(), command),
        encoded(command).unwrap().len() >= 18,
{
    reveal(encoded);
    lemma_decode_bounds(encoded(command).unwrap(), 0);
}

/// Appends `src` to `dst`.
pub fn append_bytes(dst: &mut Vec<u8>, src: &[u8])
    ensures
        final(dst)@ == old(dst)@ + src@,
{
    let mut i: usize = 0;
    while i < src.len()
        invariant
            i <= src.len(),
            dst@ == old(dst)@ + src@.subrange(0, i as int),
        decreases src.len() - i,
    {
        dst.push(src[i]);
        i += 1;
        assert(dst@ =~= old(dst)@ + src@.subrange(0, i as int));
    }
    assert(src@.subrange(0, i as int) =~= src@);
}

/// Frames a `Set` record around the JSON texts of its key and value.
pub fn frame_set(key_text: &[u8], value_text: &[u8]) -> (r: Vec<u8>)
    ensures
        r@ == set_frame(key_text@, value_text@),
{
    let mut r: Vec<u8> = Vec::new();
    append_bytes(&mut r, set_head_bytes().as_slice());
    append_bytes(&mut r, key_text);
    append_bytes(&mut r, value_label_bytes().as_slice());
    append_bytes(&mut r, value_text);
    append_bytes(&mut r, tail_bytes().as_slice());
    assert(r@ =~= set_frame(key_text@, value_text@));
    r
}

/// Frames a `Remove` record around the JSON text of its key.
pub fn frame_remove(key_text: &[u8]) -> (r: Vec<u8>)
    ensures
        r@ == remove_frame(key_text@),
{
    let mut r: Vec<u8> = Vec::new();
    append_bytes(&mut r, remove_head_bytes().as_slice());
    append_bytes(&mut r, key_text);
    append_bytes(&mut r, tail_bytes().as_slice());
    assert(r@ =~= remove_frame(key_text@));
    r
}

/// Tells whether two commands are the same.
pub fn same_command(a: &Command, b: &Command) -> (r: bool)
    ensures
        r == (a@ == b@),
{
    match (a, b) {
        (Command::Put { key: ka, value: va }, Command::Put { key: kb, value: vb }) => {
            *ka == *kb && *va == *vb
        },
        (Command::Remove { key: ka }, Command::Remove { key: kb }) => *ka == *kb,
        _ => false,
    }
}

/// Tells whether `bytes` hold exactly one record, and that record is
/// `command`.
pub fn reads_back(bytes: &[u8], command: &Command) -> (r: bool)
    ensures
        r == reads_as(bytes@, command@),
{
    match decode_record(bytes, 0) {
        Ok((read, next)) => next == bytes.len() && same_command(&read, command),
        Err(_) => false,
    }
}

/// The error for a record that does not read back as it was written.
pub open spec fn is_unreadable(e: KvsError) -> bool {
    e is UnexpectedError && e->UnexpectedError_0@ == "record does not read back as written"@
}

/// Makes the error for a record that does not read back as it was written.
pub fn unreadable() -> (e: KvsError)
    ensures
        is_unreadable(e),
{
    KvsError::UnexpectedError("record does not read back as written".to_string())
}

/// Writes the record of a command. The strings are serialized by
/// `serde_json`; a failure there is a serialization error. The record is
/// then read back, and one that does not yield the command again is refused
/// as an inconsistency: only records that the reader understands reach the
/// log.
pub fn encode_record(command: &Command) -> (r: Result<Vec<u8>, KvsError>)
    ensures
        match r {
            Ok(bytes) => encoded(command@) == Some(bytes@) && reads_as(bytes@, command@),
            Err(e) => encoded(command@) is None && (e is Serde <==> frame(command@) is None) && (
            is_unreadable(e) <==> frame(command@) is Some),
        },
{
    reveal(encoded);
    let bytes = match command {
        Command::Put { key, value } => {
            let key_text = match to_json_text(key.as_str()) {
                Ok(text) => text,
                Err(e) => { return Err(KvsError::Serde(e)); },
            };
            let value_text = match to_json_text(value.as_str()) {
                Ok(text) => text,
                Err(e) => { return Err(KvsError::Serde(e)); },
            };
            frame_set(key_text.as_slice(), value_text.as_slice())
        },
        Command::Remove { key } => {
            let key_text = match to_json_text(key.as_str()) {
                Ok(text) => text,
                Err(e) => { return Err(KvsError::Serde(e)); },
            };
            frame_remove(key_text.as_slice())
        },
    };
    if reads_back(bytes.as_slice(), command) {
        Ok(bytes)
    } else {
        Err(unreadable())
    }
}

/// The `n` bytes of `a` from `p` on are the `n` bytes of `b` from `q` on.
pub open spec fn same_stretch(a: Seq<u8>, p: int, b: Seq<u8>, q: int, n: int) -> bool {
    &&& 0 <= p
    &&& 0 <= q
    &&& 0 <= n
    &&& p + n <= a.len()
    &&& q + n <= b.len()
    &&& forall|k: int| p <= k < p + n ==> #[trigger] a[k] == b[k - p + q]
}

/// A literal ends behind where its scan began, and inside the bytes.
pub proof fn lemma_literal_end_bounds(bytes: Seq<u8>, i: int)
    requires
        literal_end(bytes, i) is Some,
    ensures
        i < literal_end(bytes, i).unwrap() <= bytes.len(),
    decreases bytes.len() + 1 - i,
{
    if bytes[i] == QUOTE {
    } else if bytes[i] == BACKSLASH {
        lemma_literal_end_bounds(bytes, i + 2);
    } else {
        lemma_literal_end_bounds(bytes, i + 1);
    }
}

/// A record is at least 18 bytes long and ends inside the bytes.
pub proof fn lemma_decode_bounds(bytes: Seq<u8>, pos: int)
    requires
        decode_at(bytes, pos) is Some,
    ensures
        0 <= pos,
        pos + 18 <= decode_at(bytes, pos).unwrap().1 <= bytes.len(),
{
    lemma_frame_lengths();
    if has_at(bytes, pos, set_head()) {
        lemma_literal_end_bounds(bytes, pos + 15);
        let mid = string_at(bytes, pos + 14).unwrap().1;
        lemma_literal_end_bounds(bytes, mid + 10);
    } else {
        lemma_literal_end_bounds(bytes, pos + 18);
    }
}

/// The scan of a literal looks at no byte behind its closing quote, and goes
/// by the bytes alone, wherever they stand.
pub proof fn lemma_literal_end_local(a: Seq<u8>, i: int, b: Seq<u8>, j: int)
    requires
        literal_end(a, i) is Some,
        same_stretch(a, i, b, j, literal_end(a, i).unwrap() - i),
    ensures
        literal_end(b, j) == Some(literal_end(a, i).unwrap() - i + j),
    decreases a.len() + 1 - i,
{
    lemma_literal_end_bounds(a, i);
    let end = literal_end(a, i).unwrap();
    assert(a[i] == b[j]);
    if a[i] == QUOTE {
    } else {
        let step: int = if a[i] == BACKSLASH { 2 } else { 1 };
        lemma_literal_end_bounds(a, i + step);
        assert(same_stretch(a, i + step, b, j + step, end - (i + step)));
        lemma_literal_end_local(a, i + step, b, j + step);
    }
}

/// A frame piece that stands in a stretch stands in every copy of it.
pub proof fn lemma_has_at_local(a: Seq<u8>, p: int, b: Seq<u8>, q: int, n: int, x: int, pat: Seq<u8>)
    requires
        same_stretch(a, p, b, q, n),
        0 <= x,
        x + pat.len() <= n,
    ensures
        has_at(a, p + x, pat) == has_at(b, q + x, pat),
{
    let sa = a.subrange(p + x, p + x + pat.len());
    let sb = b.subrange(q + x, q + x + pat.len());
    assert forall|k: int| 0 <= k < pat.len() implies sa[k] == sb[k] by {
        assert(a[p + x + k] == b[q + x + k]);
    }
    assert(sa =~= sb);
}

/// A string literal reads the same in every copy of the bytes it spans.
pub proof fn lemma_string_at_local(a: Seq<u8>, p: int, b: Seq<u8>, q: int)
    requires
        string_at(a, p) is Some,
        same_stretch(a, p, b, q, string_at(a, p).unwrap().1 - p),
    ensures
        string_at(b, q) == Some((string_at(a, p).unwrap().0, string_at(a, p).unwrap().1 - p + q)),
{
    let end = string_at(a, p).unwrap().1;
    lemma_literal_end_bounds(a, p + 1);
    assert(a[p] == b[q]);
    assert(same_stretch(a, p + 1, b, q + 1, end - (p + 1)));
    lemma_literal_end_local(a, p + 1, b, q + 1);
    let sa = a.subrange(p, end);
    let sb = b.subrange(q, end - p + q);
    assert forall|k: int| 0 <= k < end - p implies sa[k] == sb[k] by {
        assert(a[p + k] == b[q + k]);
    }
    assert(sa =~= sb);
}

/// A record reads the same in every copy of the bytes it spans: what stands
/// before it or behind it has no part in what it says.
pub proof fn lemma_decode_local(a: Seq<u8>, p: int, b: Seq<u8>, q: int)
    requires
        decode_at(a, p) is Some,
        same_stretch(a, p, b, q, decode_at(a, p).unwrap().1 - p),
    ensures
        decode_at(b, q) == Some((decode_at(a, p).unwrap().0, decode_at(a, p).unwrap().1 - p + q)),
{
    lemma_frame_lengths();
    lemma_decode_bounds(a, p);
    let n = decode_at(a, p).unwrap().1 - p;
    lemma_has_at_local(a, p, b, q, n, 0, set_head());
    if has_at(a, p, set_head()) {
        let (key, mid) = string_at(a, p + 14).unwrap();
        lemma_literal_end_bounds(a, p + 15);
        let (value, end) = string_at(a, mid + 9).unwrap();
        lemma_literal_end_bounds(a, mid + 10);
        assert(same_stretch(a, p + 14, b, q + 14, mid - (p + 14)));
        lemma_string_at_local(a, p + 14, b, q + 14);
        lemma_has_at_local(a, p, b, q, n, mid - p, value_label());
        assert(same_stretch(a, mid + 9, b, mid + 9 - p + q, end - (mid + 9)));
        lemma_string_at_local(a, mid + 9, b, mid + 9 - p + q);
        lemma_has_at_local(a, p, b, q, n, end - p, tail());
    } else {
        lemma_has_at_local(a, p, b, q, n, 0, remove_head());
        let (key, end) = string_at(a, p + 17).unwrap();
        lemma_literal_end_bounds(a, p + 18);
        assert(same_stretch(a, p + 17, b, q + 17, end - (p + 17)));
        lemma_string_at_local(a, p + 17, b, q + 17);
        lemma_has_at_local(a, p, b, q, n, end - p, tail());
    }
}

} // verus!
