use vstd::prelude::*;
use vstd::bytes::{
    lemma_auto_spec_u64_to_from_le_bytes, spec_u64_from_le_bytes, spec_u64_to_le_bytes,
    u64_from_le_bytes, u64_to_le_bytes,
};
use vstd::slice::slice_subrange;
use vstd::utf8::{decode_utf8, encode_utf8, encode_utf8_decode_utf8, encode_utf8_valid_utf8, valid_utf8};

verus! {

/// First byte of a `Put` record.
pub const TAG_PUT: u8 = 0x53;

/// First byte of a `Remove` record.
pub const TAG_REMOVE: u8 = 0x52;

/// A command as it is written to a log segment.
#[derive(Debug, Clone, PartialEq, Eq)]
pub enum Command {
    /// Records that `key` now maps to `value`.
    Put { key: String, value: String },
    /// Records that `key` was removed (a tombstone).
    Remove { key: String },
}

/// The mathematical value of a command.
pub enum Record {
    Put { key: Seq<char>, value: Seq<char> },
    Tombstone { key: Seq<char> },
}

impl View for Command {
    type V = Record;

    open spec fn view(&self) -> Record {
        match self {
            Command::Put { key, value } => Record::Put { key: key@, value: value@ },
            Command::Remove { key } => Record::Tombstone { key: key@ },
        }
    }
}

/// A string as the bytes of its length (eight bytes, little-endian)
/// followed by its UTF-8 bytes.
pub open spec fn field_bytes(s: Seq<char>) -> Seq<u8> {
    spec_u64_to_le_bytes(encode_utf8(s).len() as u64) + encode_utf8(s)
}

/// Whether the UTF-8 encoding of `s` has a length that fits a field.
pub open spec fn field_fits(s: Seq<char>) -> bool {
    encode_utf8(s).len() <= u64::MAX
}

/// Whether every field of the record fits.
pub open spec fn record_fits(r: Record) -> bool {
    match r {
        Record::Put { key, value } => field_fits(key) && field_fits(value),
        Record::Tombstone { key } => field_fits(key),
    }
}

/// The bytes of a record: a tag byte, then the key, then for `Put` the value.
pub open spec fn encode_spec(r: Record) -> Seq<u8> {
    match r {
        Record::Put { key, value } => seq![TAG_PUT] + field_bytes(key) + field_bytes(value),
        Record::Tombstone { key } => seq![TAG_REMOVE] + field_bytes(key),
    }
}

/// Reads one field at the start of `s`: the string and the number of bytes
/// that it takes.
pub open spec fn parse_field(s: Seq<u8>) -> Option<(Seq<char>, nat)> {
    if s.len() < 8 {
        None
    } else {
        let n = spec_u64_from_le_bytes(s.subrange(0, 8)) as nat;
        if n > s.len() - 8 {
            None
        } else {
            let b = s.subrange(8, 8 + n as int);
            if valid_utf8(b) {
                Some((decode_utf8(b), 8 + n))
            } else {
                None
            }
        }
    }
}

/// Reads one record at the start of `s`: the record and the number of bytes
/// that it takes, or `None` where the bytes are no record.
pub open spec fn parse_spec(s: Seq<u8>) -> Option<(Record, nat)> {
    if s.len() < 1 {
        None
    } else if s[0] == TAG_PUT {
        match parse_field(s.skip(1)) {
            None => None,
            Some((key, n)) => match parse_field(s.skip(1 + n as int)) {
                None => None,
                Some((value, m)) => Some((Record::Put { key, value }, 1 + n + m)),
            },
        }
    } else if s[0] == TAG_REMOVE {
        match parse_field(s.skip(1)) {
            None => None,
            Some((key, n)) => Some((Record::Tombstone { key }, 1 + n)),
        }
    } else {
        None
    }
}

proof fn lemma_field_round_trip(s: Seq<char>, rest: Seq<u8>)
    requires
        field_fits(s),
    ensures
        parse_field(field_bytes(s) + rest) == Some((s, field_bytes(s).len())),
        field_bytes(s).len() == 8 + encode_utf8(s).len(),
{
    lemma_auto_spec_u64_to_from_le_bytes();
    encode_utf8_valid_utf8(s);
    encode_utf8_decode_utf8(s);
    let b = encode_utf8(s);
    let all = field_bytes(s) + rest;
    assert(all.subrange(0, 8) =~= spec_u64_to_le_bytes(b.len() as u64));
    assert(all.subrange(8, 8 + b.len() as int) =~= b);
}

/// Decoding the bytes of a record, followed by anything, gives back the
/// record and the number of its bytes.
pub proof fn lemma_record_round_trip(r: Record, rest: Seq<u8>)
    requires
        record_fits(r),
    ensures
        parse_spec(encode_spec(r) + rest) == Some((r, encode_spec(r).len())),
{
    let all = encode_spec(r) + rest;
    match r {
        Record::Put { key, value } => {
            let fk = field_bytes(key);
            let fv = field_bytes(value);
            lemma_field_round_trip(key, fv + rest);
            lemma_field_round_trip(value, rest);
            assert(all.skip(1) =~= fk + (fv + rest));
            assert(all.skip(1 + fk.len() as int) =~= fv + rest);
        },
        Record::Tombstone { key } => {
            let fk = field_bytes(key);
            lemma_field_round_trip(key, rest);
            assert(all.skip(1) =~= fk + rest);
        },
    }
}

fn push_all(out: &mut Vec<u8>, src: &[u8])
    ensures
        final(out)@ == old(out)@ + src@,
{
    let mut i: usize = 0;
    while i < src.len()
        invariant
            i <= src@.len(),
            out@ == old(out)@ + src@.subrange(0, i as int),
        decreases src@.len() - i,
    {
        out.push(src[i]);
        i = i + 1;
        assert(out@ =~= old(out)@ + src@.subrange(0, i as int));
    }
    assert(src@.subrange(0, i as int) =~= src@);
}

fn push_field(out: &mut Vec<u8>, s: &String)
    ensures
        final(out)@ == old(out)@ + field_bytes(s@),
{
    let b = s.as_str().as_bytes();
    let n = b.len() as u64;
    let len = u64_to_le_bytes(n);
    push_all(out, len.as_slice());
    push_all(out, b);
    assert(final(out)@ =~= old(out)@ + field_bytes(s@));
}

/// The number of bytes of the record of `c`.
pub open spec fn record_len_spec(c: Record) -> nat {
    encode_spec(c).len()
}

/// The number of bytes that `c` takes in a segment, or `None` where it
/// exceeds what a `u64` counts.
pub fn record_len(c: &Command) -> (r: Option<u64>)
    ensures
        r matches Some(n) ==> n == record_len_spec(c@),
        r is None <==> record_len_spec(c@) > u64::MAX,
{
    proof {
        lemma_auto_spec_u64_to_from_le_bytes();
    }
    match c {
        Command::Put { key, value } => {
            let k = key.as_str().as_bytes().len() as u64;
            let v = value.as_str().as_bytes().len() as u64;
            if k > u64::MAX - 17 || v > u64::MAX - 17 - k {
                None
            } else {
                Some(17 + k + v)
            }
        },
        Command::Remove { key } => {
            let k = key.as_str().as_bytes().len() as u64;
            if k > u64::MAX - 9 {
                None
            } else {
                Some(9 + k)
            }
        },
    }
}

/// Encodes a command as the bytes of its record.
pub fn encode_record(c: &Command) -> (r: Vec<u8>)
    ensures
        r@ == encode_spec(c@),
{
    let mut out: Vec<u8> = Vec::new();
    match c {
        Command::Put { key, value } => {
            out.push(TAG_PUT);
            push_field(&mut out, key);
            push_field(&mut out, value);
        },
        Command::Remove { key } => {
            out.push(TAG_REMOVE);
            push_field(&mut out, key);
        },
    }
    assert(out@ =~= encode_spec(c@));
    out
}

/// Relies on `String::from_utf8`: it succeeds exactly on valid UTF-8 and
/// the string then holds those bytes.
#[verifier::external_body]
fn string_from_utf8(bytes: Vec<u8>) -> (r: Option<String>)
    ensures
        r is Some <==> valid_utf8(bytes@),
        r matches Some(s) ==> s@ == decode_utf8(bytes@),
{
    String::from_utf8(bytes).ok()
}

fn decode_field(bytes: &[u8], start: usize) -> (r: Option<(String, usize)>)
    requires
        start <= bytes@.len(),
    ensures
        match parse_field(bytes@.skip(start as int)) {
            None => r is None,
            Some((s, n)) => r matches Some((t, end)) && t@ == s && end == start + n,
        },
{
    let s = Ghost(bytes@.skip(start as int));
    let rem = bytes.len() - start;
    if rem < 8 {
        return None;
    }
    let len_bytes = slice_subrange(bytes, start, start + 8);
    assert(len_bytes@ =~= s@.subrange(0, 8));
    let n = u64_from_le_bytes(len_bytes);
    if n > (rem - 8) as u64 {
        return None;
    }
    let n = n as usize;
    let field = slice_subrange(bytes, start + 8, start + 8 + n);
    assert(field@ =~= s@.subrange(8, 8 + n as int));
    let mut owned: Vec<u8> = Vec::new();
    push_all(&mut owned, field);
    assert(owned@ =~= field@);
    match string_from_utf8(owned) {
        None => None,
        Some(t) => Some((t, start + 8 + n)),
    }
}

/// Decodes the record that begins at `start`: the command and the offset
/// just past its last byte, or `None` where the bytes there are no record.
pub fn decode_record(bytes: &[u8], start: usize) -> (r: Option<(Command, usize)>)
    requires
        start <= bytes@.len(),
    ensures
        match parse_spec(bytes@.skip(start as int)) {
            None => r is None,
            Some((rec, n)) => r matches Some((c, end)) && c@ == rec && end == start + n,
        },
{
    let s = Ghost(bytes@.skip(start as int));
    if start >= bytes.len() {
        return None;
    }
    let tag = bytes[start];
    if tag != TAG_PUT && tag != TAG_REMOVE {
        return None;
    }
    assert(bytes@.skip(start + 1) =~= s@.skip(1));
    let (key, after_key) = match decode_field(bytes, start + 1) {
        None => return None,
        Some(p) => p,
    };
    if tag == TAG_REMOVE {
        return Some((Command::Remove { key }, after_key));
    }
    assert(bytes@.skip(after_key as int) =~= s@.skip(after_key - start));
    match decode_field(bytes, after_key) {
        None => None,
        Some((value, end)) => Some((Command::Put { key, value }, end)),
    }
}

} // verus!
