use vstd::prelude::*;

use crate::error::InternalError;
use vstd::bytes::lemma_auto_spec_u64_to_from_le_bytes;
use vstd::bytes::spec_u64_from_le_bytes;
use vstd::bytes::spec_u64_to_le_bytes;
use vstd::bytes::u64_from_le_bytes;
use vstd::bytes::u64_to_le_bytes;
use vstd::slice::slice_subrange;
use vstd::slice::slice_to_vec;
use vstd::string::StrSliceExecFns;
use vstd::utf8::decode_utf8;
use vstd::utf8::decode_utf8_encode_utf8;
use vstd::utf8::encode_utf8;
use vstd::utf8::encode_utf8_decode_utf8;
use vstd::utf8::encode_utf8_valid_utf8;
use vstd::utf8::valid_utf8;

verus! {

/// Tag byte that opens the encoding of a `Put` command.
pub const PUT_TAG: u8 = 0;

/// Tag byte that opens the encoding of a `Remove` command.
pub const REMOVE_TAG: u8 = 1;

/// One mutation recorded in a segment: either `key` now maps to `value`,
/// or `key` no longer exists.
#[derive(Debug, Clone)]
pub enum Command {
    Put { key: String, value: String },
    Remove { key: String },
}

/// The mathematical form of a command: its strings as character sequences.
pub enum CommandV {
    Put { key: Seq<char>, value: Seq<char> },
    Remove { key: Seq<char> },
}

impl View for Command {
    type V = CommandV;

    open spec fn view(&self) -> CommandV {
        match self {
            Command::Put { key, value } => CommandV::Put { key: key@, value: value@ },
            Command::Remove { key } => CommandV::Remove { key: key@ },
        }
    }
}

impl Command {
    /// Build the command that records `key` now maps to `value`.
    pub fn set(key: String, value: String) -> (c: Command)
        ensures
            c@ == (CommandV::Put { key: key@, value: value@ }),
    {
        Command::Put { key, value }
    }

    /// Build the command that records `key` no longer exists.
    pub fn remove(key: String) -> (c: Command)
        ensures
            c@ == (CommandV::Remove { key: key@ }),
    {
        Command::Remove { key }
    }
}

/// A string field on disk: the length of its UTF-8 form as eight
/// little-endian bytes, then the UTF-8 bytes themselves.
pub open spec fn spec_encode_str(s: Seq<char>) -> Seq<u8> {
    spec_u64_to_le_bytes(encode_utf8(s).len() as u64) + encode_utf8(s)
}

/// Whether a string field is small enough for its length prefix.
pub open spec fn str_fits(s: Seq<char>) -> bool {
    encode_utf8(s).len() <= u64::MAX
}

/// The bytes of one command record: a tag byte, then each string field.
pub open spec fn spec_encode(c: CommandV) -> Seq<u8> {
    match c {
        CommandV::Put { key, value } => seq![PUT_TAG] + spec_encode_str(key) + spec_encode_str(
            value,
        ),
        CommandV::Remove { key } => seq![REMOVE_TAG] + spec_encode_str(key),
    }
}

/// Whether every string field of a command is small enough to encode.
pub open spec fn cmd_fits(c: CommandV) -> bool {
    match c {
        CommandV::Put { key, value } => str_fits(key) && str_fits(value),
        CommandV::Remove { key } => str_fits(key),
    }
}

/// Read one string field off the front of `bytes`: the field and the number
/// of bytes it occupied, or nothing if `bytes` is truncated or not UTF-8.
pub open spec fn spec_decode_str(bytes: Seq<u8>) -> Option<(Seq<char>, int)> {
    if bytes.len() < 8 {
        Option::None
    } else {
        let n = spec_u64_from_le_bytes(bytes.take(8)) as int;
        if bytes.len() < 8 + n {
            Option::None
        } else {
            let field = bytes.subrange(8, 8 + n);
            if valid_utf8(field) {
                Option::Some((decode_utf8(field), 8 + n))
            } else {
                Option::None
            }
        }
    }
}

/// Read one command record off the front of `bytes`: the command and the
/// number of bytes it occupied, or nothing on truncated or malformed bytes.
pub open spec fn spec_decode(bytes: Seq<u8>) -> Option<(CommandV, int)> {
    if bytes.len() < 1 {
        Option::None
    } else if bytes[0] == PUT_TAG {
        match spec_decode_str(bytes.skip(1)) {
            Option::Some((key, n1)) => match spec_decode_str(bytes.skip(1 + n1)) {
                Option::Some((value, n2)) => Option::Some(
                    (CommandV::Put { key, value }, 1 + n1 + n2),
                ),
                Option::None => Option::None,
            },
            Option::None => Option::None,
        }
    } else if bytes[0] == REMOVE_TAG {
        match spec_decode_str(bytes.skip(1)) {
            Option::Some((key, n1)) => Option::Some((CommandV::Remove { key }, 1 + n1)),
            Option::None => Option::None,
        }
    } else {
        Option::None
    }
}

/// An encoded string field decodes back to the field, whatever follows it.
pub proof fn lemma_decode_str_encode(s: Seq<char>, rest: Seq<u8>)
    requires
        str_fits(s),
    ensures
        spec_decode_str(spec_encode_str(s) + rest) == Option::Some(
            (s, spec_encode_str(s).len() as int),
        ),
{
    lemma_auto_spec_u64_to_from_le_bytes();
    let e = encode_utf8(s);
    let bytes = spec_encode_str(s) + rest;
    assert(bytes.take(8) =~= spec_u64_to_le_bytes(e.len() as u64));
    assert(spec_u64_from_le_bytes(bytes.take(8)) == e.len() as u64);
    assert(bytes.subrange(8, 8 + e.len() as int) =~= e);
    encode_utf8_valid_utf8(s);
    encode_utf8_decode_utf8(s);
}

/// An encoded command decodes back to the command, whatever follows it.
pub proof fn lemma_decode_encode(c: CommandV, rest: Seq<u8>)
    requires
        cmd_fits(c),
    ensures
        spec_decode(spec_encode(c) + rest) == Option::Some((c, spec_encode(c).len() as int)),
{
    match c {
        CommandV::Put { key, value } => {
            let bytes = spec_encode(c) + rest;
            let k = spec_encode_str(key);
            let v = spec_encode_str(value);
            assert(bytes[0] == PUT_TAG);
            assert(bytes.skip(1) =~= k + (v + rest));
            lemma_decode_str_encode(key, v + rest);
            assert(bytes.skip(1 + k.len() as int) =~= v + rest);
            lemma_decode_str_encode(value, rest);
            assert(spec_encode(c).len() == 1 + k.len() + v.len());
        },
        CommandV::Remove { key } => {
            let bytes = spec_encode(c) + rest;
            let k = spec_encode_str(key);
            assert(bytes[0] == REMOVE_TAG);
            assert(bytes.skip(1) =~= k + rest);
            lemma_decode_str_encode(key, rest);
            assert(spec_encode(c).len() == 1 + k.len());
        },
    }
}

/// A decoded string field occupies exactly the canonical encoding of itself:
/// whatever bytes decode to `s` in `n` bytes start with `spec_encode_str(s)`.
pub proof fn lemma_decode_str_sound(bytes: Seq<u8>)
    requires
        spec_decode_str(bytes) is Some,
    ensures
        ({
            let (s, n) = spec_decode_str(bytes).unwrap();
            &&& 8 <= n <= bytes.len()
            &&& str_fits(s)
            &&& bytes.take(n) == spec_encode_str(s)
        }),
{
    lemma_auto_spec_u64_to_from_le_bytes();
    let (s, n) = spec_decode_str(bytes).unwrap();
    let m = spec_u64_from_le_bytes(bytes.take(8)) as int;
    let field = bytes.subrange(8, 8 + m);
    decode_utf8_encode_utf8(field);
    encode_utf8_decode_utf8(decode_utf8(field));
    assert(encode_utf8(s) == field);
    assert(bytes.take(n) =~= spec_u64_to_le_bytes(m as u64) + field);
    assert(spec_u64_to_le_bytes(spec_u64_from_le_bytes(bytes.take(8))) == bytes.take(8));
    assert(spec_encode_str(s) == spec_u64_to_le_bytes(field.len() as u64) + field);
}

/// A decoded command occupies exactly the canonical encoding of itself.
pub proof fn lemma_decode_sound(bytes: Seq<u8>)
    requires
        spec_decode(bytes) is Some,
    ensures
        ({
            let (c, n) = spec_decode(bytes).unwrap();
            &&& 1 <= n <= bytes.len()
            &&& cmd_fits(c)
            &&& bytes.take(n) == spec_encode(c)
        }),
{
    let (c, n) = spec_decode(bytes).unwrap();
    if bytes[0] == PUT_TAG {
        let (key, n1) = spec_decode_str(bytes.skip(1)).unwrap();
        lemma_decode_str_sound(bytes.skip(1));
        let (value, n2) = spec_decode_str(bytes.skip(1 + n1)).unwrap();
        lemma_decode_str_sound(bytes.skip(1 + n1));
        assert(bytes.skip(1).take(n1) =~= bytes.subrange(1, 1 + n1));
        assert(bytes.skip(1 + n1).take(n2) =~= bytes.subrange(1 + n1, 1 + n1 + n2));
        assert(bytes.take(n) =~= seq![PUT_TAG] + bytes.subrange(1, 1 + n1) + bytes.subrange(
            1 + n1,
            1 + n1 + n2,
        ));
    } else {
        let (key, n1) = spec_decode_str(bytes.skip(1)).unwrap();
        lemma_decode_str_sound(bytes.skip(1));
        assert(bytes.skip(1).take(n1) =~= bytes.subrange(1, 1 + n1));
        assert(bytes.take(n) =~= seq![REMOVE_TAG] + bytes.subrange(1, 1 + n1));
    }
}

/// Whatever one command record decodes to stays the same when more bytes
/// follow it.
pub proof fn lemma_decode_prefix(bytes: Seq<u8>, more: Seq<u8>)
    requires
        spec_decode(bytes) is Some,
    ensures
        spec_decode(bytes + more) == spec_decode(bytes),
{
    let (c, n) = spec_decode(bytes).unwrap();
    lemma_decode_sound(bytes);
    assert(bytes + more =~= spec_encode(c) + (bytes.skip(n) + more));
    lemma_decode_encode(c, bytes.skip(n) + more);
}

/// Relies on `String::from_utf8`: it succeeds exactly on valid UTF-8 input
/// and returns the string those bytes spell.
#[verifier::external_body]
fn bytes_to_string(v: Vec<u8>) -> (r: Option<String>)
    ensures
        r is Some <==> valid_utf8(v@),
        r matches Some(s) ==> s@ == decode_utf8(v@),
{
    match String::from_utf8(v) {
        Ok(s) => Some(s),
        Err(_) => None,
    }
}

/// Append the encoding of one string field to `out`.
fn encode_str_into(out: &mut Vec<u8>, s: &str)
    ensures
        final(out)@ == old(out)@ + spec_encode_str(s@),
        str_fits(s@),
{
    let mut b = s.as_bytes_vec();
    let ghost e = encode_utf8(s@);
    let n: u64 = b.len() as u64;
    let mut lenb = u64_to_le_bytes(n);
    out.append(&mut lenb);
    out.append(&mut b);
    proof {
        assert(n == e.len() as u64);
        assert(out@ =~= old(out)@ + spec_encode_str(s@));
    }
}

/// Encode one command as the bytes of its record.
pub fn encode_command(cmd: &Command) -> (r: Vec<u8>)
    ensures
        r@ == spec_encode(cmd@),
        cmd_fits(cmd@),
{
    let mut out: Vec<u8> = Vec::new();
    match cmd {
        Command::Put { key, value } => {
            out.push(PUT_TAG);
            encode_str_into(&mut out, key.as_str());
            encode_str_into(&mut out, value.as_str());
        },
        Command::Remove { key } => {
            out.push(REMOVE_TAG);
            encode_str_into(&mut out, key.as_str());
        },
    }
    proof {
        assert(out@ =~= spec_encode(cmd@));
    }
    out
}

/// Decode one string field that starts at `start` in `bytes`.
fn decode_str(bytes: &Vec<u8>, start: usize) -> (r: Result<(String, usize), InternalError>)
    requires
        start <= bytes@.len(),
    ensures
        match spec_decode_str(bytes@.skip(start as int)) {
            Option::Some((s, n)) => r matches Ok(p) && p.0@ == s && p.1 == start + n,
            Option::None => r matches Err(e) && e == InternalError::Serde,
        },
{
    let ghost tail = bytes@.skip(start as int);
    if bytes.len() - start < 8 {
        return Err(InternalError::Serde);
    }
    let lenb = slice_subrange(bytes.as_slice(), start, start + 8);
    proof {
        assert(lenb@ =~= tail.take(8));
    }
    let n64 = u64_from_le_bytes(lenb);
    if n64 > (bytes.len() - (start + 8)) as u64 {
        return Err(InternalError::Serde);
    }
    let n = n64 as usize;
    let field = slice_to_vec(slice_subrange(bytes.as_slice(), start + 8, start + 8 + n));
    proof {
        assert(field@ =~= tail.subrange(8, 8 + n64 as int));
    }
    match bytes_to_string(field) {
        Some(s) => Ok((s, start + 8 + n)),
        None => Err(InternalError::Serde),
    }
}

/// Decode exactly one command record that starts at `start` in `bytes`;
/// return the command and the offset just past its record.
pub fn decode_command(bytes: &Vec<u8>, start: usize) -> (r: Result<
    (Command, usize),
    InternalError,
>)
    requires
        start <= bytes@.len(),
    ensures
        match spec_decode(bytes@.skip(start as int)) {
            Option::Some((c, n)) => r matches Ok(p) && p.0@ == c && p.1 == start + n,
            Option::None => r matches Err(e) && e == InternalError::Serde,
        },
{
    let ghost tail = bytes@.skip(start as int);
    if bytes.len() - start < 1 {
        return Err(InternalError::Serde);
    }
    let tag = bytes[start];
    assert(tag == tail[0]);
    if tag == PUT_TAG {
        proof {
            assert(bytes@.skip(start + 1) =~= tail.skip(1));
        }
        let (key, m1) = match decode_str(bytes, start + 1) {
            Ok(p) => p,
            Err(e) => {
                return Err(e);
            },
        };
        let ghost n1 = m1 - (start + 1);
        proof {
            assert(bytes@.skip(m1 as int) =~= tail.skip(1 + n1));
        }
        let (value, m2) = match decode_str(bytes, m1) {
            Ok(p) => p,
            Err(e) => {
                return Err(e);
            },
        };
        Ok((Command::Put { key, value }, m2))
    } else if tag == REMOVE_TAG {
        proof {
            assert(bytes@.skip(start + 1) =~= tail.skip(1));
        }
        let (key, m1) = match decode_str(bytes, start + 1) {
            Ok(p) => p,
            Err(e) => {
                return Err(e);
            },
        };
        Ok((Command::Remove { key }, m1))
    } else {
        Err(InternalError::Serde)
    }
}

} // verus!
