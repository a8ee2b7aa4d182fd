//! The bincode layout of the values that leave the process: fixed-width
//! little-endian integers, length-prefixed byte strings, a one-byte tag before
//! an optional value and a four-byte index before an enum's fields. A struct is
//! its fields, one after another.

use vstd::bytes::{
    lemma_auto_spec_u32_to_from_le_bytes, lemma_auto_spec_u64_to_from_le_bytes,
    spec_u32_from_le_bytes, spec_u32_to_le_bytes, spec_u64_from_le_bytes, spec_u64_to_le_bytes,
};
use vstd::prelude::*;
use vstd::slice::slice_subrange;

use crate::text::{decimal, push_str, push_u64};

verus! {

/// Why bytes are no encoding of a value.
#[derive(Debug, Clone, Copy, PartialEq, Eq, Structural)]
pub enum DecodeError {
    /// The bytes end inside the value.
    UnexpectedEnd,
    /// The tag of an optional value is neither 0 nor 1.
    OptionTag { tag: u8 },
    /// The enum has only `count` variants.
    Variant { found: u32, count: u32 },
}

impl DecodeError {
    /// The text of the error.
    pub open spec fn message_text(self) -> Seq<char> {
        match self {
            DecodeError::UnexpectedEnd => "io error: unexpected end of file"@,
            DecodeError::OptionTag { tag } => "tag for enum is not valid, found "@ + decimal(
                tag as nat,
            ),
            DecodeError::Variant { found, count } => "invalid value: integer `"@ + decimal(
                found as nat,
            ) + "`, expected variant index 0 <= i < "@ + decimal(count as nat),
        }
    }

    /// Appends the text of the error.
    pub fn push_message(&self, out: &mut String)
        ensures
            final(out)@ == old(out)@ + self.message_text(),
    {
        let ghost before = out@;
        match self {
            DecodeError::UnexpectedEnd => {
                push_str(out, "io error: unexpected end of file");
            },
            DecodeError::OptionTag { tag } => {
                push_str(out, "tag for enum is not valid, found ");
                push_u64(out, *tag as u64);
            },
            DecodeError::Variant { found, count } => {
                push_str(out, "invalid value: integer `");
                push_u64(out, *found as u64);
                push_str(out, "`, expected variant index 0 <= i < ");
                push_u64(out, *count as u64);
            },
        }
        assert(out@ =~= before + self.message_text());
    }
}

// ── layout ──────────────────────────────────────────────────────────────────

/// The encoding of an integer of eight bytes.
pub open spec fn u64_bytes(v: u64) -> Seq<u8> {
    spec_u64_to_le_bytes(v)
}

/// The encoding of an integer of four bytes.
pub open spec fn u32_bytes(v: u32) -> Seq<u8> {
    spec_u32_to_le_bytes(v)
}

/// The encoding of a byte string.
pub open spec fn string_bytes(v: Seq<u8>) -> Seq<u8> {
    u64_bytes(v.len() as u64) + v
}

/// The encoding of an optional integer.
pub open spec fn opt_u64_bytes(v: Option<u64>) -> Seq<u8> {
    match v {
        None => seq![0u8],
        Some(x) => seq![1u8] + u64_bytes(x),
    }
}

/// The encoding of an optional byte string.
pub open spec fn opt_string_bytes(v: Option<Seq<u8>>) -> Seq<u8> {
    match v {
        None => seq![0u8],
        Some(x) => seq![1u8] + string_bytes(x),
    }
}

/// The byte at `pos`, and the position after it.
pub open spec fn get_u8(s: Seq<u8>, pos: int) -> Result<(u8, int), DecodeError> {
    if pos + 1 <= s.len() {
        Ok((s[pos], pos + 1))
    } else {
        Err(DecodeError::UnexpectedEnd)
    }
}

/// The four-byte integer at `pos`, and the position after it.
pub open spec fn get_u32(s: Seq<u8>, pos: int) -> Result<(u32, int), DecodeError> {
    if pos + 4 <= s.len() {
        Ok((spec_u32_from_le_bytes(s.subrange(pos, pos + 4)), pos + 4))
    } else {
        Err(DecodeError::UnexpectedEnd)
    }
}

/// The eight-byte integer at `pos`, and the position after it.
pub open spec fn get_u64(s: Seq<u8>, pos: int) -> Result<(u64, int), DecodeError> {
    if pos + 8 <= s.len() {
        Ok((spec_u64_from_le_bytes(s.subrange(pos, pos + 8)), pos + 8))
    } else {
        Err(DecodeError::UnexpectedEnd)
    }
}

/// The byte string at `pos`, and the position after it.
pub open spec fn get_string(s: Seq<u8>, pos: int) -> Result<(Seq<u8>, int), DecodeError> {
    match get_u64(s, pos) {
        Err(e) => Err(e),
        Ok((n, at)) => if at + n <= s.len() {
            Ok((s.subrange(at, at + n), at + n))
        } else {
            Err(DecodeError::UnexpectedEnd)
        },
    }
}

/// The optional integer at `pos`, and the position after it.
pub open spec fn get_opt_u64(s: Seq<u8>, pos: int) -> Result<(Option<u64>, int), DecodeError> {
    match get_u8(s, pos) {
        Err(e) => Err(e),
        Ok((tag, at)) => if tag == 0 {
            Ok((None, at))
        } else if tag == 1 {
            match get_u64(s, at) {
                Err(e) => Err(e),
                Ok((v, end)) => Ok((Some(v), end)),
            }
        } else {
            Err(DecodeError::OptionTag { tag })
        },
    }
}

/// The optional byte string at `pos`, and the position after it.
pub open spec fn get_opt_string(s: Seq<u8>, pos: int) -> Result<
    (Option<Seq<u8>>, int),
    DecodeError,
> {
    match get_u8(s, pos) {
        Err(e) => Err(e),
        Ok((tag, at)) => if tag == 0 {
            Ok((None, at))
        } else if tag == 1 {
            match get_string(s, at) {
                Err(e) => Err(e),
                Ok((v, end)) => Ok((Some(v), end)),
            }
        } else {
            Err(DecodeError::OptionTag { tag })
        },
    }
}

// ── calls into bincode ──────────────────────────────────────────────────────

/// Calls `bincode::serialize_into` on a `u8`. Trusted: one byte, the value
/// itself, is appended. Writing to a `Vec` cannot fail, so the call's result
/// carries nothing.
#[verifier::external_body]
pub(crate) fn put_u8(out: &mut Vec<u8>, v: u8)
    ensures
        final(out)@ == old(out)@ + seq![v],
{
    let _ = bincode::serialize_into(&mut *out, &v);
}

/// Calls `bincode::serialize_into` on a `u32`. Trusted: the four little-endian
/// bytes of the value are appended. Writing to a `Vec` cannot fail, so the
/// call's result carries nothing.
#[verifier::external_body]
pub(crate) fn put_u32(out: &mut Vec<u8>, v: u32)
    ensures
        final(out)@ == old(out)@ + u32_bytes(v),
{
    let _ = bincode::serialize_into(&mut *out, &v);
}

/// Calls `bincode::serialize_into` on a `u64`. Trusted: the eight little-endian
/// bytes of the value are appended. Writing to a `Vec` cannot fail, so the
/// call's result carries nothing.
#[verifier::external_body]
pub(crate) fn put_u64(out: &mut Vec<u8>, v: u64)
    ensures
        final(out)@ == old(out)@ + u64_bytes(v),
{
    let _ = bincode::serialize_into(&mut *out, &v);
}

/// Calls `bincode::serialize_into` on a byte string. Trusted: the length as
/// eight little-endian bytes and then the bytes are appended. Writing to a `Vec`
/// cannot fail, so the call's result carries nothing.
#[verifier::external_body]
pub(crate) fn put_string(out: &mut Vec<u8>, v: &Vec<u8>)
    ensures
        final(out)@ == old(out)@ + string_bytes(v@),
{
    let _ = bincode::serialize_into(&mut *out, v);
}

/// Calls `bincode::deserialize` for a `u8`. Trusted: it gives the first byte,
/// and fails on no bytes. What follows the value is ignored.
#[verifier::external_body]
fn bincode_u8(bytes: &[u8]) -> (r: Option<u8>)
    ensures
        r == if bytes@.len() >= 1 {
            Some(bytes@[0])
        } else {
            None
        },
{
    bincode::deserialize(bytes).ok()
}

/// Calls `bincode::deserialize` for a `u32`. Trusted: it reads the first four
/// bytes as a little-endian integer, and fails on fewer. What follows the value
/// is ignored.
#[verifier::external_body]
fn bincode_u32(bytes: &[u8]) -> (r: Option<u32>)
    ensures
        r == if bytes@.len() >= 4 {
            Some(spec_u32_from_le_bytes(bytes@.subrange(0, 4)))
        } else {
            None
        },
{
    bincode::deserialize(bytes).ok()
}

/// Calls `bincode::deserialize` for a `u64`. Trusted: it reads the first eight
/// bytes as a little-endian integer, and fails on fewer. What follows the value
/// is ignored.
#[verifier::external_body]
fn bincode_u64(bytes: &[u8]) -> (r: Option<u64>)
    ensures
        r == if bytes@.len() >= 8 {
            Some(spec_u64_from_le_bytes(bytes@.subrange(0, 8)))
        } else {
            None
        },
{
    bincode::deserialize(bytes).ok()
}

/// Calls `bincode::deserialize` for a `Vec<u8>`. Trusted: it reads the first
/// eight bytes as a little-endian length and gives as many of the bytes after
/// them, and fails where there are fewer. What follows the value is ignored.
#[verifier::external_body]
fn bincode_string(bytes: &[u8]) -> (r: Option<Vec<u8>>)
    ensures
        match r {
            Some(v) => bytes@.len() >= 8 && 8 + spec_u64_from_le_bytes(bytes@.subrange(0, 8))
                <= bytes@.len() && v@ == bytes@.subrange(
                8,
                8 + spec_u64_from_le_bytes(bytes@.subrange(0, 8)),
            ),
            None => bytes@.len() < 8 || 8 + spec_u64_from_le_bytes(bytes@.subrange(0, 8))
                > bytes@.len(),
        },
{
    bincode::deserialize(bytes).ok()
}

// ── reading and writing ─────────────────────────────────────────────────────

/// Reads the byte at `pos`.
pub fn read_u8(bytes: &[u8], pos: usize) -> (r: Result<(u8, usize), DecodeError>)
    requires
        pos <= bytes@.len(),
    ensures
        match r {
            Ok((v, end)) => get_u8(bytes@, pos as int) == Ok::<(u8, int), DecodeError>(
                (v, end as int),
            ) && end <= bytes@.len(),
            Err(e) => get_u8(bytes@, pos as int) == Err::<(u8, int), DecodeError>(e),
        },
{
    match bincode_u8(slice_subrange(bytes, pos, bytes.len())) {
        Some(v) => Ok((v, pos + 1)),
        None => Err(DecodeError::UnexpectedEnd),
    }
}

/// Reads the four-byte integer at `pos`.
pub fn read_u32(bytes: &[u8], pos: usize) -> (r: Result<(u32, usize), DecodeError>)
    requires
        pos <= bytes@.len(),
    ensures
        match r {
            Ok((v, end)) => get_u32(bytes@, pos as int) == Ok::<(u32, int), DecodeError>(
                (v, end as int),
            ) && end <= bytes@.len(),
            Err(e) => get_u32(bytes@, pos as int) == Err::<(u32, int), DecodeError>(e),
        },
{
    let rest = slice_subrange(bytes, pos, bytes.len());
    match bincode_u32(rest) {
        Some(v) => {
            assert(rest@.subrange(0, 4) =~= bytes@.subrange(pos as int, pos + 4));
            Ok((v, pos + 4))
        },
        None => Err(DecodeError::UnexpectedEnd),
    }
}

/// Reads the eight-byte integer at `pos`.
pub fn read_u64(bytes: &[u8], pos: usize) -> (r: Result<(u64, usize), DecodeError>)
    requires
        pos <= bytes@.len(),
    ensures
        match r {
            Ok((v, end)) => get_u64(bytes@, pos as int) == Ok::<(u64, int), DecodeError>(
                (v, end as int),
            ) && end <= bytes@.len(),
            Err(e) => get_u64(bytes@, pos as int) == Err::<(u64, int), DecodeError>(e),
        },
{
    let rest = slice_subrange(bytes, pos, bytes.len());
    match bincode_u64(rest) {
        Some(v) => {
            assert(rest@.subrange(0, 8) =~= bytes@.subrange(pos as int, pos + 8));
            Ok((v, pos + 8))
        },
        None => Err(DecodeError::UnexpectedEnd),
    }
}

/// Reads the byte string at `pos`.
pub fn read_string(bytes: &[u8], pos: usize) -> (r: Result<(Vec<u8>, usize), DecodeError>)
    requires
        pos <= bytes@.len(),
    ensures
        match r {
            Ok((v, end)) => get_string(bytes@, pos as int) == Ok::<(Seq<u8>, int), DecodeError>(
                (v@, end as int),
            ) && end <= bytes@.len(),
            Err(e) => get_string(bytes@, pos as int) == Err::<(Seq<u8>, int), DecodeError>(e),
        },
{
    let rest = slice_subrange(bytes, pos, bytes.len());
    proof {
        if rest@.len() >= 8 {
            assert(rest@.subrange(0, 8) =~= bytes@.subrange(pos as int, pos + 8));
            let n = spec_u64_from_le_bytes(rest@.subrange(0, 8));
            if 8 + n <= rest@.len() {
                assert(rest@.subrange(8, 8 + n) =~= bytes@.subrange(pos + 8, pos + 8 + n));
            }
        }
    }
    match bincode_string(rest) {
        Some(v) => {
            let end: usize = pos + 8 + v.len();
            Ok((v, end))
        },
        None => Err(DecodeError::UnexpectedEnd),
    }
}

/// Reads the optional integer at `pos`.
pub fn read_opt_u64(bytes: &[u8], pos: usize) -> (r: Result<(Option<u64>, usize), DecodeError>)
    requires
        pos <= bytes@.len(),
    ensures
        match r {
            Ok((v, end)) => get_opt_u64(bytes@, pos as int) == Ok::<
                (Option<u64>, int),
                DecodeError,
            >((v, end as int)) && end <= bytes@.len(),
            Err(e) => get_opt_u64(bytes@, pos as int) == Err::<(Option<u64>, int), DecodeError>(e),
        },
{
    let (tag, at): (u8, usize) = match read_u8(bytes, pos) {
        Ok(read) => read,
        Err(e) => {
            return Err(e);
        },
    };
    if tag == 0 {
        Ok((None, at))
    } else if tag == 1 {
        match read_u64(bytes, at) {
            Ok((v, end)) => Ok((Some(v), end)),
            Err(e) => Err(e),
        }
    } else {
        Err(DecodeError::OptionTag { tag })
    }
}

/// What an optional byte string holds.
pub open spec fn opt_view(v: Option<Vec<u8>>) -> Option<Seq<u8>> {
    match v {
        Some(bytes) => Some(bytes@),
        None => None,
    }
}

/// Reads the optional byte string at `pos`.
pub fn read_opt_string(bytes: &[u8], pos: usize) -> (r: Result<
    (Option<Vec<u8>>, usize),
    DecodeError,
>)
    requires
        pos <= bytes@.len(),
    ensures
        match r {
            Ok((v, end)) => get_opt_string(bytes@, pos as int) == Ok::<
                (Option<Seq<u8>>, int),
                DecodeError,
            >((opt_view(v), end as int)) && end <= bytes@.len(),
            Err(e) => get_opt_string(bytes@, pos as int) == Err::<
                (Option<Seq<u8>>, int),
                DecodeError,
            >(e),
        },
{
    let (tag, at): (u8, usize) = match read_u8(bytes, pos) {
        Ok(read) => read,
        Err(e) => {
            return Err(e);
        },
    };
    if tag == 0 {
        Ok((None, at))
    } else if tag == 1 {
        match read_string(bytes, at) {
            Ok((v, end)) => Ok((Some(v), end)),
            Err(e) => Err(e),
        }
    } else {
        Err(DecodeError::OptionTag { tag })
    }
}

/// Appends an optional integer.
pub fn put_opt_u64(out: &mut Vec<u8>, v: Option<u64>)
    ensures
        final(out)@ == old(out)@ + opt_u64_bytes(v),
{
    let ghost before = out@;
    match v {
        None => put_u8(out, 0),
        Some(x) => {
            put_u8(out, 1);
            put_u64(out, x);
        },
    }
    assert(out@ =~= before + opt_u64_bytes(v));
}

/// Appends an optional byte string.
pub fn put_opt_string(out: &mut Vec<u8>, v: &Option<Vec<u8>>)
    ensures
        final(out)@ == old(out)@ + opt_string_bytes(opt_view(*v)),
{
    let ghost before = out@;
    match v {
        None => put_u8(out, 0),
        Some(x) => {
            put_u8(out, 1);
            put_string(out, x);
        },
    }
    assert(out@ =~= before + opt_string_bytes(opt_view(*v)));
}

// ── what is written is read back ────────────────────────────────────────────

/// Whether `part` stands in `s` at `pos`.
pub open spec fn stands_at(s: Seq<u8>, pos: int, part: Seq<u8>) -> bool {
    &&& 0 <= pos
    &&& pos + part.len() <= s.len()
    &&& s.subrange(pos, pos + part.len()) == part
}

/// Where a concatenation stands, both parts stand.
pub proof fn lemma_stands_split(s: Seq<u8>, pos: int, a: Seq<u8>, b: Seq<u8>)
    requires
        stands_at(s, pos, a + b),
    ensures
        stands_at(s, pos, a),
        stands_at(s, pos + a.len(), b),
{
    let whole = s.subrange(pos, pos + (a + b).len());
    assert(s.subrange(pos, pos + a.len()) =~= whole.subrange(0, a.len() as int));
    assert(whole.subrange(0, a.len() as int) =~= a);
    assert(s.subrange(pos + a.len(), pos + a.len() + b.len()) =~= whole.subrange(
        a.len() as int,
        (a + b).len() as int,
    ));
    assert(whole.subrange(a.len() as int, (a + b).len() as int) =~= b);
}

/// A byte that was written is read back.
pub proof fn lemma_u8_round_trip(s: Seq<u8>, pos: int, v: u8)
    requires
        stands_at(s, pos, seq![v]),
    ensures
        get_u8(s, pos) == Ok::<(u8, int), DecodeError>((v, pos + 1)),
{
    assert(s.subrange(pos, pos + 1)[0] == v);
}

/// A four-byte integer that was written is read back.
pub proof fn lemma_u32_round_trip(s: Seq<u8>, pos: int, v: u32)
    requires
        stands_at(s, pos, u32_bytes(v)),
    ensures
        get_u32(s, pos) == Ok::<(u32, int), DecodeError>((v, pos + 4)),
        u32_bytes(v).len() == 4,
{
    lemma_auto_spec_u32_to_from_le_bytes();
}

/// An eight-byte integer that was written is read back.
pub proof fn lemma_u64_round_trip(s: Seq<u8>, pos: int, v: u64)
    requires
        stands_at(s, pos, u64_bytes(v)),
    ensures
        get_u64(s, pos) == Ok::<(u64, int), DecodeError>((v, pos + 8)),
        u64_bytes(v).len() == 8,
{
    lemma_auto_spec_u64_to_from_le_bytes();
}

/// A byte string that was written is read back.
pub proof fn lemma_string_round_trip(s: Seq<u8>, pos: int, v: Seq<u8>)
    requires
        stands_at(s, pos, string_bytes(v)),
        v.len() <= u64::MAX,
    ensures
        get_string(s, pos) == Ok::<(Seq<u8>, int), DecodeError>((v, pos + 8 + v.len())),
        string_bytes(v).len() == 8 + v.len(),
{
    lemma_stands_split(s, pos, u64_bytes(v.len() as u64), v);
    lemma_u64_round_trip(s, pos, v.len() as u64);
}

/// An optional integer that was written is read back.
pub proof fn lemma_opt_u64_round_trip(s: Seq<u8>, pos: int, v: Option<u64>)
    requires
        stands_at(s, pos, opt_u64_bytes(v)),
    ensures
        get_opt_u64(s, pos) == Ok::<(Option<u64>, int), DecodeError>(
            (v, pos + opt_u64_bytes(v).len()),
        ),
{
    match v {
        None => {
            lemma_u8_round_trip(s, pos, 0);
        },
        Some(x) => {
            lemma_stands_split(s, pos, seq![1u8], u64_bytes(x));
            lemma_u8_round_trip(s, pos, 1);
            lemma_u64_round_trip(s, pos + 1, x);
        },
    }
}

/// An optional byte string that was written is read back.
pub proof fn lemma_opt_string_round_trip(s: Seq<u8>, pos: int, v: Option<Seq<u8>>)
    requires
        stands_at(s, pos, opt_string_bytes(v)),
        v is Some ==> v->0.len() <= u64::MAX,
    ensures
        get_opt_string(s, pos) == Ok::<(Option<Seq<u8>>, int), DecodeError>(
            (v, pos + opt_string_bytes(v).len()),
        ),
{
    match v {
        None => {
            lemma_u8_round_trip(s, pos, 0);
        },
        Some(x) => {
            lemma_stands_split(s, pos, seq![1u8], string_bytes(x));
            lemma_u8_round_trip(s, pos, 1);
            lemma_string_round_trip(s, pos + 1, x);
        },
    }
}

} // verus!
