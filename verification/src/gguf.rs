//! GGUF headers: reading them without losing a byte, writing them, and moving a
//! multi-token-prediction block from one model file into another.
//!
//! Every metadata value is kept as the bytes that stand in the file, so that a
//! key which is not touched is written back as it was read.
use vstd::arithmetic::div_mod::*;
use vstd::prelude::*;
use vstd::utf8::*;

use crate::text;

verus! {

pub const MAX_STRING: u64 = 67108864;

pub const MAX_ARRAY: u64 = 268435456;

pub const MAX_BLOB: u64 = 268435456;

pub const MAX_TENSORS: u64 = 1048576;

pub const MAX_KV: u64 = 1048576;

pub const MAX_DIMS: u32 = 16;

pub const GGUF_UINT8: u32 = 0;

pub const GGUF_INT8: u32 = 1;

pub const GGUF_UINT16: u32 = 2;

pub const GGUF_INT16: u32 = 3;

pub const GGUF_UINT32: u32 = 4;

pub const GGUF_INT32: u32 = 5;

pub const GGUF_FLOAT32: u32 = 6;

pub const GGUF_BOOL: u32 = 7;

pub const GGUF_STRING: u32 = 8;

pub const GGUF_ARRAY: u32 = 9;

pub const GGUF_UINT64: u32 = 10;

pub const GGUF_INT64: u32 = 11;

pub const GGUF_FLOAT64: u32 = 12;

/// Why the bytes are not a GGUF header.
#[derive(Clone, Copy, Debug, PartialEq, Eq, Structural)]
pub enum GgufError {
    /// The bytes end before the header does.
    Truncated,
    /// More bytes in one piece than are read.
    TooLarge(u64),
    ScalarType(u32),
    StringLength(u64),
    ArrayCount(u64),
    Magic,
    Version(u32),
    /// The number of tensors and of keys.
    Implausible(u64, u64),
    /// The number of dimensions.
    Dimensions(u32),
}

/// The number that little-endian bytes stand for.
pub open spec fn le_value(s: Seq<u8>) -> nat
    decreases s.len(),
{
    if s.len() == 0 {
        0
    } else {
        s[0] as nat + 256 * le_value(s.skip(1))
    }
}

/// `n` in `width` little-endian bytes.
pub open spec fn le_bytes(n: nat, width: nat) -> Seq<u8>
    decreases width,
{
    if width == 0 {
        seq![]
    } else {
        seq![(n % 256) as u8] + le_bytes(n / 256, (width - 1) as nat)
    }
}

pub proof fn lemma_le_bytes_len(n: nat, width: nat)
    ensures
        le_bytes(n, width).len() == width,
    decreases width,
{
    if width > 0 {
        lemma_le_bytes_len(n / 256, (width - 1) as nat);
    }
}

/// Four little-endian bytes and eight of them give back the number.
pub proof fn lemma_le_round_trip(n: nat)
    ensures
        n <= u32::MAX ==> le_value(le_bytes(n, 4)) == n,
        n <= u64::MAX ==> le_value(le_bytes(n, 8)) == n,
{
    reveal_with_fuel(high_part, 9);
    if n <= u32::MAX {
        assert(n / 256 / 256 / 256 / 256 == 0);
        lemma_le_value_of_bytes(n, 4);
    }
    if n <= u64::MAX {
        assert(n / 256 / 256 / 256 / 256 / 256 / 256 / 256 / 256 == 0);
        lemma_le_value_of_bytes(n, 8);
    }
}

/// What is left of `n` after `width` divisions by 256.
spec fn high_part(n: nat, width: nat) -> nat
    decreases width,
{
    if width == 0 {
        n
    } else {
        high_part(n / 256, (width - 1) as nat)
    }
}

proof fn lemma_le_value_of_bytes(n: nat, width: nat)
    requires
        high_part(n, width) == 0,
    ensures
        le_value(le_bytes(n, width)) == n,
    decreases width,
{
    if width > 0 {
        lemma_le_value_of_bytes(n / 256, (width - 1) as nat);
        let all = le_bytes(n, width);
        assert(all.skip(1) =~= le_bytes(n / 256, (width - 1) as nat));
    }
}

/// The size of one scalar of a type.
pub open spec fn scalar_size_of(vt: u32) -> Option<nat> {
    if vt == GGUF_UINT8 || vt == GGUF_INT8 || vt == GGUF_BOOL {
        Some(1)
    } else if vt == GGUF_UINT16 || vt == GGUF_INT16 {
        Some(2)
    } else if vt == GGUF_UINT32 || vt == GGUF_INT32 || vt == GGUF_FLOAT32 {
        Some(4)
    } else if vt == GGUF_UINT64 || vt == GGUF_INT64 || vt == GGUF_FLOAT64 {
        Some(8)
    } else {
        None
    }
}

pub fn scalar_size(vt: u32) -> (size: Result<usize, GgufError>)
    ensures
        match scalar_size_of(vt) {
            Some(n) => size == Ok::<usize, GgufError>(n as usize),
            None => size == Err::<usize, GgufError>(GgufError::ScalarType(vt)),
        },
{
    if vt == GGUF_UINT8 || vt == GGUF_INT8 || vt == GGUF_BOOL {
        Ok(1)
    } else if vt == GGUF_UINT16 || vt == GGUF_INT16 {
        Ok(2)
    } else if vt == GGUF_UINT32 || vt == GGUF_INT32 || vt == GGUF_FLOAT32 {
        Ok(4)
    } else if vt == GGUF_UINT64 || vt == GGUF_INT64 || vt == GGUF_FLOAT64 {
        Ok(8)
    } else {
        Err(GgufError::ScalarType(vt))
    }
}

/// Some bytes and how far they have been read.
pub struct Reader<'a> {
    pub data: &'a [u8],
    pub pos: usize,
}

impl<'a> Reader<'a> {
    /// The position lies in the bytes.
    pub open spec fn wf(&self) -> bool {
        self.pos <= self.data@.len()
    }

    pub fn new(data: &'a [u8]) -> (reader: Reader<'a>)
        ensures
            reader.wf(),
            reader.data == data,
            reader.pos == 0,
    {
        Reader { data, pos: 0 }
    }
}

/// The bytes of `data` from `from` up to `to`.
pub open spec fn bytes_at(data: Seq<u8>, from: int, to: int) -> Seq<u8> {
    data.subrange(from, to)
}

/// Where `n` bytes read at `pos` end.
pub open spec fn blob_end(data: Seq<u8>, pos: int, n: nat) -> Result<int, GgufError> {
    if n > MAX_BLOB {
        Err(GgufError::TooLarge(n as u64))
    } else if pos + n > data.len() {
        Err(GgufError::Truncated)
    } else {
        Ok(pos + n)
    }
}

/// The next `n` bytes.
pub fn read_exact_n(r: &mut Reader, n: u64) -> (out: Result<Vec<u8>, GgufError>)
    requires
        old(r).wf(),
    ensures
        final(r).wf(),
        final(r).data == old(r).data,
        match (out, blob_end(old(r).data@, old(r).pos as int, n as nat)) {
            (Ok(bytes), Ok(end)) => final(r).pos == end && bytes@ == bytes_at(
                old(r).data@,
                old(r).pos as int,
                end,
            ),
            (Err(e), Err(f)) => e == f,
            _ => false,
        },
{
    if n > MAX_BLOB {
        return Err(GgufError::TooLarge(n));
    }
    let count: usize = n as usize;
    if count > r.data.len() - r.pos {
        return Err(GgufError::Truncated);
    }
    let mut out: Vec<u8> = Vec::new();
    let start: usize = r.pos;
    let data: &[u8] = r.data;
    let mut i: usize = 0;
    while i < count
        invariant
            start + count <= data@.len(),
            data@.len() <= usize::MAX,
            i <= count,
            out@ == bytes_at(data@, start as int, start + i),
        decreases count - i,
    {
        out.push(data[start + i]);
        i += 1;
    }
    r.pos = start + count;
    Ok(out)
}

/// What a little-endian number of `width` bytes at `pos` says.
pub open spec fn number_at(data: Seq<u8>, pos: int, width: nat) -> Result<nat, GgufError> {
    if pos + width > data.len() {
        Err(GgufError::Truncated)
    } else {
        Ok(le_value(bytes_at(data, pos, pos + width)))
    }
}

proof fn lemma_le_four(s: Seq<u8>)
    requires
        s.len() == 4,
    ensures
        le_value(s) == s[0] + 256 * s[1] + 65536 * s[2] + 16777216 * s[3],
{
    reveal_with_fuel(le_value, 5);
    assert(s.skip(1).skip(1).skip(1).skip(1).len() == 0);
}

proof fn lemma_le_eight(s: Seq<u8>)
    requires
        s.len() == 8,
    ensures
        le_value(s) == le_value(s.take(4)) + 4294967296 * le_value(s.skip(4)),
{
    lemma_le_four(s.take(4));
    let h = s.skip(4);
    lemma_le_four(h);
    reveal_with_fuel(le_value, 9);
    assert(s.skip(1).skip(1).skip(1).skip(1) =~= h);
}

/// The number in the first four bytes of `bytes`.
fn le_u32(bytes: &[u8], at: usize) -> (n: u32)
    requires
        at + 4 <= bytes@.len(),
    ensures
        n == le_value(bytes_at(bytes@, at as int, at + 4)),
{
    proof {
        lemma_le_four(bytes_at(bytes@, at as int, at + 4));
    }
    bytes[at] as u32 + 256 * (bytes[at + 1] as u32) + 65536 * (bytes[at + 2] as u32) + 16777216 * (
    bytes[at + 3] as u32)
}

fn le_u64(bytes: &[u8], at: usize) -> (n: u64)
    requires
        at + 8 <= bytes@.len(),
    ensures
        n == le_value(bytes_at(bytes@, at as int, at + 8)),
{
    let total: usize = bytes.len();
    assert(at + 8 <= total);
    let low: u32 = le_u32(bytes, at);
    let high: u32 = le_u32(bytes, at + 4);
    proof {
        let s = bytes_at(bytes@, at as int, at + 8);
        lemma_le_eight(s);
        assert(s.take(4) =~= bytes_at(bytes@, at as int, at + 4));
        assert(s.skip(4) =~= bytes_at(bytes@, at + 4, at + 8));
    }
    low as u64 + 4294967296 * (high as u64)
}

pub fn read_u32(r: &mut Reader) -> (out: Result<u32, GgufError>)
    requires
        old(r).wf(),
    ensures
        final(r).wf(),
        final(r).data == old(r).data,
        match (out, number_at(old(r).data@, old(r).pos as int, 4)) {
            (Ok(n), Ok(m)) => n == m && final(r).pos == old(r).pos + 4,
            (Err(e), Err(f)) => e == f,
            _ => false,
        },
{
    let bytes: Vec<u8> = match read_exact_n(r, 4) {
        Ok(bytes) => bytes,
        Err(e) => return Err(e),
    };
    proof {
        assert(bytes_at(bytes@, 0, 4) =~= bytes@);
    }
    Ok(le_u32(bytes.as_slice(), 0))
}

pub fn read_u64(r: &mut Reader) -> (out: Result<u64, GgufError>)
    requires
        old(r).wf(),
    ensures
        final(r).wf(),
        final(r).data == old(r).data,
        match (out, number_at(old(r).data@, old(r).pos as int, 8)) {
            (Ok(n), Ok(m)) => n == m && final(r).pos == old(r).pos + 8,
            (Err(e), Err(f)) => e == f,
            _ => false,
        },
{
    let bytes: Vec<u8> = match read_exact_n(r, 8) {
        Ok(bytes) => bytes,
        Err(e) => return Err(e),
    };
    proof {
        assert(bytes_at(bytes@, 0, 8) =~= bytes@);
    }
    Ok(le_u64(bytes.as_slice(), 0))
}

/// What `String::from_utf8_lossy` makes of bytes that are not UTF-8.
pub uninterp spec fn lossy_text(bytes: Seq<u8>) -> Seq<char>;

/// The text that some bytes give: the characters that they encode, or what
/// stands in for them where they are not UTF-8.
pub open spec fn text_of(bytes: Seq<u8>) -> Seq<char> {
    if valid_utf8(bytes) {
        decode_utf8(bytes)
    } else {
        lossy_text(bytes)
    }
}

/// Calls `String::from_utf8_lossy`. Bytes that are UTF-8 give the characters
/// that they encode; what other bytes give is a function of the bytes.
#[verifier::external_body]
pub(crate) fn utf8_lossy(bytes: &[u8]) -> (out: String)
    ensures
        valid_utf8(bytes@) ==> out@ == decode_utf8(bytes@),
        !valid_utf8(bytes@) ==> out@ == lossy_text(bytes@),
{
    String::from_utf8_lossy(bytes).into_owned()
}

/// The text that some bytes give.
pub fn decoded_text(bytes: &[u8]) -> (out: String)
    ensures
        out@ == text_of(bytes@),
{
    utf8_lossy(bytes)
}

/// The text at `pos`, behind its length, and where it ends.
pub open spec fn text_at(data: Seq<u8>, pos: int) -> Result<(Seq<char>, int), GgufError> {
    match number_at(data, pos, 8) {
        Err(e) => Err(e),
        Ok(n) => if n > MAX_STRING {
            Err(GgufError::StringLength(n as u64))
        } else if pos + 8 + n > data.len() {
            Err(GgufError::Truncated)
        } else {
            Ok((text_of(bytes_at(data, pos + 8, pos + 8 + n)), pos + 8 + n))
        },
    }
}

pub fn read_string(r: &mut Reader) -> (out: Result<String, GgufError>)
    requires
        old(r).wf(),
    ensures
        final(r).wf(),
        final(r).data == old(r).data,
        match (out, text_at(old(r).data@, old(r).pos as int)) {
            (Ok(s), Ok((t, end))) => s@ == t && final(r).pos == end,
            (Err(e), Err(f)) => e == f,
            _ => false,
        },
{
    let n: u64 = match read_u64(r) {
        Ok(n) => n,
        Err(e) => return Err(e),
    };
    if n > MAX_STRING {
        return Err(GgufError::StringLength(n));
    }
    match read_exact_n(r, n) {
        Ok(bytes) => Ok(utf8_lossy(bytes.as_slice())),
        Err(e) => Err(e),
    }
}

/// Where the metadata value of type `vt` at `pos` ends: a string with its
/// length, an array with its element type, its count and its elements, or a
/// scalar.
pub open spec fn value_end(data: Seq<u8>, pos: int, vt: u32) -> Result<int, GgufError>
    decreases data.len() - pos, 0nat,
{
    if vt == GGUF_STRING {
        match text_at(data, pos) {
            Ok((_, end)) => Ok(end),
            Err(e) => Err(e),
        }
    } else if vt == GGUF_ARRAY {
        match (number_at(data, pos, 4), number_at(data, pos + 4, 8)) {
            (Ok(elem), Ok(count)) => if count > MAX_ARRAY {
                Err(GgufError::ArrayCount(count as u64))
            } else if elem == GGUF_STRING || elem == GGUF_ARRAY {
                elements_end(data, pos + 12, elem as u32, count)
            } else {
                match scalar_size_of(elem as u32) {
                    Some(size) => blob_end(data, pos + 12, count * size),
                    None => Err(GgufError::ScalarType(elem as u32)),
                }
            },
            _ => Err(GgufError::Truncated),
        }
    } else {
        match scalar_size_of(vt) {
            Some(size) => blob_end(data, pos, size),
            None => Err(GgufError::ScalarType(vt)),
        }
    }
}

/// Where `count` values of type `elem`, the first of them at `pos`, end.
pub open spec fn elements_end(data: Seq<u8>, pos: int, elem: u32, count: nat) -> Result<
    int,
    GgufError,
>
    decreases data.len() - pos, count + 1,
{
    if count == 0 {
        Ok(pos)
    } else {
        match elements_end(data, pos, elem, (count - 1) as nat) {
            Ok(at) => if pos <= at <= data.len() {
                value_end(data, at, elem)
            } else {
                Err(GgufError::Truncated)
            },
            Err(e) => Err(e),
        }
    }
}

/// A value ends after it starts, and within the bytes.
proof fn lemma_value_end(data: Seq<u8>, pos: int, vt: u32)
    requires
        0 <= pos <= data.len(),
    ensures
        value_end(data, pos, vt) matches Ok(end) ==> pos < end <= data.len(),
    decreases data.len() - pos, 0nat,
{
    if vt == GGUF_ARRAY {
        if let (Ok(elem), Ok(count)) = (number_at(data, pos, 4), number_at(data, pos + 4, 8)) {
            if elem == GGUF_STRING || elem == GGUF_ARRAY {
                lemma_elements_end(data, pos + 12, elem as u32, count);
            } else if scalar_size_of(elem as u32) is Some {
                let size = scalar_size_of(elem as u32)->0;
                assert(count * size >= 0) by (nonlinear_arith);
            }
        }
    }
}

proof fn lemma_elements_end(data: Seq<u8>, pos: int, elem: u32, count: nat)
    requires
        0 <= pos <= data.len(),
    ensures
        elements_end(data, pos, elem, count) matches Ok(end) ==> pos <= end <= data.len(),
    decreases data.len() - pos, count + 1,
{
    if count > 0 {
        lemma_elements_end(data, pos, elem, (count - 1) as nat);
        if let Ok(at) = elements_end(data, pos, elem, (count - 1) as nat) {
            lemma_value_end(data, at, elem);
        }
    }
}

/// Once one element fails, so does every longer list.
proof fn lemma_elements_fail(data: Seq<u8>, pos: int, elem: u32, count: nat, more: nat)
    requires
        count <= more,
        elements_end(data, pos, elem, count) is Err,
    ensures
        elements_end(data, pos, elem, more) == elements_end(data, pos, elem, count),
    decreases more,
{
    if count < more {
        lemma_elements_fail(data, pos, elem, count, (more - 1) as nat);
    }
}

/// Appends the bytes of `more`.
fn extend(out: &mut Vec<u8>, more: &Vec<u8>)
    ensures
        final(out)@ == old(out)@ + more@,
{
    let mut i: usize = 0;
    while i < more.len()
        invariant
            i <= more@.len(),
            out@ == old(out)@ + more@.take(i as int),
        decreases more@.len() - i,
    {
        out.push(more[i]);
        i += 1;
    }
    proof {
        assert(more@.take(more@.len() as int) == more@);
    }
}

/// The bytes of one metadata value as they stand in the file.
pub fn capture_value(r: &mut Reader, vt: u32) -> (out: Result<Vec<u8>, GgufError>)
    requires
        old(r).wf(),
    ensures
        final(r).wf(),
        final(r).data == old(r).data,
        match (out, value_end(old(r).data@, old(r).pos as int, vt)) {
            (Ok(bytes), Ok(end)) => final(r).pos == end && bytes@ == bytes_at(
                old(r).data@,
                old(r).pos as int,
                end,
            ),
            (Err(e), Err(f)) => e == f,
            _ => false,
        },
    decreases old(r).data@.len() - old(r).pos,
{
    let ghost data = r.data@;
    let ghost start = r.pos as int;
    if vt == GGUF_STRING {
        let n: u64 = match read_u64(r) {
            Ok(n) => n,
            Err(e) => return Err(e),
        };
        if n > MAX_STRING {
            return Err(GgufError::StringLength(n));
        }
        let mut out: Vec<u8> = Vec::new();
        write_u64(&mut out, n);
        let text: Vec<u8> = match read_exact_n(r, n) {
            Ok(bytes) => bytes,
            Err(e) => return Err(e),
        };
        extend(&mut out, &text);
        proof {
            lemma_le_of_value(bytes_at(data, start, start + 8));
            assert(out@ =~= bytes_at(data, start, start + 8 + n));
        }
        Ok(out)
    } else if vt == GGUF_ARRAY {
        let elem: u32 = match read_u32(r) {
            Ok(n) => n,
            Err(e) => return Err(e),
        };
        let count: u64 = match read_u64(r) {
            Ok(n) => n,
            Err(e) => return Err(e),
        };
        if count > MAX_ARRAY {
            return Err(GgufError::ArrayCount(count));
        }
        let mut out: Vec<u8> = Vec::new();
        write_u32(&mut out, elem);
        write_u64(&mut out, count);
        proof {
            lemma_le_of_value(bytes_at(data, start, start + 4));
            lemma_le_of_value(bytes_at(data, start + 4, start + 12));
            assert(out@ =~= bytes_at(data, start, start + 12));
        }
        if elem == GGUF_STRING || elem == GGUF_ARRAY {
            let mut i: u64 = 0;
            while i < count
                invariant
                    data == old(r).data@,
                    r.data == old(r).data,
                    start == old(r).pos,
                    start + 12 <= r.pos <= data.len(),
                    i <= count,
                    elements_end(data, start + 12, elem, i as nat) == Ok::<int, GgufError>(
                        r.pos as int,
                    ),
                    vt == GGUF_ARRAY,
                    count <= MAX_ARRAY,
                    elem == GGUF_STRING || elem == GGUF_ARRAY,
                    value_end(data, start, vt) == elements_end(
                        data,
                        start + 12,
                        elem,
                        count as nat,
                    ),
                    out@ == bytes_at(data, start, r.pos as int),
                decreases count - i,
            {
                let ghost before = r.pos as int;
                proof {
                    lemma_value_end(data, before, elem);
                }
                match capture_value(r, elem) {
                    Ok(bytes) => {
                        extend(&mut out, &bytes);
                        proof {
                            assert(out@ =~= bytes_at(data, start, r.pos as int));
                        }
                    },
                    Err(e) => {
                        proof {
                            lemma_elements_fail(
                                data,
                                start + 12,
                                elem,
                                (i + 1) as nat,
                                count as nat,
                            );
                        }
                        return Err(e);
                    },
                }
                i += 1;
            }
            Ok(out)
        } else {
            let size: usize = match scalar_size(elem) {
                Ok(size) => size,
                Err(e) => return Err(e),
            };
            proof {
                assert(count * size <= 268435456 * 8) by (nonlinear_arith)
                    requires
                        count <= 268435456,
                        size <= 8,
                ;
            }
            let total: u64 = count * (size as u64);
            match read_exact_n(r, total) {
                Ok(bytes) => {
                    extend(&mut out, &bytes);
                    proof {
                        assert(out@ =~= bytes_at(data, start, r.pos as int));
                    }
                    Ok(out)
                },
                Err(e) => Err(e),
            }
        }
    } else {
        match scalar_size(vt) {
            Ok(size) => read_exact_n(r, size as u64),
            Err(e) => Err(e),
        }
    }
}

/// The bytes of a number are determined by the number.
proof fn lemma_le_of_value(s: Seq<u8>)
    ensures
        le_bytes(le_value(s), s.len()) == s,
    decreases s.len(),
{
    if s.len() > 0 {
        lemma_le_of_value(s.skip(1));
        assert((le_value(s) % 256) as u8 == s[0]);
        assert(le_value(s) / 256 == le_value(s.skip(1)));
        assert(seq![s[0]] + s.skip(1) =~= s);
    } else {
        assert(le_bytes(0, 0) =~= s);
    }
}

/// Appends a number in four little-endian bytes.
pub fn write_u32(w: &mut Vec<u8>, v: u32)
    ensures
        final(w)@ == old(w)@ + le_bytes(v as nat, 4),
{
    w.push((v % 256) as u8);
    w.push(((v / 256) % 256) as u8);
    w.push(((v / 65536) % 256) as u8);
    w.push((v / 16777216) as u8);
    proof {
        reveal_with_fuel(le_bytes, 5);
        assert(w@ =~= old(w)@ + le_bytes(v as nat, 4));
    }
}

/// Eight bytes are the four low ones and then the four high ones.
#[verifier::rlimit(50)]
#[verifier::spinoff_prover]
proof fn lemma_le_halves(n: nat)
    ensures
        le_bytes(n, 8) == le_bytes(n % 4294967296, 4) + le_bytes(n / 4294967296, 4),
{
    let low = n % 4294967296;
    let b0 = (n % 256) as u8;
    let b1 = (n / 256 % 256) as u8;
    let b2 = (n / 65536 % 256) as u8;
    let b3 = (n / 16777216 % 256) as u8;
    let high = le_bytes(n / 4294967296, 4);
    assert(n / 256 / 256 == n / 65536);
    assert(n / 65536 / 256 == n / 16777216);
    assert(n / 16777216 / 256 == n / 4294967296);
    assert(le_bytes(n / 16777216, 5) == seq![b3] + high);
    assert(le_bytes(n / 65536, 6) == seq![b2] + (seq![b3] + high));
    assert(le_bytes(n / 256, 7) == seq![b1] + (seq![b2] + (seq![b3] + high)));
    assert(le_bytes(n, 8) == seq![b0] + (seq![b1] + (seq![b2] + (seq![b3] + high))));
    assert(low % 256 == n % 256);
    assert(low / 256 % 256 == n / 256 % 256);
    assert(low / 65536 % 256 == n / 65536 % 256);
    assert(low / 16777216 % 256 == n / 16777216 % 256);
    assert(low / 256 / 256 == low / 65536);
    assert(low / 65536 / 256 == low / 16777216);
    assert(le_bytes(low / 4294967296, 0) == Seq::<u8>::empty());
    assert(low / 16777216 / 256 == low / 4294967296);
    assert(le_bytes(low / 16777216, 1) == seq![b3] + Seq::<u8>::empty());
    assert(le_bytes(low / 65536, 2) == seq![b2] + (seq![b3] + Seq::<u8>::empty()));
    assert(le_bytes(low / 256, 3) == seq![b1] + (seq![b2] + (seq![b3] + Seq::<u8>::empty())));
    assert(le_bytes(low, 4) == seq![b0] + (seq![b1] + (seq![b2] + (seq![b3]
        + Seq::<u8>::empty()))));
    assert(le_bytes(n, 8) =~= le_bytes(low, 4) + high);
}

/// Appends a number in eight little-endian bytes.
pub fn write_u64(w: &mut Vec<u8>, v: u64)
    ensures
        final(w)@ == old(w)@ + le_bytes(v as nat, 8),
{
    write_u32(w, (v % 4294967296) as u32);
    write_u32(w, (v / 4294967296) as u32);
    proof {
        lemma_le_halves(v as nat);
        assert(w@ =~= old(w)@ + le_bytes(v as nat, 8));
    }
}

/// The bytes of a text behind its length.
pub open spec fn text_bytes(s: Seq<char>) -> Seq<u8> {
    le_bytes(encode_utf8(s).len(), 8) + encode_utf8(s)
}

/// Appends a text behind its length.
pub fn write_string(w: &mut Vec<u8>, s: &str)
    ensures
        final(w)@ == old(w)@ + text_bytes(s@),
{
    let bytes: &[u8] = s.as_bytes();
    write_u64(w, bytes.len() as u64);
    let ghost head = w@;
    let mut i: usize = 0;
    while i < bytes.len()
        invariant
            i <= bytes@.len(),
            w@ == head + bytes@.take(i as int),
        decreases bytes@.len() - i,
    {
        w.push(bytes[i]);
        i += 1;
    }
    proof {
        assert(bytes@.take(bytes@.len() as int) == bytes@);
        assert(w@ =~= old(w)@ + text_bytes(s@));
    }
}

/// One key of the metadata, its value as the bytes in the file.
pub struct MetaEntry {
    pub key: String,
    pub vtype: u32,
    pub raw: Vec<u8>,
}

/// One tensor; `offset` counts from the start of the tensor data.
pub struct TensorEntry {
    pub name: String,
    pub dims: Vec<u64>,
    pub ggml_type: u32,
    pub offset: u64,
}

/// What a metadata entry says.
pub ghost struct MetaView {
    pub key: Seq<char>,
    pub vtype: u32,
    pub raw: Seq<u8>,
}

/// What a tensor entry says.
pub ghost struct TensorView {
    pub name: Seq<char>,
    pub dims: Seq<u64>,
    pub ggml_type: u32,
    pub offset: u64,
}

impl View for MetaEntry {
    type V = MetaView;

    open spec fn view(&self) -> MetaView {
        MetaView { key: self.key@, vtype: self.vtype, raw: self.raw@ }
    }
}

impl View for TensorEntry {
    type V = TensorView;

    open spec fn view(&self) -> TensorView {
        TensorView {
            name: self.name@,
            dims: self.dims@,
            ggml_type: self.ggml_type,
            offset: self.offset,
        }
    }
}

pub open spec fn meta_views(meta: Seq<MetaEntry>) -> Seq<MetaView> {
    meta.map_values(|m: MetaEntry| m@)
}

pub open spec fn tensor_views(tensors: Seq<TensorEntry>) -> Seq<TensorView> {
    tensors.map_values(|t: TensorEntry| t@)
}

impl MetaEntry {
    pub fn copy(&self) -> (out: MetaEntry)
        ensures
            out@ == self@,
    {
        MetaEntry { key: self.key.clone(), vtype: self.vtype, raw: self.raw.clone() }
    }
}

/// The metadata entry at `pos` and where it ends.
pub open spec fn meta_at(data: Seq<u8>, pos: int) -> Result<(MetaView, int), GgufError> {
    match text_at(data, pos) {
        Err(e) => Err(e),
        Ok((key, at)) => match number_at(data, at, 4) {
            Err(e) => Err(e),
            Ok(vtype) => match value_end(data, at + 4, vtype as u32) {
                Err(e) => Err(e),
                Ok(end) => Ok(
                    (
                        MetaView {
                            key,
                            vtype: vtype as u32,
                            raw: bytes_at(data, at + 4, end),
                        },
                        end,
                    ),
                ),
            },
        },
    }
}

/// The first `n` metadata entries from `pos` on and where they end.
pub open spec fn metas_at(data: Seq<u8>, pos: int, n: nat) -> Result<
    (Seq<MetaView>, int),
    GgufError,
>
    decreases n,
{
    if n == 0 {
        Ok((seq![], pos))
    } else {
        match metas_at(data, pos, (n - 1) as nat) {
            Err(e) => Err(e),
            Ok((all, at)) => match meta_at(data, at) {
                Err(e) => Err(e),
                Ok((entry, end)) => Ok((all.push(entry), end)),
            },
        }
    }
}

/// The numbers of the dimensions at `pos` and where they end.
pub open spec fn dims_at(data: Seq<u8>, pos: int, n: nat) -> Result<(Seq<u64>, int), GgufError>
    decreases n,
{
    if n == 0 {
        Ok((seq![], pos))
    } else {
        match dims_at(data, pos, (n - 1) as nat) {
            Err(e) => Err(e),
            Ok((all, at)) => match number_at(data, at, 8) {
                Err(e) => Err(e),
                Ok(d) => Ok((all.push(d as u64), at + 8)),
            },
        }
    }
}

/// The tensor entry at `pos` and where it ends.
pub open spec fn tensor_at(data: Seq<u8>, pos: int) -> Result<(TensorView, int), GgufError> {
    match text_at(data, pos) {
        Err(e) => Err(e),
        Ok((name, at)) => match number_at(data, at, 4) {
            Err(e) => Err(e),
            Ok(n) => if n > MAX_DIMS {
                Err(GgufError::Dimensions(n as u32))
            } else {
                match dims_at(data, at + 4, n) {
                    Err(e) => Err(e),
                    Ok((dims, then)) => match (
                        number_at(data, then, 4),
                        number_at(data, then + 4, 8),
                    ) {
                        (Ok(kind), Ok(offset)) => Ok(
                            (
                                TensorView {
                                    name,
                                    dims,
                                    ggml_type: kind as u32,
                                    offset: offset as u64,
                                },
                                then + 12,
                            ),
                        ),
                        _ => Err(GgufError::Truncated),
                    },
                }
            },
        },
    }
}

/// The first `n` tensor entries from `pos` on and where they end.
pub open spec fn tensors_at(data: Seq<u8>, pos: int, n: nat) -> Result<
    (Seq<TensorView>, int),
    GgufError,
>
    decreases n,
{
    if n == 0 {
        Ok((seq![], pos))
    } else {
        match tensors_at(data, pos, (n - 1) as nat) {
            Err(e) => Err(e),
            Ok((all, at)) => match tensor_at(data, at) {
                Err(e) => Err(e),
                Ok((entry, end)) => Ok((all.push(entry), end)),
            },
        }
    }
}

/// What the bytes at the start of a file say: the metadata, the tensors, and
/// where the header ends.
pub ghost struct EntriesView {
    pub meta: Seq<MetaView>,
    pub tensors: Seq<TensorView>,
    pub header_end: int,
}

/// The four bytes that every GGUF file starts with.
pub open spec fn magic() -> Seq<u8> {
    seq![0x47u8, 0x47u8, 0x55u8, 0x46u8]
}

pub open spec fn entries_of(data: Seq<u8>) -> Result<EntriesView, GgufError> {
    if data.len() < 4 {
        Err(GgufError::Truncated)
    } else if data.take(4) != magic() {
        Err(GgufError::Magic)
    } else {
        match number_at(data, 4, 4) {
            Err(e) => Err(e),
            Ok(version) => if version != 3 {
                Err(GgufError::Version(version as u32))
            } else {
                match (number_at(data, 8, 8), number_at(data, 16, 8)) {
                    (Ok(n_tensors), Ok(n_kv)) => if n_tensors > MAX_TENSORS || n_kv > MAX_KV {
                        Err(GgufError::Implausible(n_tensors as u64, n_kv as u64))
                    } else {
                        match metas_at(data, 24, n_kv) {
                            Err(e) => Err(e),
                            Ok((meta, at)) => match tensors_at(data, at, n_tensors) {
                                Err(e) => Err(e),
                                Ok((tensors, header_end)) => Ok(
                                    EntriesView { meta, tensors, header_end },
                                ),
                            },
                        }
                    },
                    _ => Err(GgufError::Truncated),
                }
            },
        }
    }
}

proof fn lemma_metas_fail(data: Seq<u8>, pos: int, n: nat, more: nat)
    requires
        n <= more,
        metas_at(data, pos, n) is Err,
    ensures
        metas_at(data, pos, more) == metas_at(data, pos, n),
    decreases more,
{
    if n < more {
        lemma_metas_fail(data, pos, n, (more - 1) as nat);
    }
}

proof fn lemma_dims_fail(data: Seq<u8>, pos: int, n: nat, more: nat)
    requires
        n <= more,
        dims_at(data, pos, n) is Err,
    ensures
        dims_at(data, pos, more) == dims_at(data, pos, n),
    decreases more,
{
    if n < more {
        lemma_dims_fail(data, pos, n, (more - 1) as nat);
    }
}

proof fn lemma_tensors_fail(data: Seq<u8>, pos: int, n: nat, more: nat)
    requires
        n <= more,
        tensors_at(data, pos, n) is Err,
    ensures
        tensors_at(data, pos, more) == tensors_at(data, pos, n),
    decreases more,
{
    if n < more {
        lemma_tensors_fail(data, pos, n, (more - 1) as nat);
    }
}

fn read_meta(r: &mut Reader) -> (out: Result<MetaEntry, GgufError>)
    requires
        old(r).wf(),
    ensures
        final(r).wf(),
        final(r).data == old(r).data,
        match (out, meta_at(old(r).data@, old(r).pos as int)) {
            (Ok(m), Ok((v, end))) => m@ == v && final(r).pos == end,
            (Err(e), Err(f)) => e == f,
            _ => false,
        },
{
    let key: String = match read_string(r) {
        Ok(s) => s,
        Err(e) => return Err(e),
    };
    let vtype: u32 = match read_u32(r) {
        Ok(n) => n,
        Err(e) => return Err(e),
    };
    match capture_value(r, vtype) {
        Ok(raw) => Ok(MetaEntry { key, vtype, raw }),
        Err(e) => Err(e),
    }
}

fn read_tensor(r: &mut Reader) -> (out: Result<TensorEntry, GgufError>)
    requires
        old(r).wf(),
    ensures
        final(r).wf(),
        final(r).data == old(r).data,
        match (out, tensor_at(old(r).data@, old(r).pos as int)) {
            (Ok(m), Ok((v, end))) => m@ == v && final(r).pos == end,
            (Err(e), Err(f)) => e == f,
            _ => false,
        },
{
    let name: String = match read_string(r) {
        Ok(s) => s,
        Err(e) => return Err(e),
    };
    let n_dims: u32 = match read_u32(r) {
        Ok(n) => n,
        Err(e) => return Err(e),
    };
    if n_dims > MAX_DIMS {
        return Err(GgufError::Dimensions(n_dims));
    }
    let mut dims: Vec<u64> = Vec::new();
    let ghost start = r.pos as int;
    let mut i: u32 = 0;
    while i < n_dims
        invariant
            r.wf(),
            r.data == old(r).data,
            i <= n_dims <= MAX_DIMS,
            dims_at(r.data@, start, i as nat) == Ok::<(Seq<u64>, int), GgufError>(
                (dims@, r.pos as int),
            ),
            tensor_at(old(r).data@, old(r).pos as int) == match dims_at(
                r.data@,
                start,
                n_dims as nat,
            ) {
                Err(e) => Err::<(TensorView, int), GgufError>(e),
                Ok((dims, then)) => match (
                    number_at(r.data@, then, 4),
                    number_at(r.data@, then + 4, 8),
                ) {
                    (Ok(kind), Ok(offset)) => Ok(
                        (
                            TensorView {
                                name: name@,
                                dims,
                                ggml_type: kind as u32,
                                offset: offset as u64,
                            },
                            then + 12,
                        ),
                    ),
                    _ => Err(GgufError::Truncated),
                },
            },
        decreases n_dims - i,
    {
        match read_u64(r) {
            Ok(d) => dims.push(d),
            Err(e) => {
                proof {
                    lemma_dims_fail(r.data@, start, (i + 1) as nat, n_dims as nat);
                }
                return Err(e);
            },
        }
        i += 1;
    }
    let ggml_type: u32 = match read_u32(r) {
        Ok(n) => n,
        Err(e) => return Err(e),
    };
    match read_u64(r) {
        Ok(offset) => Ok(TensorEntry { name, dims, ggml_type, offset }),
        Err(e) => Err(e),
    }
}

/// The metadata and the tensors of a header, and where it ends.
pub struct Entries {
    pub meta: Vec<MetaEntry>,
    pub tensors: Vec<TensorEntry>,
    pub header_end: u64,
}

/// Reads the metadata and the tensor list from the bytes at the start of a
/// file.
pub fn parse_entries(data: &[u8]) -> (out: Result<Entries, GgufError>)
    ensures
        match (out, entries_of(data@)) {
            (Ok(e), Ok(v)) => {
                &&& meta_views(e.meta@) == v.meta
                &&& tensor_views(e.tensors@) == v.tensors
                &&& e.header_end == v.header_end
            },
            (Err(e), Err(f)) => e == f,
            _ => false,
        },
{
    let mut r: Reader = Reader::new(data);
    let front: Vec<u8> = match read_exact_n(&mut r, 4) {
        Ok(bytes) => bytes,
        Err(e) => return Err(e),
    };
    proof {
        assert(front@ =~= data@.take(4));
    }
    if !(front[0] == 0x47 && front[1] == 0x47 && front[2] == 0x55 && front[3] == 0x46) {
        return Err(GgufError::Magic);
    }
    proof {
        assert(front@ =~= magic());
    }
    let version: u32 = match read_u32(&mut r) {
        Ok(n) => n,
        Err(e) => return Err(e),
    };
    if version != 3 {
        return Err(GgufError::Version(version));
    }
    let n_tensors: u64 = match read_u64(&mut r) {
        Ok(n) => n,
        Err(e) => return Err(e),
    };
    let n_kv: u64 = match read_u64(&mut r) {
        Ok(n) => n,
        Err(e) => return Err(e),
    };
    if n_tensors > MAX_TENSORS || n_kv > MAX_KV {
        return Err(GgufError::Implausible(n_tensors, n_kv));
    }
    let mut meta: Vec<MetaEntry> = Vec::new();
    let mut i: u64 = 0;
    proof {
        assert(meta_views(meta@) =~= seq![]);
    }
    while i < n_kv
        invariant
            r.wf(),
            r.data == data,
            i <= n_kv,
            metas_at(data@, 24, i as nat) == Ok::<(Seq<MetaView>, int), GgufError>(
                (meta_views(meta@), r.pos as int),
            ),
            metas_at(data@, 24, n_kv as nat) is Err ==> entries_of(data@)
                == Err::<EntriesView, GgufError>(metas_at(data@, 24, n_kv as nat)->Err_0),
        decreases n_kv - i,
    {
        let ghost before = meta@;
        match read_meta(&mut r) {
            Ok(entry) => {
                meta.push(entry);
                proof {
                    assert(meta_views(meta@) =~= meta_views(before).push(entry@));
                }
            },
            Err(e) => {
                proof {
                    lemma_metas_fail(data@, 24, (i + 1) as nat, n_kv as nat);
                }
                return Err(e);
            },
        }
        i += 1;
    }
    let ghost at = r.pos as int;
    let mut tensors: Vec<TensorEntry> = Vec::new();
    let mut j: u64 = 0;
    proof {
        assert(tensor_views(tensors@) =~= seq![]);
    }
    while j < n_tensors
        invariant
            r.wf(),
            r.data == data,
            j <= n_tensors,
            tensors_at(data@, at, j as nat) == Ok::<(Seq<TensorView>, int), GgufError>(
                (tensor_views(tensors@), r.pos as int),
            ),
            tensors_at(data@, at, n_tensors as nat) is Err ==> entries_of(data@)
                == Err::<EntriesView, GgufError>(tensors_at(data@, at, n_tensors as nat)->Err_0),
        decreases n_tensors - j,
    {
        let ghost before = tensors@;
        match read_tensor(&mut r) {
            Ok(entry) => {
                tensors.push(entry);
                proof {
                    assert(tensor_views(tensors@) =~= tensor_views(before).push(entry@));
                }
            },
            Err(e) => {
                proof {
                    lemma_tensors_fail(data@, at, (j + 1) as nat, n_tensors as nat);
                }
                return Err(e);
            },
        }
        j += 1;
    }
    Ok(Entries { meta, tensors, header_end: r.pos as u64 })
}

/// Having another key than `key`, as a function.
pub open spec fn other_key(key: Seq<char>) -> spec_fn(MetaView) -> bool {
    |m: MetaView| m.key != key
}

/// The first entry with a key.
pub open spec fn meta_of(meta: Seq<MetaView>, key: Seq<char>) -> Option<MetaView> {
    let at = text::run(meta, other_key(key)) as int;
    if at < meta.len() {
        Some(meta[at])
    } else {
        None
    }
}

/// Finds the first entry with a key.
fn find_meta<'a>(meta: &'a [MetaEntry], key: &str) -> (out: Option<&'a MetaEntry>)
    ensures
        match (out, meta_of(meta_views(meta@), key@)) {
            (Some(m), Some(v)) => m@ == v,
            (None, None) => true,
            _ => false,
        },
{
    let mut i: usize = 0;
    let ghost all = meta_views(meta@);
    while i < meta.len()
        invariant
            i <= meta@.len(),
            all == meta_views(meta@),
            forall|j: int| 0 <= j < i ==> (#[trigger] all[j]).key != key@,
        decreases meta@.len() - i,
    {
        if text::same(meta[i].key.as_str(), key) {
            proof {
                assert(all[i as int] == meta@[i as int]@);
                text::lemma_run_unique(all, other_key(key@), i as int);
            }
            return Some(&meta[i]);
        }
        i += 1;
    }
    proof {
        text::lemma_run_unique(all, other_key(key@), meta@.len() as int);
    }
    None
}

/// The unsigned number that an entry holds, where it holds one.
pub open spec fn unsigned_of(m: MetaView) -> Option<u64> {
    if m.vtype == GGUF_UINT32 && m.raw.len() == 4 {
        Some(le_value(m.raw) as u64)
    } else if m.vtype == GGUF_UINT64 && m.raw.len() == 8 {
        Some(le_value(m.raw) as u64)
    } else {
        None
    }
}

fn unsigned(m: &MetaEntry) -> (out: Option<u64>)
    ensures
        out == unsigned_of(m@),
{
    if m.vtype == GGUF_UINT32 && m.raw.len() == 4 {
        proof {
            assert(bytes_at(m.raw@, 0, 4) =~= m.raw@);
        }
        Some(le_u32(m.raw.as_slice(), 0) as u64)
    } else if m.vtype == GGUF_UINT64 && m.raw.len() == 8 {
        proof {
            assert(bytes_at(m.raw@, 0, 8) =~= m.raw@);
        }
        Some(le_u64(m.raw.as_slice(), 0))
    } else {
        None
    }
}

/// The alignment of the tensor data: the metadata's, 32 where it gives none.
pub open spec fn alignment_of(meta: Seq<MetaView>) -> u64 {
    match meta_of(meta, "general.alignment"@) {
        Some(m) => match unsigned_of(m) {
            Some(n) => n,
            None => 32,
        },
        None => 32,
    }
}

/// The first multiple of `alignment` that is not below `header_end`.
pub open spec fn data_start_of(header_end: nat, alignment: nat) -> nat {
    ((header_end + alignment - 1) as nat / alignment) * alignment
}

/// A parsed header. `data_start` is where the tensor data starts.
pub struct Header {
    pub meta: Vec<MetaEntry>,
    pub tensors: Vec<TensorEntry>,
    pub alignment: u64,
    pub data_start: u64,
    pub file_size: u64,
}

pub fn alignment(meta: &[MetaEntry]) -> (out: u64)
    ensures
        out == alignment_of(meta_views(meta@)),
{
    match find_meta(meta, "general.alignment") {
        Some(m) => match unsigned(m) {
            Some(n) => n,
            None => 32,
        },
        None => 32,
    }
}

/// Whether a header that ends at `header_end` has tensor data at an address
/// that can be computed.
pub open spec fn placeable(header_end: nat, alignment: nat) -> bool {
    &&& alignment > 0
    &&& data_start_of(header_end, alignment) <= u64::MAX
}

proof fn lemma_ceiling(end: int, a: int)
    requires
        a > 0,
        end >= 0,
    ensures
        (end % a == 0) ==> (end + a - 1) / a == end / a,
        (end % a != 0) ==> (end + a - 1) / a == end / a + 1,
        0 <= end % a < a,
        end == (end / a) * a + end % a,
        (end / a + 1) * a == (end / a) * a + a,
{
    let q = end / a;
    let m = end % a;
    lemma_fundamental_div_mod(end, a);
    assert(a * q == q * a) by (nonlinear_arith);
    assert((q + 1) * a == q * a + a) by (nonlinear_arith);
    if m == 0 {
        lemma_fundamental_div_mod_converse(end + a - 1, a, q, a - 1);
    } else {
        lemma_fundamental_div_mod_converse(end + a - 1, a, q + 1, m - 1);
    }
}

/// Whether the tensor data of these entries has an address that can be
/// computed.
pub fn can_place(entries: &Entries) -> (yes: bool)
    ensures
        yes == placeable(
            entries.header_end as nat,
            alignment_of(meta_views(entries.meta@)) as nat,
        ),
{
    let a: u64 = alignment(entries.meta.as_slice());
    if a == 0 {
        return false;
    }
    let end: u64 = entries.header_end;
    proof {
        lemma_ceiling(end as int, a as int);
    }
    if end % a == 0 {
        true
    } else {
        end - end % a <= u64::MAX - a
    }
}

/// Completes the entries to a header.
pub fn place(entries: Entries, file_size: u64) -> (h: Header)
    requires
        placeable(entries.header_end as nat, alignment_of(meta_views(entries.meta@)) as nat),
    ensures
        h.meta == entries.meta,
        h.tensors == entries.tensors,
        h.file_size == file_size,
        h.alignment == alignment_of(meta_views(entries.meta@)),
        h.data_start == data_start_of(entries.header_end as nat, h.alignment as nat),
{
    let a: u64 = alignment(entries.meta.as_slice());
    let end: u64 = entries.header_end;
    proof {
        lemma_ceiling(end as int, a as int);
    }
    let data_start: u64 = if end % a == 0 {
        end
    } else {
        end - end % a + a
    };
    Header {
        meta: entries.meta,
        tensors: entries.tensors,
        alignment: a,
        data_start,
        file_size,
    }
}

/// Reads a header from the bytes at the start of a file of `file_size` bytes.
pub fn parse_header(data: &[u8], file_size: u64) -> (out: Result<Header, GgufError>)
    requires
        entries_of(data@) matches Ok(v) ==> placeable(
            v.header_end as nat,
            alignment_of(v.meta) as nat,
        ),
    ensures
        match (out, entries_of(data@)) {
            (Ok(h), Ok(v)) => {
                &&& meta_views(h.meta@) == v.meta
                &&& tensor_views(h.tensors@) == v.tensors
                &&& h.alignment == alignment_of(v.meta)
                &&& h.data_start == data_start_of(v.header_end as nat, h.alignment as nat)
                &&& h.file_size == file_size
            },
            (Err(e), Err(f)) => e == f,
            _ => false,
        },
{
    match parse_entries(data) {
        Ok(entries) => Ok(place(entries, file_size)),
        Err(e) => Err(e),
    }
}

/// Why a key does not give the value that is asked for.
#[derive(Clone, Copy, Debug, PartialEq, Eq, Structural)]
pub enum MetaError {
    Missing,
    NotString,
    Length,
    NotUnsigned,
}

/// The text under a key.
pub open spec fn meta_string_of(meta: Seq<MetaView>, key: Seq<char>) -> Result<
    Seq<char>,
    MetaError,
> {
    match meta_of(meta, key) {
        None => Err(MetaError::Missing),
        Some(m) => if m.vtype != GGUF_STRING || m.raw.len() < 8 {
            Err(MetaError::NotString)
        } else if 8 + le_value(m.raw.take(8)) != m.raw.len() {
            Err(MetaError::Length)
        } else {
            Ok(text_of(m.raw.skip(8)))
        },
    }
}

pub fn meta_string(h: &Header, key: &str) -> (out: Result<String, MetaError>)
    ensures
        match (out, meta_string_of(meta_views(h.meta@), key@)) {
            (Ok(s), Ok(t)) => s@ == t,
            (Err(e), Err(f)) => e == f,
            _ => false,
        },
{
    let m: &MetaEntry = match find_meta(h.meta.as_slice(), key) {
        Some(m) => m,
        None => return Err(MetaError::Missing),
    };
    if m.vtype != GGUF_STRING || m.raw.len() < 8 {
        return Err(MetaError::NotString);
    }
    let len: u64 = le_u64(m.raw.as_slice(), 0);
    proof {
        assert(bytes_at(m.raw@, 0, 8) =~= m.raw@.take(8));
    }
    if len != m.raw.len() as u64 - 8 {
        return Err(MetaError::Length);
    }
    let rest: &[u8] = vstd::slice::slice_subrange(m.raw.as_slice(), 8, m.raw.len());
    proof {
        assert(rest@ =~= m.raw@.skip(8));
    }
    Ok(utf8_lossy(rest))
}

/// The unsigned number under a key.
pub open spec fn meta_u64_of(meta: Seq<MetaView>, key: Seq<char>) -> Result<u64, MetaError> {
    match meta_of(meta, key) {
        None => Err(MetaError::Missing),
        Some(m) => match unsigned_of(m) {
            Some(n) => Ok(n),
            None => Err(MetaError::NotUnsigned),
        },
    }
}

pub fn meta_u64(h: &Header, key: &str) -> (out: Result<u64, MetaError>)
    ensures
        out == meta_u64_of(meta_views(h.meta@), key@),
{
    match find_meta(h.meta.as_slice(), key) {
        None => Err(MetaError::Missing),
        Some(m) => match unsigned(m) {
            Some(n) => Ok(n),
            None => Err(MetaError::NotUnsigned),
        },
    }
}

/// Where tensor `i` starts in the file.
pub open spec fn start_of(h: Header, i: int) -> int {
    h.data_start + h.tensors@[i].offset
}

/// Where tensor `i` ends: where the next one starts, or at the end of the file.
pub open spec fn stop_of(h: Header, i: int) -> int {
    if i + 1 < h.tensors@.len() {
        start_of(h, i + 1)
    } else {
        h.file_size as int
    }
}

/// Every tensor starts at an address that can be computed and ends after it.
pub open spec fn ascending(h: Header) -> bool {
    forall|i: int|
        0 <= i < h.tensors@.len() ==> #[trigger] start_of(h, i) <= u64::MAX && start_of(h, i)
            <= stop_of(h, i)
}

/// The sizes of the tensors in the file.
pub open spec fn sizes_of(h: Header) -> Seq<u64> {
    Seq::new(h.tensors@.len(), |i: int| (stop_of(h, i) - start_of(h, i)) as u64)
}

pub fn is_ascending(h: &Header) -> (yes: bool)
    ensures
        yes == ascending(*h),
{
    let mut i: usize = 0;
    while i < h.tensors.len()
        invariant
            i <= h.tensors@.len(),
            forall|j: int|
                0 <= j < i ==> #[trigger] start_of(*h, j) <= u64::MAX && start_of(*h, j) <= stop_of(
                    *h,
                    j,
                ),
        decreases h.tensors@.len() - i,
    {
        let start: u64 = match h.data_start.checked_add(h.tensors[i].offset) {
            Some(start) => start,
            None => {
                proof {
                    assert(start_of(*h, i as int) > u64::MAX);
                }
                return false;
            },
        };
        let stop: u64 = if i + 1 < h.tensors.len() {
            match h.data_start.checked_add(h.tensors[i + 1].offset) {
                Some(stop) => stop,
                None => {
                    proof {
                        assert(start_of(*h, i + 1) > u64::MAX);
                    }
                    return false;
                },
            }
        } else {
            h.file_size
        };
        if start > stop {
            proof {
                assert(start_of(*h, i as int) > stop_of(*h, i as int));
            }
            return false;
        }
        i += 1;
    }
    true
}

pub fn on_disk_sizes(h: &Header) -> (sizes: Vec<u64>)
    requires
        ascending(*h),
    ensures
        sizes@ == sizes_of(*h),
{
    let mut sizes: Vec<u64> = Vec::new();
    let mut i: usize = 0;
    while i < h.tensors.len()
        invariant
            ascending(*h),
            i <= h.tensors@.len(),
            sizes@ == sizes_of(*h).take(i as int),
        decreases h.tensors@.len() - i,
    {
        proof {
            assert(start_of(*h, i as int) <= u64::MAX);
            if i + 1 < h.tensors@.len() {
                assert(start_of(*h, i + 1) <= u64::MAX);
            }
        }
        let this: u64 = h.data_start + h.tensors[i].offset;
        let next: u64 = if i + 1 < h.tensors.len() {
            h.data_start + h.tensors[i + 1].offset
        } else {
            h.file_size
        };
        sizes.push(next - this);
        proof {
            assert(sizes@ =~= sizes_of(*h).take(i + 1));
        }
        i += 1;
    }
    proof {
        assert(sizes_of(*h).take(h.tensors@.len() as int) =~= sizes_of(*h));
    }
    sizes
}

/// Why the block cannot be moved.
#[derive(Clone, Copy, Debug, PartialEq, Eq, Structural)]
pub enum GraftError {
    TargetArchitecture(MetaError),
    DonorArchitecture(MetaError),
    ArchitectureMismatch,
    TargetBlocks(MetaError),
    DonorBlocks(MetaError),
    DonorNextn(MetaError),
    /// The donor declares no prediction layers.
    NoNextn,
    /// No tensor of the donor belongs to the block after the target's last.
    NoTensors,
    /// None of the donor's tensors of that block is one of multi-token
    /// prediction.
    NotMtp,
    /// The target has a tensor of the same name as this one of the donor.
    Present(usize),
}

/// One tensor of the file to be written: its entry, and where its data stands.
pub struct Part {
    pub entry: TensorEntry,
    pub from_donor: bool,
    pub start: u64,
    pub size: u64,
}

pub ghost struct PartView {
    pub entry: TensorView,
    pub from_donor: bool,
    pub start: int,
    pub size: u64,
}

impl View for Part {
    type V = PartView;

    open spec fn view(&self) -> PartView {
        PartView {
            entry: self.entry@,
            from_donor: self.from_donor,
            start: self.start as int,
            size: self.size,
        }
    }
}

pub open spec fn part_views(parts: Seq<Part>) -> Seq<PartView> {
    parts.map_values(|p: Part| p@)
}

/// What the grafted file is made of.
pub struct Graft {
    pub meta: Vec<MetaEntry>,
    pub parts: Vec<Part>,
    pub grafted_tensors: usize,
    pub block_count: u64,
    pub nextn_layers: u64,
}

pub ghost struct GraftView {
    pub meta: Seq<MetaView>,
    pub parts: Seq<PartView>,
    pub grafted_tensors: int,
    pub block_count: u64,
    pub nextn_layers: u64,
}

/// The names of a header's tensors.
pub open spec fn names_of(h: Header) -> Seq<Seq<char>> {
    Seq::new(h.tensors@.len(), |i: int| h.tensors@[i].name@)
}

/// Of the first `n` names, the positions of those that start with `prefix`.
pub open spec fn picks(names: Seq<Seq<char>>, prefix: Seq<char>, n: nat) -> Seq<int>
    decreases n,
{
    if n == 0 {
        seq![]
    } else if prefix.is_prefix_of(names[n - 1]) {
        picks(names, prefix, (n - 1) as nat).push(n - 1)
    } else {
        picks(names, prefix, (n - 1) as nat)
    }
}

/// The last of the first `n` positions that has this name, -1 where none has.
pub open spec fn last_named(names: Seq<Seq<char>>, name: Seq<char>, n: nat) -> int
    decreases n,
{
    if n == 0 {
        -1
    } else if names[n - 1] == name {
        n - 1
    } else {
        last_named(names, name, (n - 1) as nat)
    }
}

/// The entries that have neither of two keys.
pub open spec fn without_keys(meta: Seq<MetaView>, a: Seq<char>, b: Seq<char>) -> Seq<MetaView>
    decreases meta.len(),
{
    if meta.len() == 0 {
        seq![]
    } else if meta.last().key != a && meta.last().key != b {
        without_keys(meta.drop_last(), a, b).push(meta.last())
    } else {
        without_keys(meta.drop_last(), a, b)
    }
}

/// The prefix of the names of the tensors of block `block`.
pub open spec fn block_prefix(block: u64) -> Seq<char> {
    "blk."@ + text::decimal_of(block as nat) + "."@
}

/// The part for tensor `i` of the target.
pub open spec fn target_part(t: Header, i: int) -> PartView {
    PartView {
        entry: t.tensors@[i]@,
        from_donor: false,
        start: start_of(t, i),
        size: sizes_of(t)[i],
    }
}

/// The part for tensor `i` of the donor: its data is that of the last tensor
/// with its name.
pub open spec fn donor_part(d: Header, i: int) -> PartView {
    let at = last_named(names_of(d), d.tensors@[i].name@, d.tensors@.len());
    PartView {
        entry: d.tensors@[i]@,
        from_donor: true,
        start: start_of(d, at),
        size: sizes_of(d)[at],
    }
}

/// A donor tensor whose name the target does not have.
pub open spec fn absent(t: Header, d: Header) -> spec_fn(int) -> bool {
    |i: int| !names_of(t).contains(d.tensors@[i].name@)
}

/// The graft of `d`'s block into `t`: the target's metadata but for the two
/// keys that the donor gives, the target's tensors, then the donor's tensors of
/// the block after the target's last one.
pub open spec fn graft_of(t: Header, d: Header) -> Result<GraftView, GraftError> {
    let tm = meta_views(t.meta@);
    let dm = meta_views(d.meta@);
    match (
        meta_string_of(tm, "general.architecture"@),
        meta_string_of(dm, "general.architecture"@),
    ) {
        (Err(e), _) => Err(GraftError::TargetArchitecture(e)),
        (_, Err(e)) => Err(GraftError::DonorArchitecture(e)),
        (Ok(arch), Ok(d_arch)) => {
            let block_key = arch + ".block_count"@;
            let nextn_key = arch + ".nextn_predict_layers"@;
            if d_arch != arch {
                Err(GraftError::ArchitectureMismatch)
            } else {
                match (
                    meta_u64_of(tm, block_key),
                    meta_u64_of(dm, block_key),
                    meta_u64_of(dm, nextn_key),
                ) {
                    (Err(e), _, _) => Err(GraftError::TargetBlocks(e)),
                    (_, Err(e), _) => Err(GraftError::DonorBlocks(e)),
                    (_, _, Err(e)) => Err(GraftError::DonorNextn(e)),
                    (Ok(t_block), Ok(d_block), Ok(d_nextn)) => {
                        let extra = picks(
                            names_of(d),
                            block_prefix(t_block),
                            d.tensors@.len(),
                        );
                        let clear = text::run(extra, absent(t, d));
                        if d_nextn == 0 {
                            Err(GraftError::NoNextn)
                        } else if extra.len() == 0 {
                            Err(GraftError::NoTensors)
                        } else if forall|k: int|
                            0 <= k < extra.len() ==> !text::holds(
                                d.tensors@[#[trigger] extra[k]].name@,
                                ".nextn."@,
                            ) {
                            Err(GraftError::NotMtp)
                        } else if clear < extra.len() {
                            Err(GraftError::Present(extra[clear as int] as usize))
                        } else {
                            Ok(
                                GraftView {
                                    meta: without_keys(tm, block_key, nextn_key).push(
                                        meta_of(dm, block_key)->0,
                                    ).push(meta_of(dm, nextn_key)->0),
                                    parts: Seq::new(
                                        t.tensors@.len(),
                                        |i: int| target_part(t, i),
                                    ) + Seq::new(
                                        extra.len(),
                                        |k: int| donor_part(d, extra[k]),
                                    ),
                                    grafted_tensors: extra.len() as int,
                                    block_count: d_block,
                                    nextn_layers: d_nextn,
                                },
                            )
                        }
                    },
                }
            }
        },
    }
}

impl TensorEntry {
    pub fn copy(&self) -> (out: TensorEntry)
        ensures
            out@ == self@,
    {
        TensorEntry {
            name: self.name.clone(),
            dims: self.dims.clone(),
            ggml_type: self.ggml_type,
            offset: self.offset,
        }
    }
}

/// Every pick is a position with the prefix.
proof fn lemma_picks(names: Seq<Seq<char>>, prefix: Seq<char>, n: nat)
    requires
        n <= names.len(),
    ensures
        forall|k: int|
            0 <= k < picks(names, prefix, n).len() ==> 0 <= #[trigger] picks(names, prefix, n)[k]
                && picks(names, prefix, n)[k] < n,
    decreases n,
{
    if n > 0 {
        let less = picks(names, prefix, (n - 1) as nat);
        lemma_picks(names, prefix, (n - 1) as nat);
        assert forall|k: int| 0 <= k < picks(names, prefix, n).len() implies 0
            <= #[trigger] picks(names, prefix, n)[k] && picks(names, prefix, n)[k] < n by {
            if k < less.len() {
                assert(0 <= less[k] && less[k] < n - 1);
                assert(picks(names, prefix, n)[k] == less[k]);
            }
        }
    }
}

proof fn lemma_last_named(names: Seq<Seq<char>>, i: int, n: nat)
    requires
        0 <= i < n <= names.len(),
    ensures
        i <= last_named(names, names[i], n) < n,
        names[last_named(names, names[i], n)] == names[i],
    decreases n,
{
    if names[n - 1] != names[i] {
        lemma_last_named(names, i, (n - 1) as nat);
    }
}

/// The donor's tensors of a block, by position.
fn block_tensors(d: &Header, prefix: &str) -> (out: Vec<usize>)
    ensures
        out@.map_values(|i: usize| i as int) == picks(names_of(*d), prefix@, d.tensors@.len()),
        out@.len() == picks(names_of(*d), prefix@, d.tensors@.len()).len(),
        forall|k: int|
            0 <= k < out@.len() ==> #[trigger] out@[k] == picks(
                names_of(*d),
                prefix@,
                d.tensors@.len(),
            )[k] && out@[k] < d.tensors@.len(),
{
    let mut out: Vec<usize> = Vec::new();
    let mut i: usize = 0;
    proof {
        assert(out@.map_values(|i: usize| i as int) =~= seq![]);
    }
    while i < d.tensors.len()
        invariant
            i <= d.tensors@.len(),
            out@.map_values(|i: usize| i as int) == picks(names_of(*d), prefix@, i as nat),
        decreases d.tensors@.len() - i,
    {
        let ghost before = out@;
        if text::starts_with(d.tensors[i].name.as_str(), prefix) {
            out.push(i);
            proof {
                assert(out@.map_values(|i: usize| i as int) =~= before.map_values(
                    |i: usize| i as int,
                ).push(i as int));
            }
        }
        i += 1;
    }
    proof {
        let chosen = picks(names_of(*d), prefix@, d.tensors@.len());
        lemma_picks(names_of(*d), prefix@, d.tensors@.len());
        assert forall|k: int| 0 <= k < out@.len() implies #[trigger] out@[k] == chosen[k] && out@[k]
            < d.tensors@.len() by {
            assert(chosen[k] == out@.map_values(|i: usize| i as int)[k]);
        }
    }
    out
}

fn find_last(d: &Header, name: &str) -> (out: Option<usize>)
    ensures
        out matches Some(i) ==> i == last_named(names_of(*d), name@, d.tensors@.len()),
        out is None ==> last_named(names_of(*d), name@, d.tensors@.len()) == -1,
{
    let mut i: usize = d.tensors.len();
    while i > 0
        invariant
            i <= d.tensors@.len(),
            last_named(names_of(*d), name@, i as nat) == last_named(
                names_of(*d),
                name@,
                d.tensors@.len(),
            ),
        decreases i,
    {
        if text::same(d.tensors[i - 1].name.as_str(), name) {
            return Some(i - 1);
        }
        i -= 1;
    }
    None
}

fn has_tensor(t: &Header, name: &str) -> (yes: bool)
    ensures
        yes == names_of(*t).contains(name@),
{
    let mut i: usize = 0;
    while i < t.tensors.len()
        invariant
            i <= t.tensors@.len(),
            forall|j: int| 0 <= j < i ==> names_of(*t)[j] != name@,
        decreases t.tensors@.len() - i,
    {
        if text::same(t.tensors[i].name.as_str(), name) {
            proof {
                assert(names_of(*t)[i as int] == name@);
            }
            return true;
        }
        i += 1;
    }
    false
}

fn keep_meta(meta: &[MetaEntry], a: &str, b: &str) -> (out: Vec<MetaEntry>)
    ensures
        meta_views(out@) == without_keys(meta_views(meta@), a@, b@),
{
    let mut out: Vec<MetaEntry> = Vec::new();
    let mut i: usize = 0;
    proof {
        assert(meta_views(out@) =~= seq![]);
        assert(meta_views(meta@).take(0) =~= seq![]);
    }
    while i < meta.len()
        invariant
            i <= meta@.len(),
            meta_views(out@) == without_keys(meta_views(meta@).take(i as int), a@, b@),
        decreases meta@.len() - i,
    {
        let ghost before = out@;
        proof {
            let now = meta_views(meta@).take(i + 1);
            assert(now.drop_last() =~= meta_views(meta@).take(i as int));
            assert(now.last() == meta@[i as int]@);
        }
        if !text::same(meta[i].key.as_str(), a) && !text::same(meta[i].key.as_str(), b) {
            out.push(meta[i].copy());
            proof {
                assert(meta_views(out@) =~= meta_views(before).push(meta@[i as int]@));
            }
        }
        i += 1;
    }
    proof {
        assert(meta_views(meta@).take(meta@.len() as int) =~= meta_views(meta@));
    }
    out
}

/// Chooses what the grafted file is made of.
pub fn select_graft(t: &Header, d: &Header) -> (out: Result<Graft, GraftError>)
    requires
        ascending(*t),
        ascending(*d),
    ensures
        match (out, graft_of(*t, *d)) {
            (Ok(g), Ok(v)) => {
                &&& meta_views(g.meta@) == v.meta
                &&& part_views(g.parts@) == v.parts
                &&& g.grafted_tensors == v.grafted_tensors
                &&& g.block_count == v.block_count
                &&& g.nextn_layers == v.nextn_layers
            },
            (Err(e), Err(f)) => e == f,
            _ => false,
        },
{
    let arch: String = match meta_string(t, "general.architecture") {
        Ok(s) => s,
        Err(e) => return Err(GraftError::TargetArchitecture(e)),
    };
    let d_arch: String = match meta_string(d, "general.architecture") {
        Ok(s) => s,
        Err(e) => return Err(GraftError::DonorArchitecture(e)),
    };
    if !text::same(d_arch.as_str(), arch.as_str()) {
        return Err(GraftError::ArchitectureMismatch);
    }
    let block_key: String = arch.clone().concat(".block_count");
    let nextn_key: String = arch.clone().concat(".nextn_predict_layers");
    let t_block: u64 = match meta_u64(t, block_key.as_str()) {
        Ok(n) => n,
        Err(e) => return Err(GraftError::TargetBlocks(e)),
    };
    let d_block: u64 = match meta_u64(d, block_key.as_str()) {
        Ok(n) => n,
        Err(e) => return Err(GraftError::DonorBlocks(e)),
    };
    let d_nextn: u64 = match meta_u64(d, nextn_key.as_str()) {
        Ok(n) => n,
        Err(e) => return Err(GraftError::DonorNextn(e)),
    };
    if d_nextn == 0 {
        return Err(GraftError::NoNextn);
    }
    let mut prefix: String = String::from_str("blk.");
    prefix.append(text::decimal(t_block).as_str());
    prefix.append(".");
    let extra: Vec<usize> = block_tensors(d, prefix.as_str());
    let ghost chosen = picks(names_of(*d), block_prefix(t_block), d.tensors@.len());
    proof {
        assert(prefix@ == block_prefix(t_block));
    }
    if extra.len() == 0 {
        return Err(GraftError::NoTensors);
    }
    let mut mtp: bool = false;
    let mut k: usize = 0;
    while k < extra.len()
        invariant
            k <= extra@.len(),
            extra@.len() == chosen.len(),
            forall|j: int|
                0 <= j < extra@.len() ==> #[trigger] extra@[j] == chosen[j] && extra@[j]
                    < d.tensors@.len(),
            mtp <==> exists|j: int|
                0 <= j < k && text::holds(d.tensors@[#[trigger] chosen[j]].name@, ".nextn."@),
        decreases extra@.len() - k,
    {
        proof {
            assert(chosen[k as int] == extra@[k as int]);
        }
        if text::contains(d.tensors[extra[k]].name.as_str(), ".nextn.") {
            mtp = true;
        }
        k += 1;
    }
    if !mtp {
        return Err(GraftError::NotMtp);
    }
    let mut k: usize = 0;
    while k < extra.len()
        invariant
            k <= extra@.len(),
            extra@.len() == chosen.len(),
            forall|j: int|
                0 <= j < extra@.len() ==> #[trigger] extra@[j] == chosen[j] && extra@[j]
                    < d.tensors@.len(),
            forall|j: int| 0 <= j < k ==> absent(*t, *d)(#[trigger] chosen[j]),
            forall|at: int|
                text::run(chosen, absent(*t, *d)) == at && at < chosen.len() ==> graft_of(*t, *d)
                    == Err::<GraftView, GraftError>(GraftError::Present(#[trigger] chosen[at] as usize)),
        decreases extra@.len() - k,
    {
        proof {
            assert(chosen[k as int] == extra@[k as int]);
        }
        if has_tensor(t, d.tensors[extra[k]].name.as_str()) {
            proof {
                text::lemma_run_unique(chosen, absent(*t, *d), k as int);
            }
            return Err(GraftError::Present(extra[k]));
        }
        k += 1;
    }
    proof {
        text::lemma_run_unique(chosen, absent(*t, *d), extra@.len() as int);
    }
    let t_sizes: Vec<u64> = on_disk_sizes(t);
    let d_sizes: Vec<u64> = on_disk_sizes(d);
    let mut meta: Vec<MetaEntry> = keep_meta(
        t.meta.as_slice(),
        block_key.as_str(),
        nextn_key.as_str(),
    );
    let ghost kept = meta@;
    match (
        find_meta(d.meta.as_slice(), block_key.as_str()),
        find_meta(d.meta.as_slice(), nextn_key.as_str()),
    ) {
        (Some(block), Some(nextn)) => {
            meta.push(block.copy());
            meta.push(nextn.copy());
            proof {
                assert(meta_views(meta@) =~= meta_views(kept).push(block@).push(nextn@));
            }
        },
        _ => {
            assert(false);
        },
    }
    let mut parts: Vec<Part> = Vec::new();
    let mut i: usize = 0;
    let ghost whole = Seq::new(t.tensors@.len(), |i: int| target_part(*t, i)) + Seq::new(
        chosen.len(),
        |k: int| donor_part(*d, chosen[k]),
    );
    while i < t.tensors.len()
        invariant
            ascending(*t),
            i <= t.tensors@.len(),
            t_sizes@ == sizes_of(*t),
            whole.len() >= t.tensors@.len(),
            forall|j: int| 0 <= j < t.tensors@.len() ==> #[trigger] whole[j] == target_part(*t, j),
            part_views(parts@) =~= whole.take(i as int),
        decreases t.tensors@.len() - i,
    {
        let ghost before = parts@;
        proof {
            assert(start_of(*t, i as int) <= u64::MAX);
            assert(whole[i as int] == target_part(*t, i as int));
        }
        parts.push(
            Part {
                entry: t.tensors[i].copy(),
                from_donor: false,
                start: t.data_start + t.tensors[i].offset,
                size: t_sizes[i],
            },
        );
        proof {
            assert(part_views(parts@) =~= part_views(before).push(whole[i as int]));
        }
        i += 1;
    }
    let mut k: usize = 0;
    while k < extra.len()
        invariant
            ascending(*d),
            k <= extra@.len(),
            extra@.len() == chosen.len(),
            forall|j: int|
                0 <= j < extra@.len() ==> #[trigger] extra@[j] == chosen[j] && extra@[j]
                    < d.tensors@.len(),
            d_sizes@ == sizes_of(*d),
            whole.len() == t.tensors@.len() + chosen.len(),
            forall|j: int|
                0 <= j < chosen.len() ==> whole[t.tensors@.len() + j] == donor_part(
                    *d,
                    #[trigger] chosen[j],
                ),
            part_views(parts@) =~= whole.take(t.tensors@.len() + k),
        decreases extra@.len() - k,
    {
        let ghost before = parts@;
        proof {
            assert(chosen[k as int] == extra@[k as int]);
            assert(names_of(*d)[chosen[k as int]] == d.tensors@[chosen[k as int]].name@);
            lemma_last_named(names_of(*d), chosen[k as int], d.tensors@.len());
        }
        let entry: &TensorEntry = &d.tensors[extra[k]];
        match find_last(d, entry.name.as_str()) {
            Some(at) => {
                proof {
                    assert(start_of(*d, at as int) <= u64::MAX);
                }
                parts.push(
                    Part {
                        entry: entry.copy(),
                        from_donor: true,
                        start: d.data_start + d.tensors[at].offset,
                        size: d_sizes[at],
                    },
                );
                proof {
                    assert(part_views(parts@) =~= part_views(before).push(
                        donor_part(*d, chosen[k as int]),
                    ));
                    assert(whole.take(t.tensors@.len() + k + 1) =~= whole.take(
                        t.tensors@.len() + k,
                    ).push(whole[t.tensors@.len() + k]));
                }
            },
            None => {
                assert(false);
            },
        }
        k += 1;
    }
    proof {
        assert(whole.take(whole.len() as int) =~= whole);
    }
    Ok(
        Graft {
            meta,
            parts,
            grafted_tensors: extra.len(),
            block_count: d_block,
            nextn_layers: d_nextn,
        },
    )
}

/// The bytes of one metadata entry.
pub open spec fn meta_bytes(m: MetaView) -> Seq<u8> {
    text_bytes(m.key) + le_bytes(m.vtype as nat, 4) + m.raw
}

pub open spec fn metas_bytes(meta: Seq<MetaView>) -> Seq<u8>
    decreases meta.len(),
{
    if meta.len() == 0 {
        seq![]
    } else {
        metas_bytes(meta.drop_last()) + meta_bytes(meta.last())
    }
}

pub open spec fn dims_bytes(dims: Seq<u64>) -> Seq<u8>
    decreases dims.len(),
{
    if dims.len() == 0 {
        seq![]
    } else {
        dims_bytes(dims.drop_last()) + le_bytes(dims.last() as nat, 8)
    }
}

/// The bytes of one tensor entry.
pub open spec fn tensor_bytes(t: TensorView) -> Seq<u8> {
    text_bytes(t.name) + le_bytes(t.dims.len() as u32 as nat, 4) + dims_bytes(t.dims) + le_bytes(
        t.ggml_type as nat,
        4,
    ) + le_bytes(t.offset as nat, 8)
}

pub open spec fn tensors_bytes(tensors: Seq<TensorView>) -> Seq<u8>
    decreases tensors.len(),
{
    if tensors.len() == 0 {
        seq![]
    } else {
        tensors_bytes(tensors.drop_last()) + tensor_bytes(tensors.last())
    }
}

/// The bytes of a header.
pub open spec fn header_bytes(meta: Seq<MetaView>, tensors: Seq<TensorView>) -> Seq<u8> {
    magic() + le_bytes(3, 4) + le_bytes(tensors.len(), 8) + le_bytes(meta.len(), 8) + metas_bytes(
        meta,
    ) + tensors_bytes(tensors)
}

/// The sum of the sizes of some parts.
pub open spec fn total_size(parts: Seq<PartView>) -> nat
    decreases parts.len(),
{
    if parts.len() == 0 {
        0
    } else {
        total_size(parts.drop_last()) + parts.last().size as nat
    }
}

/// The tensor entries of the parts, each with the offset behind the one before.
pub open spec fn placed(parts: Seq<PartView>) -> Seq<TensorView> {
    Seq::new(
        parts.len(),
        |i: int|
            TensorView {
                name: parts[i].entry.name,
                dims: parts[i].entry.dims,
                ggml_type: parts[i].entry.ggml_type,
                offset: total_size(parts.take(i)) as u64,
            },
    )
}

pub open spec fn zeros(n: nat) -> Seq<u8> {
    Seq::new(n, |i: int| 0u8)
}

/// How many bytes bring a length up to a multiple of `alignment`.
pub open spec fn padding(len: int, alignment: int) -> int {
    (alignment - len % alignment) % alignment
}

/// A sum of sizes does not shrink as parts are added.
proof fn lemma_total_grows(parts: Seq<PartView>, n: int)
    requires
        0 <= n <= parts.len(),
    ensures
        total_size(parts.take(n)) <= total_size(parts),
    decreases parts.len() - n,
{
    if n < parts.len() {
        lemma_total_grows(parts, n + 1);
        assert(parts.take(n + 1).drop_last() =~= parts.take(n));
    } else {
        assert(parts.take(n) =~= parts);
    }
}

/// The number of bytes of tensor data, where it can be counted.
pub fn graft_total(g: &Graft) -> (out: Option<u64>)
    ensures
        match out {
            Some(n) => n == total_size(part_views(g.parts@)),
            None => total_size(part_views(g.parts@)) > u64::MAX,
        },
{
    let ghost all = part_views(g.parts@);
    let mut sum: u64 = 0;
    let mut i: usize = 0;
    while i < g.parts.len()
        invariant
            all == part_views(g.parts@),
            i <= g.parts@.len(),
            sum == total_size(all.take(i as int)),
        decreases g.parts@.len() - i,
    {
        proof {
            assert(all.take(i + 1).drop_last() =~= all.take(i as int));
            lemma_total_grows(all, i + 1);
        }
        match sum.checked_add(g.parts[i].size) {
            Some(n) => {
                sum = n;
            },
            None => {
                return None;
            },
        }
        i += 1;
    }
    proof {
        assert(all.take(all.len() as int) =~= all);
    }
    Some(sum)
}

fn write_meta(w: &mut Vec<u8>, m: &MetaEntry)
    ensures
        final(w)@ == old(w)@ + meta_bytes(m@),
{
    write_string(w, m.key.as_str());
    write_u32(w, m.vtype);
    extend(w, &m.raw);
    proof {
        assert(w@ =~= old(w)@ + meta_bytes(m@));
    }
}

fn write_tensor(w: &mut Vec<u8>, x: &TensorEntry, offset: u64)
    ensures
        final(w)@ == old(w)@ + tensor_bytes(
            (TensorView {
                name: x.name@,
                dims: x.dims@,
                ggml_type: x.ggml_type,
                offset,
            }),
        ),
{
    write_string(w, x.name.as_str());
    write_u32(w, x.dims.len() as u32);
    let ghost head = w@;
    let mut i: usize = 0;
    proof {
        assert(x.dims@.take(0) =~= seq![]);
        assert(head + dims_bytes(x.dims@.take(0)) =~= head);
    }
    while i < x.dims.len()
        invariant
            i <= x.dims@.len(),
            w@ == head + dims_bytes(x.dims@.take(i as int)),
        decreases x.dims@.len() - i,
    {
        write_u64(w, x.dims[i]);
        proof {
            assert(x.dims@.take(i + 1).drop_last() =~= x.dims@.take(i as int));
            assert(w@ =~= head + dims_bytes(x.dims@.take(i + 1)));
        }
        i += 1;
    }
    proof {
        assert(x.dims@.take(x.dims@.len() as int) =~= x.dims@);
    }
    write_u32(w, x.ggml_type);
    write_u64(w, offset);
    proof {
        assert(w@ =~= old(w)@ + tensor_bytes(
            TensorView { name: x.name@, dims: x.dims@, ggml_type: x.ggml_type, offset },
        ));
    }
}

/// The header of the grafted file, filled up to the alignment.
pub fn graft_header(g: &Graft, alignment: u64) -> (w: Vec<u8>)
    requires
        total_size(part_views(g.parts@)) <= u64::MAX,
        alignment > 0,
    ensures
        ({
            let header = header_bytes(meta_views(g.meta@), placed(part_views(g.parts@)));
            w@ == header + zeros(padding(header.len() as int, alignment as int) as nat)
        }),
{
    let ghost meta = meta_views(g.meta@);
    let ghost parts = part_views(g.parts@);
    let ghost tensors = placed(parts);
    let mut w: Vec<u8> = Vec::new();
    w.push(0x47);
    w.push(0x47);
    w.push(0x55);
    w.push(0x46);
    write_u32(&mut w, 3);
    write_u64(&mut w, g.parts.len() as u64);
    write_u64(&mut w, g.meta.len() as u64);
    let ghost head = magic() + le_bytes(3, 4) + le_bytes(tensors.len(), 8) + le_bytes(
        meta.len(),
        8,
    );
    proof {
        assert(w@ =~= head);
        assert(meta.take(0) =~= seq![]);
        assert(head + metas_bytes(meta.take(0)) =~= head);
    }
    let mut i: usize = 0;
    while i < g.meta.len()
        invariant
            i <= g.meta@.len(),
            meta == meta_views(g.meta@),
            w@ == head + metas_bytes(meta.take(i as int)),
        decreases g.meta@.len() - i,
    {
        write_meta(&mut w, &g.meta[i]);
        proof {
            assert(meta.take(i + 1).drop_last() =~= meta.take(i as int));
            assert(w@ =~= head + metas_bytes(meta.take(i + 1)));
        }
        i += 1;
    }
    let ghost front = head + metas_bytes(meta);
    let mut offset: u64 = 0;
    let mut k: usize = 0;
    proof {
        assert(meta.take(meta.len() as int) =~= meta);
        assert(tensors.take(0) =~= seq![]);
        assert(front + tensors_bytes(tensors.take(0)) =~= front);
    }
    while k < g.parts.len()
        invariant
            k <= g.parts@.len(),
            parts == part_views(g.parts@),
            tensors == placed(parts),
            total_size(parts) <= u64::MAX,
            offset == total_size(parts.take(k as int)),
            w@ == front + tensors_bytes(tensors.take(k as int)),
        decreases g.parts@.len() - k,
    {
        let part: &Part = &g.parts[k];
        write_tensor(&mut w, &part.entry, offset);
        proof {
            assert(tensors.take(k + 1).drop_last() =~= tensors.take(k as int));
            assert(w@ =~= front + tensors_bytes(tensors.take(k + 1)));
            lemma_total_grows(parts, k + 1);
            assert(parts.take(k + 1).drop_last() =~= parts.take(k as int));
        }
        offset = offset + part.size;
        k += 1;
    }
    proof {
        assert(tensors.take(tensors.len() as int) =~= tensors);
    }
    let ghost header = header_bytes(meta, tensors);
    assert(w@ =~= header);
    let rest: u64 = (w.len() as u64) % alignment;
    let pad: u64 = (alignment - rest) % alignment;
    let mut i: u64 = 0;
    while i < pad
        invariant
            i <= pad,
            w@ =~= header + zeros(i as nat),
        decreases pad - i,
    {
        w.push(0);
        i += 1;
    }
    w
}

/// What moving a block came to.
pub struct GraftReport {
    pub grafted_tensors: usize,
    pub total_tensors: usize,
    pub block_count: u64,
    pub nextn_layers: u64,
    pub output_bytes: u64,
}

/// What is to be written: the header, then the data of each part.
pub struct GraftPlan {
    pub header: Vec<u8>,
    pub parts: Vec<Part>,
    pub report: GraftReport,
}

/// What writes the graft `v` of a target with this alignment.
pub open spec fn plans(plan: GraftPlan, v: GraftView, alignment: u64) -> bool {
    let header = header_bytes(v.meta, placed(v.parts));
    &&& plan.header@ == header + zeros(padding(header.len() as int, alignment as int) as nat)
    &&& part_views(plan.parts@) == v.parts
    &&& plan.report.grafted_tensors == v.grafted_tensors
    &&& plan.report.total_tensors == v.parts.len()
    &&& plan.report.block_count == v.block_count
    &&& plan.report.nextn_layers == v.nextn_layers
    &&& plan.report.output_bytes == total_size(v.parts)
}

/// Plans how the multi-token-prediction block of `d` is moved into `t`.
pub fn graft_mtp(t: &Header, d: &Header) -> (out: Result<GraftPlan, GraftError>)
    requires
        ascending(*t),
        ascending(*d),
        t.alignment > 0,
        graft_of(*t, *d) matches Ok(v) ==> total_size(v.parts) <= u64::MAX,
    ensures
        match (out, graft_of(*t, *d)) {
            (Ok(plan), Ok(v)) => plans(plan, v, t.alignment),
            (Err(e), Err(f)) => e == f,
            _ => false,
        },
{
    match select_graft(t, d) {
        Ok(g) => {
            let header: Vec<u8> = graft_header(&g, t.alignment);
            let output_bytes: u64 = match graft_total(&g) {
                Some(n) => n,
                None => 0,
            };
            let report: GraftReport = GraftReport {
                grafted_tensors: g.grafted_tensors,
                total_tensors: g.parts.len(),
                block_count: g.block_count,
                nextn_layers: g.nextn_layers,
                output_bytes,
            };
            Ok(GraftPlan { header, parts: g.parts, report })
        },
        Err(e) => Err(e),
    }
}

/// Whether `piece` stands in `data` at `pos`.
spec fn stands(data: Seq<u8>, pos: int, piece: Seq<u8>) -> bool {
    &&& 0 <= pos
    &&& pos + piece.len() <= data.len()
    &&& bytes_at(data, pos, pos + piece.len()) == piece
}

/// What stands somewhere stands there in two parts.
proof fn lemma_stands_parts(data: Seq<u8>, pos: int, a: Seq<u8>, b: Seq<u8>)
    requires
        stands(data, pos, a + b),
    ensures
        stands(data, pos, a),
        stands(data, pos + a.len(), b),
        bytes_at(data, pos, pos + a.len()) == a,
{
    let whole = bytes_at(data, pos, pos + (a + b).len());
    assert(bytes_at(data, pos, pos + a.len()) =~= whole.take(a.len() as int));
    assert(a =~= (a + b).take(a.len() as int));
    assert(bytes_at(data, pos + a.len(), pos + a.len() + b.len()) =~= whole.skip(a.len() as int));
    assert(b =~= (a + b).skip(a.len() as int));
}

proof fn lemma_number_stands(data: Seq<u8>, pos: int, n: nat, width: nat)
    requires
        stands(data, pos, le_bytes(n, width)),
        (width == 4 && n <= u32::MAX) || (width == 8 && n <= u64::MAX),
    ensures
        number_at(data, pos, width) == Ok::<nat, GgufError>(n),
{
    lemma_le_bytes_len(n, width);
    lemma_le_round_trip(n);
    assert(bytes_at(data, pos, pos + width) =~= le_bytes(n, width));
}

proof fn lemma_text_stands(data: Seq<u8>, pos: int, s: Seq<char>)
    requires
        stands(data, pos, text_bytes(s)),
        encode_utf8(s).len() <= MAX_STRING,
    ensures
        text_at(data, pos) == Ok::<(Seq<char>, int), GgufError>((s, pos + text_bytes(s).len())),
{
    let bytes = encode_utf8(s);
    lemma_le_bytes_len(bytes.len(), 8);
    lemma_stands_parts(data, pos, le_bytes(bytes.len(), 8), bytes);
    lemma_number_stands(data, pos, bytes.len(), 8);
    assert(bytes_at(data, pos + 8, pos + 8 + bytes.len()) =~= bytes);
    encode_utf8_valid_utf8(s);
    encode_utf8_decode_utf8(s);
}

/// A value is read the same way wherever it stands.
proof fn lemma_value_stands(data: Seq<u8>, pos: int, raw: Seq<u8>, at: int, vt: u32)
    requires
        stands(data, pos, raw),
        0 <= at <= raw.len(),
        value_end(raw, at, vt) is Ok,
    ensures
        value_end(data, pos + at, vt) == Ok::<int, GgufError>(pos + value_end(raw, at, vt)->Ok_0),
    decreases raw.len() - at, 0nat,
{
    assert forall|a: int, b: int| 0 <= a <= b <= raw.len() implies #[trigger] bytes_at(raw, a, b)
        == bytes_at(data, pos + a, pos + b) by {
        assert(bytes_at(raw, a, b) =~= bytes_at(data, pos + a, pos + b)) by {
            assert(raw == bytes_at(data, pos, pos + raw.len()));
        }
    }
    if vt == GGUF_STRING {
        assert(bytes_at(raw, at, at + 8) == bytes_at(data, pos + at, pos + at + 8));
    } else if vt == GGUF_ARRAY {
        assert(bytes_at(raw, at, at + 4) == bytes_at(data, pos + at, pos + at + 4));
        assert(bytes_at(raw, at + 4, at + 12) == bytes_at(data, pos + at + 4, pos + at + 12));
        let elem = number_at(raw, at, 4)->Ok_0;
        let count = number_at(raw, at + 4, 8)->Ok_0;
        if elem == GGUF_STRING || elem == GGUF_ARRAY {
            lemma_elements_stand(data, pos, raw, at + 12, elem as u32, count);
        }
    }
}

proof fn lemma_elements_stand(
    data: Seq<u8>,
    pos: int,
    raw: Seq<u8>,
    at: int,
    elem: u32,
    count: nat,
)
    requires
        stands(data, pos, raw),
        0 <= at <= raw.len(),
        elements_end(raw, at, elem, count) is Ok,
    ensures
        elements_end(data, pos + at, elem, count) == Ok::<int, GgufError>(
            pos + elements_end(raw, at, elem, count)->Ok_0,
        ),
    decreases raw.len() - at, count + 1,
{
    if count > 0 {
        lemma_elements_stand(data, pos, raw, at, elem, (count - 1) as nat);
        let then = elements_end(raw, at, elem, (count - 1) as nat)->Ok_0;
        lemma_value_stands(data, pos, raw, then, elem);
    }
}

/// An entry as reading gives them: a key of readable length, and the bytes of
/// one whole value.
pub open spec fn readable_meta(m: MetaView) -> bool {
    &&& encode_utf8(m.key).len() <= MAX_STRING
    &&& value_end(m.raw, 0, m.vtype) == Ok::<int, GgufError>(m.raw.len() as int)
}

/// A tensor entry as reading gives them.
pub open spec fn readable_tensor(t: TensorView) -> bool {
    &&& encode_utf8(t.name).len() <= MAX_STRING
    &&& t.dims.len() <= MAX_DIMS
}

proof fn lemma_meta_stands(data: Seq<u8>, pos: int, m: MetaView)
    requires
        stands(data, pos, meta_bytes(m)),
        readable_meta(m),
    ensures
        meta_at(data, pos) == Ok::<(MetaView, int), GgufError>((m, pos + meta_bytes(m).len())),
{
    let key = text_bytes(m.key);
    let kind = le_bytes(m.vtype as nat, 4);
    lemma_le_bytes_len(m.vtype as nat, 4);
    lemma_stands_parts(data, pos, key + kind, m.raw);
    lemma_stands_parts(data, pos, key, kind);
    lemma_text_stands(data, pos, m.key);
    lemma_number_stands(data, pos + key.len(), m.vtype as nat, 4);
    let at = pos + key.len() + 4;
    lemma_value_stands(data, at, m.raw, 0, m.vtype);
    assert(bytes_at(data, at, at + m.raw.len()) =~= m.raw);
}

proof fn lemma_metas_stand(data: Seq<u8>, pos: int, meta: Seq<MetaView>)
    requires
        stands(data, pos, metas_bytes(meta)),
        forall|i: int| 0 <= i < meta.len() ==> readable_meta(#[trigger] meta[i]),
    ensures
        metas_at(data, pos, meta.len()) == Ok::<(Seq<MetaView>, int), GgufError>(
            (meta, pos + metas_bytes(meta).len()),
        ),
    decreases meta.len(),
{
    if meta.len() > 0 {
        let less = meta.drop_last();
        lemma_stands_parts(data, pos, metas_bytes(less), meta_bytes(meta.last()));
        assert forall|i: int| 0 <= i < less.len() implies readable_meta(#[trigger] less[i]) by {
            assert(less[i] == meta[i]);
        }
        lemma_metas_stand(data, pos, less);
        lemma_meta_stands(data, pos + metas_bytes(less).len(), meta.last());
        assert(less.push(meta.last()) =~= meta);
    } else {
        assert(meta =~= seq![]);
    }
}

proof fn lemma_dims_stand(data: Seq<u8>, pos: int, dims: Seq<u64>)
    requires
        stands(data, pos, dims_bytes(dims)),
    ensures
        dims_at(data, pos, dims.len()) == Ok::<(Seq<u64>, int), GgufError>(
            (dims, pos + dims_bytes(dims).len()),
        ),
    decreases dims.len(),
{
    if dims.len() > 0 {
        let less = dims.drop_last();
        let last = le_bytes(dims.last() as nat, 8);
        lemma_le_bytes_len(dims.last() as nat, 8);
        lemma_stands_parts(data, pos, dims_bytes(less), last);
        lemma_dims_stand(data, pos, less);
        lemma_number_stands(data, pos + dims_bytes(less).len(), dims.last() as nat, 8);
        assert(less.push(dims.last()) =~= dims);
    } else {
        assert(dims =~= seq![]);
    }
}

proof fn lemma_tensor_stands(data: Seq<u8>, pos: int, t: TensorView)
    requires
        stands(data, pos, tensor_bytes(t)),
        readable_tensor(t),
    ensures
        tensor_at(data, pos) == Ok::<(TensorView, int), GgufError>(
            (t, pos + tensor_bytes(t).len()),
        ),
{
    let name = text_bytes(t.name);
    let count = le_bytes(t.dims.len() as u32 as nat, 4);
    let dims = dims_bytes(t.dims);
    let kind = le_bytes(t.ggml_type as nat, 4);
    let offset = le_bytes(t.offset as nat, 8);
    lemma_le_bytes_len(t.dims.len() as u32 as nat, 4);
    lemma_le_bytes_len(t.ggml_type as nat, 4);
    lemma_le_bytes_len(t.offset as nat, 8);
    lemma_stands_parts(data, pos, name + count + dims + kind, offset);
    lemma_stands_parts(data, pos, name + count + dims, kind);
    lemma_stands_parts(data, pos, name + count, dims);
    lemma_stands_parts(data, pos, name, count);
    lemma_text_stands(data, pos, t.name);
    let at = pos + name.len();
    lemma_number_stands(data, at, t.dims.len() as u32 as nat, 4);
    lemma_dims_stand(data, at + 4, t.dims);
    let then = at + 4 + dims.len();
    lemma_number_stands(data, then, t.ggml_type as nat, 4);
    lemma_number_stands(data, then + 4, t.offset as nat, 8);
}

proof fn lemma_tensors_stand(data: Seq<u8>, pos: int, tensors: Seq<TensorView>)
    requires
        stands(data, pos, tensors_bytes(tensors)),
        forall|i: int| 0 <= i < tensors.len() ==> readable_tensor(#[trigger] tensors[i]),
    ensures
        tensors_at(data, pos, tensors.len()) == Ok::<(Seq<TensorView>, int), GgufError>(
            (tensors, pos + tensors_bytes(tensors).len()),
        ),
    decreases tensors.len(),
{
    if tensors.len() > 0 {
        let less = tensors.drop_last();
        lemma_stands_parts(data, pos, tensors_bytes(less), tensor_bytes(tensors.last()));
        assert forall|i: int| 0 <= i < less.len() implies readable_tensor(#[trigger] less[i]) by {
            assert(less[i] == tensors[i]);
        }
        lemma_tensors_stand(data, pos, less);
        lemma_tensor_stands(data, pos + tensors_bytes(less).len(), tensors.last());
        assert(less.push(tensors.last()) =~= tensors);
    } else {
        assert(tensors =~= seq![]);
    }
}

/// A header that was written is read back as it was, whatever follows it.
pub proof fn header_reads_back(
    meta: Seq<MetaView>,
    tensors: Seq<TensorView>,
    rest: Seq<u8>,
)
    requires
        meta.len() <= MAX_KV,
        tensors.len() <= MAX_TENSORS,
        forall|i: int| 0 <= i < meta.len() ==> readable_meta(#[trigger] meta[i]),
        forall|i: int| 0 <= i < tensors.len() ==> readable_tensor(#[trigger] tensors[i]),
    ensures
        entries_of(header_bytes(meta, tensors) + rest) == Ok::<EntriesView, GgufError>(
            EntriesView {
                meta,
                tensors,
                header_end: header_bytes(meta, tensors).len() as int,
            },
        ),
{
    let header = header_bytes(meta, tensors);
    let data = header + rest;
    let version = le_bytes(3, 4);
    let nt = le_bytes(tensors.len(), 8);
    let nk = le_bytes(meta.len(), 8);
    let ms = metas_bytes(meta);
    let ts = tensors_bytes(tensors);
    lemma_le_bytes_len(3, 4);
    lemma_le_bytes_len(tensors.len(), 8);
    lemma_le_bytes_len(meta.len(), 8);
    assert(bytes_at(data, 0, header.len() as int) =~= header);
    assert(stands(data, 0, header));
    lemma_stands_parts(data, 0, magic() + version + nt + nk + ms, ts);
    lemma_stands_parts(data, 0, magic() + version + nt + nk, ms);
    lemma_stands_parts(data, 0, magic() + version + nt, nk);
    lemma_stands_parts(data, 0, magic() + version, nt);
    lemma_stands_parts(data, 0, magic(), version);
    assert(data.take(4) =~= magic());
    lemma_number_stands(data, 4, 3, 4);
    lemma_number_stands(data, 8, tensors.len(), 8);
    lemma_number_stands(data, 16, meta.len(), 8);
    lemma_metas_stand(data, 24, meta);
    lemma_tensors_stand(data, 24 + ms.len() as int, tensors);
}

/// The padding behind a header brings it to where its tensor data starts.
pub proof fn padding_reaches_data_start(len: nat, alignment: nat)
    requires
        alignment > 0,
    ensures
        len + padding(len as int, alignment as int) == data_start_of(len, alignment),
        0 <= padding(len as int, alignment as int) < alignment,
{
    let a = alignment as int;
    let l = len as int;
    lemma_ceiling(l, a);
    if l % a == 0 {
        lemma_fundamental_div_mod_converse(a, a, 1, 0);
    } else {
        lemma_small_mod((a - l % a) as nat, alignment);
    }
}

/// In a graft each tensor's data starts where that of the one before ends.
pub proof fn parts_are_contiguous(parts: Seq<PartView>, i: int)
    requires
        total_size(parts) <= u64::MAX,
        0 <= i < parts.len(),
    ensures
        placed(parts)[0].offset == 0,
        i + 1 < parts.len() ==> placed(parts)[i + 1].offset == placed(parts)[i].offset
            + parts[i].size,
        i + 1 == parts.len() ==> placed(parts)[i].offset + parts[i].size == total_size(parts),
{
    assert(parts.take(0) =~= seq![]);
    lemma_total_grows(parts, i);
    lemma_total_grows(parts, i + 1);
    assert(parts.take(i + 1).drop_last() =~= parts.take(i));
    if i + 1 == parts.len() {
        assert(parts.take(i + 1) =~= parts);
    }
}

/// Leaving out other keys does not change what a key finds.
proof fn lemma_without_keys_finds(
    meta: Seq<MetaView>,
    a: Seq<char>,
    b: Seq<char>,
    key: Seq<char>,
    more: Seq<MetaView>,
)
    requires
        key != a,
        key != b,
        forall|i: int| 0 <= i < more.len() ==> (#[trigger] more[i]).key != key,
    ensures
        meta_of(without_keys(meta, a, b) + more, key) == meta_of(meta, key),
    decreases meta.len(),
{
    let kept = without_keys(meta, a, b);
    let p = other_key(key);
    let whole = kept + more;
    if meta.len() == 0 {
        text::lemma_run_unique(meta, p, 0);
        assert forall|i: int| 0 <= i < whole.len() implies p(#[trigger] whole[i]) by {
            assert(whole[i] == more[i]);
        }
        text::lemma_run_unique(whole, p, whole.len() as int);
    } else {
        let less = meta.drop_last();
        let last = meta.last();
        lemma_without_keys_finds(less, a, b, key, more);
        lemma_without_keys_finds(less, a, b, key, seq![]);
        let kept_less = without_keys(less, a, b);
        assert(kept_less + Seq::<MetaView>::empty() =~= kept_less);
        text::lemma_run(less, p);
        text::lemma_run(kept_less, p);
        let n = text::run(less, p) as int;
        if n < less.len() {
            assert(meta[n] == less[n]);
            assert forall|i: int| 0 <= i < n implies p(#[trigger] meta[i]) by {
                assert(p(less[i]));
            }
            text::lemma_run_unique(meta, p, n);
            let m = text::run(kept_less, p) as int;
            assert forall|i: int| 0 <= i < m implies p(#[trigger] whole[i]) by {
                assert(p(kept_less[i]));
                assert(whole[i] == kept_less[i]);
            }
            assert(whole[m] == kept_less[m]);
            text::lemma_run_unique(whole, p, m);
        } else {
            assert forall|i: int| 0 <= i < less.len() implies p(#[trigger] meta[i]) by {
                assert(p(less[i]));
            }
            let m = kept_less.len() as int;
            assert(text::run(kept_less, p) == m);
            if last.key == key {
                text::lemma_run_unique(meta, p, less.len() as int);
                assert forall|i: int| 0 <= i < m implies p(#[trigger] whole[i]) by {
                    assert(p(kept_less[i]));
                    assert(whole[i] == kept_less[i]);
                }
                assert(whole[m] == last);
                text::lemma_run_unique(whole, p, m);
            } else {
                text::lemma_run_unique(meta, p, meta.len() as int);
                assert forall|i: int| 0 <= i < whole.len() implies p(#[trigger] whole[i]) by {
                    if i < m {
                        assert(p(kept_less[i]));
                        assert(whole[i] == kept_less[i]);
                    } else if i < kept.len() {
                        assert(whole[i] == last);
                    } else {
                        assert(whole[i] == more[i - kept.len()]);
                    }
                }
                text::lemma_run_unique(whole, p, whole.len() as int);
            }
        }
    }
}

/// A graft keeps what every key of the target says, but for the two keys that
/// it takes from the donor.
pub proof fn graft_keeps_other_keys(t: Header, d: Header, key: Seq<char>)
    requires
        graft_of(t, d) is Ok,
        key != meta_string_of(meta_views(t.meta@), "general.architecture"@)->Ok_0
            + ".block_count"@,
        key != meta_string_of(meta_views(t.meta@), "general.architecture"@)->Ok_0
            + ".nextn_predict_layers"@,
    ensures
        meta_of(graft_of(t, d)->Ok_0.meta, key) == meta_of(meta_views(t.meta@), key),
{
    let tm = meta_views(t.meta@);
    let dm = meta_views(d.meta@);
    let arch = meta_string_of(tm, "general.architecture"@)->Ok_0;
    let a = arch + ".block_count"@;
    let b = arch + ".nextn_predict_layers"@;
    text::lemma_run(dm, other_key(a));
    text::lemma_run(dm, other_key(b));
    let more = seq![meta_of(dm, a)->0, meta_of(dm, b)->0];
    lemma_without_keys_finds(tm, a, b, key, more);
    assert(graft_of(t, d)->Ok_0.meta =~= without_keys(tm, a, b) + more);
}

/// A graft takes the two keys that it changes from the donor.
pub proof fn graft_takes_the_donors_keys(t: Header, d: Header)
    requires
        graft_of(t, d) is Ok,
    ensures
        ({
            let v = graft_of(t, d)->Ok_0;
            let arch = meta_string_of(meta_views(t.meta@), "general.architecture"@)->Ok_0;
            &&& meta_of(v.meta, arch + ".block_count"@) == meta_of(
                meta_views(d.meta@),
                arch + ".block_count"@,
            )
            &&& meta_of(v.meta, arch + ".nextn_predict_layers"@) == meta_of(
                meta_views(d.meta@),
                arch + ".nextn_predict_layers"@,
            )
            &&& meta_u64_of(v.meta, arch + ".block_count"@) == Ok::<u64, MetaError>(v.block_count)
            &&& meta_u64_of(v.meta, arch + ".nextn_predict_layers"@) == Ok::<u64, MetaError>(
                v.nextn_layers,
            )
        }),
{
    let v = graft_of(t, d)->Ok_0;
    let dm = meta_views(d.meta@);
    let arch = meta_string_of(meta_views(t.meta@), "general.architecture"@)->Ok_0;
    let a = arch + ".block_count"@;
    let b = arch + ".nextn_predict_layers"@;
    let kept = without_keys(meta_views(t.meta@), a, b);
    reveal_strlit(".block_count");
    reveal_strlit(".nextn_predict_layers");
    assert(a.len() != b.len());
    text::lemma_run(dm, other_key(a));
    text::lemma_run(dm, other_key(b));
    lemma_without_keys_lacks(meta_views(t.meta@), a, b);
    let n = kept.len() as int;
    assert forall|i: int| 0 <= i < n implies other_key(a)(#[trigger] v.meta[i]) by {
        assert(v.meta[i] == kept[i]);
    }
    text::lemma_run_unique(v.meta, other_key(a), n);
    assert forall|i: int| 0 <= i < n + 1 implies other_key(b)(#[trigger] v.meta[i]) by {
        if i < n {
            assert(v.meta[i] == kept[i]);
        }
    }
    text::lemma_run_unique(v.meta, other_key(b), n + 1);
}

/// What is left without two keys has neither, and nothing that was not there.
proof fn lemma_without_keys_lacks(meta: Seq<MetaView>, a: Seq<char>, b: Seq<char>)
    ensures
        forall|i: int|
            0 <= i < without_keys(meta, a, b).len() ==> (#[trigger] without_keys(
                meta,
                a,
                b,
            )[i]).key != a && without_keys(meta, a, b)[i].key != b && meta.contains(
                without_keys(meta, a, b)[i],
            ),
    decreases meta.len(),
{
    if meta.len() > 0 {
        let less = meta.drop_last();
        lemma_without_keys_lacks(less, a, b);
        let kept_less = without_keys(less, a, b);
        let kept = without_keys(meta, a, b);
        assert forall|i: int| 0 <= i < kept.len() implies (#[trigger] kept[i]).key != a
            && kept[i].key != b && meta.contains(kept[i]) by {
            if i < kept_less.len() {
                assert(kept[i] == kept_less[i]);
                let j = choose|j: int| 0 <= j < less.len() && less[j] == kept_less[i];
                assert(meta[j] == kept[i]);
            } else {
                assert(meta[meta.len() - 1] == kept[i]);
            }
        }
    }
}

/// A value that was read is read the same way from a part of the bytes that holds it.
proof fn lemma_value_within(data: Seq<u8>, from: int, to: int, pos: int, vt: u32)
    requires
        0 <= from <= pos <= to <= data.len(),
        value_end(data, pos, vt) matches Ok(end) && end <= to,
    ensures
        value_end(bytes_at(data, from, to), pos - from, vt) == Ok::<int, GgufError>(
            value_end(data, pos, vt)->Ok_0 - from,
        ),
    decreases data.len() - pos, 0nat,
{
    let part = bytes_at(data, from, to);
    let at = pos - from;
    assert forall|a: int, b: int| 0 <= a <= b <= part.len() implies #[trigger] bytes_at(part, a, b)
        == bytes_at(data, from + a, from + b) by {
        assert(bytes_at(part, a, b) =~= bytes_at(data, from + a, from + b));
    }
    lemma_value_end(data, pos, vt);
    if vt == GGUF_STRING {
        assert(bytes_at(part, at, at + 8) == bytes_at(data, pos, pos + 8));
    } else if vt == GGUF_ARRAY {
        let elem = number_at(data, pos, 4)->Ok_0;
        let count = number_at(data, pos + 4, 8)->Ok_0;
        lemma_elements_end(data, pos + 12, elem as u32, count);
        if scalar_size_of(elem as u32) is Some {
            let size = scalar_size_of(elem as u32)->0;
            assert(count * size >= 0) by (nonlinear_arith);
        }
        assert(pos + 12 <= to);
        assert(bytes_at(part, at, at + 4) == bytes_at(data, pos, pos + 4));
        assert(bytes_at(part, at + 4, at + 12) == bytes_at(data, pos + 4, pos + 12));
        if elem == GGUF_STRING || elem == GGUF_ARRAY {
            lemma_elements_within(data, from, to, pos + 12, elem as u32, count);
        }
    }
}

proof fn lemma_elements_within(
    data: Seq<u8>,
    from: int,
    to: int,
    pos: int,
    elem: u32,
    count: nat,
)
    requires
        0 <= from <= pos <= to <= data.len(),
        elements_end(data, pos, elem, count) matches Ok(end) && end <= to,
    ensures
        elements_end(bytes_at(data, from, to), pos - from, elem, count) == Ok::<int, GgufError>(
            elements_end(data, pos, elem, count)->Ok_0 - from,
        ),
    decreases data.len() - pos, count + 1,
{
    if count > 0 {
        let at = elements_end(data, pos, elem, (count - 1) as nat)->Ok_0;
        lemma_value_end(data, at, elem);
        lemma_elements_within(data, from, to, pos, elem, (count - 1) as nat);
        lemma_value_within(data, from, to, at, elem);
    }
}

/// The bytes that were captured of a value are captured again as they are, wherever the
/// value stood.
pub proof fn captured_values_read_back(data: Seq<u8>, pos: int, vt: u32)
    requires
        0 <= pos <= data.len(),
        value_end(data, pos, vt) is Ok,
    ensures
        ({
            let raw = bytes_at(data, pos, value_end(data, pos, vt)->Ok_0);
            value_end(raw, 0, vt) == Ok::<int, GgufError>(raw.len() as int)
        }),
{
    lemma_value_end(data, pos, vt);
    lemma_value_within(data, pos, value_end(data, pos, vt)->Ok_0, pos, vt);
}

/// Whether an entry holds the bytes of one value and no more.
pub open spec fn is_whole(m: MetaView) -> bool {
    value_end(m.raw, 0, m.vtype) == Ok::<int, GgufError>(m.raw.len() as int)
}

proof fn lemma_metas_are_whole(data: Seq<u8>, pos: int, n: nat)
    requires
        0 <= pos <= data.len(),
        metas_at(data, pos, n) is Ok,
    ensures
        pos <= metas_at(data, pos, n)->Ok_0.1 <= data.len(),
        forall|i: int|
            0 <= i < metas_at(data, pos, n)->Ok_0.0.len() ==> is_whole(
                #[trigger] metas_at(data, pos, n)->Ok_0.0[i],
            ),
    decreases n,
{
    if n > 0 {
        lemma_metas_are_whole(data, pos, (n - 1) as nat);
        let (earlier, at) = metas_at(data, pos, (n - 1) as nat)->Ok_0;
        let (all, end) = metas_at(data, pos, n)->Ok_0;
        let (_, then) = text_at(data, at)->Ok_0;
        let vt = number_at(data, then, 4)->Ok_0 as u32;
        lemma_value_end(data, then + 4, vt);
        lemma_value_within(data, then + 4, end, then + 4, vt);
        assert forall|i: int| 0 <= i < all.len() implies is_whole(#[trigger] all[i]) by {
            if i < earlier.len() {
                assert(all[i] == earlier[i]);
            }
        }
    }
}

proof fn lemma_dims_count(data: Seq<u8>, pos: int, n: nat)
    requires
        dims_at(data, pos, n) is Ok,
    ensures
        dims_at(data, pos, n)->Ok_0.0.len() == n,
    decreases n,
{
    if n > 0 {
        lemma_dims_count(data, pos, (n - 1) as nat);
    }
}

proof fn lemma_tensors_have_dims(data: Seq<u8>, pos: int, n: nat)
    requires
        tensors_at(data, pos, n) is Ok,
    ensures
        forall|i: int|
            0 <= i < tensors_at(data, pos, n)->Ok_0.0.len() ==> (#[trigger] tensors_at(
                data,
                pos,
                n,
            )->Ok_0.0[i]).dims.len() <= MAX_DIMS,
    decreases n,
{
    if n > 0 {
        lemma_tensors_have_dims(data, pos, (n - 1) as nat);
        let (earlier, at) = tensors_at(data, pos, (n - 1) as nat)->Ok_0;
        let (all, _) = tensors_at(data, pos, n)->Ok_0;
        let (_, then) = text_at(data, at)->Ok_0;
        lemma_dims_count(data, then + 4, number_at(data, then, 4)->Ok_0);
        assert forall|i: int| 0 <= i < all.len() implies (#[trigger] all[i]).dims.len()
            <= MAX_DIMS by {
            if i < earlier.len() {
                assert(all[i] == earlier[i]);
            }
        }
    }
}

/// Whether a header is the one that some bytes start with.
pub open spec fn is_header_of(h: Header, data: Seq<u8>) -> bool {
    entries_of(data) matches Ok(v) && meta_views(h.meta@) == v.meta && tensor_views(h.tensors@)
        == v.tensors
}

proof fn lemma_header_is_whole(h: Header, data: Seq<u8>)
    requires
        is_header_of(h, data),
    ensures
        forall|i: int|
            0 <= i < h.meta@.len() ==> is_whole(#[trigger] meta_views(h.meta@)[i]),
        forall|i: int|
            0 <= i < h.tensors@.len() ==> (#[trigger] h.tensors@[i]).dims@.len() <= MAX_DIMS,
{
    let v = entries_of(data)->Ok_0;
    lemma_metas_are_whole(data, 24, number_at(data, 16, 8)->Ok_0);
    let at = metas_at(data, 24, number_at(data, 16, 8)->Ok_0)->Ok_0.1;
    lemma_tensors_have_dims(data, at, number_at(data, 8, 8)->Ok_0);
    assert forall|i: int| 0 <= i < h.tensors@.len() implies (#[trigger] h.tensors@[i]).dims@.len()
        <= MAX_DIMS by {
        assert(tensor_views(h.tensors@)[i].dims == h.tensors@[i].dims@);
        assert(v.tensors[i].dims.len() <= MAX_DIMS);
    }
}

/// Whether the header of a graft keeps within what is read: not too many keys and tensors,
/// and no text too long. Only a text that is not UTF-8 can become longer than it was.
pub open spec fn within_limits(v: GraftView) -> bool {
    &&& v.meta.len() <= MAX_KV
    &&& v.parts.len() <= MAX_TENSORS
    &&& forall|i: int|
        0 <= i < v.meta.len() ==> encode_utf8((#[trigger] v.meta[i]).key).len() <= MAX_STRING
    &&& forall|i: int|
        0 <= i < v.parts.len() ==> encode_utf8((#[trigger] v.parts[i]).entry.name).len()
            <= MAX_STRING
}

/// A graft of two files is a file that can be read: it has the metadata and the tensors that
/// were chosen, every value as the bytes that stood in the file it comes from.
pub proof fn graft_reads_back(
    target: Seq<u8>,
    donor: Seq<u8>,
    t: Header,
    d: Header,
    rest: Seq<u8>,
)
    requires
        is_header_of(t, target),
        is_header_of(d, donor),
        graft_of(t, d) is Ok,
        within_limits(graft_of(t, d)->Ok_0),
    ensures
        ({
            let v = graft_of(t, d)->Ok_0;
            let header = header_bytes(v.meta, placed(v.parts));
            &&& entries_of(header + rest) == Ok::<EntriesView, GgufError>(
                EntriesView {
                    meta: v.meta,
                    tensors: placed(v.parts),
                    header_end: header.len() as int,
                },
            )
            &&& alignment_of(v.meta) == alignment_of(meta_views(t.meta@))
        }),
{
    let v = graft_of(t, d)->Ok_0;
    let tm = meta_views(t.meta@);
    let dm = meta_views(d.meta@);
    let arch = meta_string_of(tm, "general.architecture"@)->Ok_0;
    let a = arch + ".block_count"@;
    let b = arch + ".nextn_predict_layers"@;
    let kept = without_keys(tm, a, b);
    lemma_header_is_whole(t, target);
    lemma_header_is_whole(d, donor);
    lemma_without_keys_lacks(tm, a, b);
    assert forall|i: int| 0 <= i < v.meta.len() implies readable_meta(#[trigger] v.meta[i]) by {
        if i < kept.len() {
            assert(v.meta[i] == kept[i]);
            let j = choose|j: int| 0 <= j < tm.len() && tm[j] == kept[i];
            assert(is_whole(tm[j]));
        } else if i == kept.len() {
            assert(is_whole(dm[text::run(dm, other_key(a)) as int]));
        } else {
            assert(is_whole(dm[text::run(dm, other_key(b)) as int]));
        }
    }
    let extra = picks(
        names_of(d),
        block_prefix(meta_u64_of(tm, a)->Ok_0),
        d.tensors@.len(),
    );
    lemma_picks(names_of(d), block_prefix(meta_u64_of(tm, a)->Ok_0), d.tensors@.len());
    let list = placed(v.parts);
    assert forall|i: int| 0 <= i < list.len() implies readable_tensor(#[trigger] list[i]) by {
        let part = v.parts[i];
        if i < t.tensors@.len() {
            assert(part == target_part(t, i));
            assert(t.tensors@[i].dims@.len() <= MAX_DIMS);
        } else {
            let k = extra[i - t.tensors@.len()];
            assert(part == donor_part(d, k));
            assert(d.tensors@[k].dims@.len() <= MAX_DIMS);
        }
    }
    header_reads_back(v.meta, list, rest);
    let key = "general.alignment"@;
    reveal_strlit("general.alignment");
    reveal_strlit(".block_count");
    reveal_strlit(".nextn_predict_layers");
    assert(key[14] == 'e');
    assert(a[a.len() - 3] == 'u');
    assert(b[b.len() - 1] == 's');
    assert(key[16] == 't');
    graft_keeps_other_keys(t, d, key);
}

/// The data of some parts one after another.
pub open spec fn copied(parts: Seq<PartView>, target: Seq<u8>, donor: Seq<u8>) -> Seq<u8>
    decreases parts.len(),
{
    if parts.len() == 0 {
        seq![]
    } else {
        copied(parts.drop_last(), target, donor) + data_of(parts.last(), target, donor)
    }
}

/// The data of a part in the file that it comes from.
pub open spec fn data_of(part: PartView, target: Seq<u8>, donor: Seq<u8>) -> Seq<u8> {
    bytes_at(
        if part.from_donor {
            donor
        } else {
            target
        },
        part.start,
        part.start + part.size,
    )
}

/// Whether the data of a part stands in the file that it comes from.
pub open spec fn has_data(part: PartView, target: Seq<u8>, donor: Seq<u8>) -> bool {
    &&& 0 <= part.start
    &&& part.start + part.size <= if part.from_donor {
        donor.len()
    } else {
        target.len()
    }
}

/// The bytes of a grafted file: its header, filled up to the alignment, and the data.
pub open spec fn grafted_file(
    v: GraftView,
    alignment: u64,
    target: Seq<u8>,
    donor: Seq<u8>,
) -> Seq<u8> {
    let header = header_bytes(v.meta, placed(v.parts));
    header + zeros(padding(header.len() as int, alignment as int) as nat) + copied(
        v.parts,
        target,
        donor,
    )
}

#[verifier::spinoff_prover]
proof fn lemma_copied(parts: Seq<PartView>, target: Seq<u8>, donor: Seq<u8>, i: int)
    requires
        0 <= i < parts.len(),
        forall|j: int| 0 <= j < parts.len() ==> has_data(#[trigger] parts[j], target, donor),
    ensures
        copied(parts, target, donor).len() == total_size(parts),
        total_size(parts.take(i)) + parts[i].size <= total_size(parts),
        bytes_at(
            copied(parts, target, donor),
            total_size(parts.take(i)) as int,
            total_size(parts.take(i)) + parts[i].size,
        ) == data_of(parts[i], target, donor),
    decreases parts.len(),
{
    let less = parts.drop_last();
    let all = copied(parts, target, donor);
    assert(has_data(parts[parts.len() - 1], target, donor));
    assert forall|j: int| 0 <= j < less.len() implies has_data(#[trigger] less[j], target, donor) by {
        assert(less[j] == parts[j]);
    }
    if less.len() > 0 {
        let k = if i < less.len() {
            i
        } else {
            0
        };
        lemma_copied(less, target, donor, k);
    } else {
        assert(copied(less, target, donor) == Seq::<u8>::empty());
        assert(total_size(less) == 0);
    }
    let last = data_of(parts.last(), target, donor);
    assert(last.len() == parts.last().size);
    assert(all == copied(less, target, donor) + last);
    assert(copied(less, target, donor).len() == total_size(less));
    if i < less.len() {
        let from = total_size(parts.take(i)) as int;
        assert(less.take(i) =~= parts.take(i));
        assert(bytes_at(all, from, from + parts[i].size) =~= bytes_at(
            copied(less, target, donor),
            from,
            from + parts[i].size,
        ));
    } else {
        assert(parts.take(i) =~= less);
        let from = total_size(less) as int;
        assert(bytes_at(all, from, from + parts[i].size) =~= data_of(parts[i], target, donor));
    }
}

proof fn lemma_stop_in_file(h: Header, i: int)
    requires
        ascending(h),
        0 <= i < h.tensors@.len(),
    ensures
        0 <= start_of(h, i) <= stop_of(h, i) <= h.file_size,
    decreases h.tensors@.len() - i,
{
    assert(start_of(h, i) <= stop_of(h, i));
    if i + 1 < h.tensors@.len() {
        lemma_stop_in_file(h, i + 1);
    }
}

/// The data of the parts of a graft stands in the files that they come from.
proof fn lemma_parts_have_data(t: Header, d: Header, target: Seq<u8>, donor: Seq<u8>)
    requires
        ascending(t),
        ascending(d),
        t.file_size == target.len(),
        d.file_size == donor.len(),
        graft_of(t, d) is Ok,
    ensures
        forall|j: int|
            0 <= j < graft_of(t, d)->Ok_0.parts.len() ==> has_data(
                #[trigger] graft_of(t, d)->Ok_0.parts[j],
                target,
                donor,
            ),
{
    let parts = graft_of(t, d)->Ok_0.parts;
    let tm = meta_views(t.meta@);
    let arch = meta_string_of(tm, "general.architecture"@)->Ok_0;
    let prefix = block_prefix(meta_u64_of(tm, arch + ".block_count"@)->Ok_0);
    let extra = picks(names_of(d), prefix, d.tensors@.len());
    lemma_picks(names_of(d), prefix, d.tensors@.len());
    assert forall|j: int| 0 <= j < parts.len() implies has_data(
        #[trigger] parts[j],
        target,
        donor,
    ) by {
        if j < t.tensors@.len() {
            assert(parts[j] == target_part(t, j));
            lemma_stop_in_file(t, j);
        } else {
            let k = extra[j - t.tensors@.len()];
            assert(parts[j] == donor_part(d, k));
            lemma_last_named(names_of(d), k, d.tensors@.len());
            lemma_stop_in_file(d, last_named(names_of(d), names_of(d)[k], d.tensors@.len()));
        }
    }
}

/// In a grafted file the data of every tensor stands where its entry says, as it stands in the
/// file that the tensor comes from, and nothing follows the last one.
pub proof fn graft_keeps_the_data(t: Header, d: Header, target: Seq<u8>, donor: Seq<u8>, i: int)
    requires
        ascending(t),
        ascending(d),
        t.alignment > 0,
        t.file_size == target.len(),
        d.file_size == donor.len(),
        graft_of(t, d) is Ok,
        total_size(graft_of(t, d)->Ok_0.parts) <= u64::MAX,
        0 <= i < graft_of(t, d)->Ok_0.parts.len(),
    ensures
        ({
            let v = graft_of(t, d)->Ok_0;
            let file = grafted_file(v, t.alignment, target, donor);
            let start = data_start_of(
                header_bytes(v.meta, placed(v.parts)).len(),
                t.alignment as nat,
            );
            let from = start + placed(v.parts)[i].offset;
            &&& file.len() == start + total_size(v.parts)
            &&& from + v.parts[i].size <= file.len()
            &&& bytes_at(file, from, from + v.parts[i].size) == data_of(v.parts[i], target, donor)
        }),
{
    let v = graft_of(t, d)->Ok_0;
    let header = header_bytes(v.meta, placed(v.parts));
    let file = grafted_file(v, t.alignment, target, donor);
    let fill = zeros(padding(header.len() as int, t.alignment as int) as nat);
    padding_reaches_data_start(header.len(), t.alignment as nat);
    lemma_parts_have_data(t, d, target, donor);
    lemma_copied(v.parts, target, donor, i);
    let offset = total_size(v.parts.take(i)) as int;
    let from = header.len() + fill.len() + offset;
    assert(placed(v.parts)[i].offset == offset);
    assert(bytes_at(file, from, from + v.parts[i].size) =~= bytes_at(
        copied(v.parts, target, donor),
        offset,
        offset + v.parts[i].size,
    ));
}

/// What is said where a key of the metadata cannot be read.
pub open spec fn meta_text_of(e: MetaError, key: Seq<char>) -> Seq<char> {
    match e {
        MetaError::Missing => "missing metadata key '"@ + key + "'"@,
        MetaError::NotString => "metadata key '"@ + key + "' is not a string"@,
        MetaError::Length => "metadata key '"@ + key + "' has inconsistent length"@,
        MetaError::NotUnsigned => "metadata key '"@ + key + "' is not an unsigned integer"@,
    }
}

pub fn meta_text(e: MetaError, key: &str) -> (out: String)
    ensures
        out@ == meta_text_of(e, key@),
{
    let mut out: String = (match e {
        MetaError::Missing => "missing metadata key '",
        _ => "metadata key '",
    }).to_owned();
    out.append(key);
    out.append(
        match e {
            MetaError::Missing => "'",
            MetaError::NotString => "' is not a string",
            MetaError::Length => "' has inconsistent length",
            MetaError::NotUnsigned => "' is not an unsigned integer",
        },
    );
    out
}

/// The architecture that a header names, nothing where it names none.
pub open spec fn architecture_of(h: Header) -> Seq<char> {
    match meta_string_of(meta_views(h.meta@), "general.architecture"@) {
        Ok(s) => s,
        Err(_) => ""@,
    }
}

fn architecture(h: &Header) -> (out: String)
    ensures
        out@ == architecture_of(*h),
{
    match meta_string(h, "general.architecture") {
        Ok(s) => s,
        Err(_) => "".to_owned(),
    }
}

/// The blocks that a header counts under an architecture, zero where it does not.
pub open spec fn blocks_of(h: Header, arch: Seq<char>) -> u64 {
    match meta_u64_of(meta_views(h.meta@), arch + ".block_count"@) {
        Ok(n) => n,
        Err(_) => 0,
    }
}

fn blocks(h: &Header, arch: &str) -> (out: u64)
    ensures
        out == blocks_of(*h, arch@),
{
    let mut key: String = arch.to_owned();
    key.append(".block_count");
    match meta_u64(h, key.as_str()) {
        Ok(n) => n,
        Err(_) => 0,
    }
}

/// What is said where the donor's block cannot be grafted onto the target.
pub open spec fn graft_text_of(e: GraftError, t: Header, d: Header) -> Seq<char> {
    let arch = architecture_of(t);
    let count = text::decimal_of(blocks_of(t, arch) as nat);
    match e {
        GraftError::TargetArchitecture(m) => meta_text_of(m, "general.architecture"@),
        GraftError::DonorArchitecture(m) => meta_text_of(m, "general.architecture"@),
        GraftError::ArchitectureMismatch => "architecture mismatch: target is "@ + arch
            + ", donor is "@ + architecture_of(d),
        GraftError::TargetBlocks(m) => meta_text_of(m, arch + ".block_count"@),
        GraftError::DonorBlocks(m) => meta_text_of(m, arch + ".block_count"@),
        GraftError::DonorNextn(m) => meta_text_of(m, arch + ".nextn_predict_layers"@),
        GraftError::NoNextn => "donor declares no nextn_predict_layers"@,
        GraftError::NoTensors => "donor has no tensors with prefix 'blk."@ + count
            + ".' (donor block_count "@ + text::decimal_of(blocks_of(d, arch) as nat)
            + ", target "@ + count + ")"@,
        GraftError::NotMtp => "donor tensors with prefix 'blk."@ + count
            + ".' are not an MTP block (no .nextn. tensors)"@,
        GraftError::Present(i) => "target already contains tensor '"@ + (if i < d.tensors@.len() {
            d.tensors@[i as int].name@
        } else {
            ""@
        }) + "'"@,
    }
}

/// Says why a block cannot be grafted.
pub fn graft_text(e: &GraftError, t: &Header, d: &Header) -> (out: String)
    ensures
        out@ == graft_text_of(*e, *t, *d),
{
    let mut arch: String = architecture(t);
    let count: String = text::decimal(blocks(t, arch.as_str()));
    match e {
        GraftError::TargetArchitecture(m) => meta_text(*m, "general.architecture"),
        GraftError::DonorArchitecture(m) => meta_text(*m, "general.architecture"),
        GraftError::ArchitectureMismatch => {
            let mut out: String = "architecture mismatch: target is ".to_owned();
            out.append(arch.as_str());
            out.append(", donor is ");
            out.append(architecture(d).as_str());
            out
        },
        GraftError::TargetBlocks(m) => {
            arch.append(".block_count");
            meta_text(*m, arch.as_str())
        },
        GraftError::DonorBlocks(m) => {
            arch.append(".block_count");
            meta_text(*m, arch.as_str())
        },
        GraftError::DonorNextn(m) => {
            arch.append(".nextn_predict_layers");
            meta_text(*m, arch.as_str())
        },
        GraftError::NoNextn => "donor declares no nextn_predict_layers".to_owned(),
        GraftError::NoTensors => {
            let mut out: String = "donor has no tensors with prefix 'blk.".to_owned();
            out.append(count.as_str());
            out.append(".' (donor block_count ");
            out.append(text::decimal(blocks(d, arch.as_str())).as_str());
            out.append(", target ");
            out.append(count.as_str());
            out.append(")");
            out
        },
        GraftError::NotMtp => {
            let mut out: String = "donor tensors with prefix 'blk.".to_owned();
            out.append(count.as_str());
            out.append(".' are not an MTP block (no .nextn. tensors)");
            out
        },
        GraftError::Present(i) => {
            let mut out: String = "target already contains tensor '".to_owned();
            if *i < d.tensors.len() {
                out.append(d.tensors[*i].name.as_str());
            } else {
                out.append("");
            }
            out.append("'");
            out
        },
    }
}

/// What is said where the header of the file at `path` cannot be read.
pub open spec fn error_text_of(e: GgufError, path: Seq<char>) -> Seq<char> {
    match e {
        GgufError::Truncated => path + " ends before its header does"@,
        GgufError::TooLarge(n) => "refusing to read "@ + text::decimal_of(n as nat)
            + " bytes (exceeds "@ + text::decimal_of(MAX_BLOB as nat) + " byte cap)"@,
        GgufError::ScalarType(n) => "unsupported GGUF scalar type "@ + text::decimal_of(n as nat),
        GgufError::StringLength(n) => "GGUF string length "@ + text::decimal_of(n as nat)
            + " exceeds cap; file misaligned?"@,
        GgufError::ArrayCount(n) => "GGUF array count "@ + text::decimal_of(n as nat)
            + " exceeds cap; file misaligned?"@,
        GgufError::Magic => path + " is not a GGUF file"@,
        GgufError::Version(n) => "unsupported GGUF version "@ + text::decimal_of(n as nat) + " in "@
            + path,
        GgufError::Implausible(tensors, keys) => "implausible GGUF header in "@ + path + ": "@
            + text::decimal_of(tensors as nat) + " tensors, "@ + text::decimal_of(keys as nat)
            + " keys"@,
        GgufError::Dimensions(n) => "a tensor has "@ + text::decimal_of(n as nat)
            + " dimensions; file misaligned?"@,
    }
}

fn counted(front: &str, n: u64, back: &str) -> (out: String)
    ensures
        out@ == front@ + text::decimal_of(n as nat) + back@,
{
    let mut out: String = front.to_owned();
    out.append(text::decimal(n).as_str());
    out.append(back);
    out
}

/// Says why a header cannot be read.
pub fn error_text(e: GgufError, path: &str) -> (out: String)
    ensures
        out@ == error_text_of(e, path@),
{
    match e {
        GgufError::Truncated => {
            let mut out: String = path.to_owned();
            out.append(" ends before its header does");
            out
        },
        GgufError::TooLarge(n) => {
            let mut out: String = counted("refusing to read ", n, " bytes (exceeds ");
            out.append(text::decimal(MAX_BLOB).as_str());
            out.append(" byte cap)");
            out
        },
        GgufError::ScalarType(n) => {
            let mut out: String = "unsupported GGUF scalar type ".to_owned();
            out.append(text::decimal(n as u64).as_str());
            out
        },
        GgufError::StringLength(n) => counted(
            "GGUF string length ",
            n,
            " exceeds cap; file misaligned?",
        ),
        GgufError::ArrayCount(n) => counted(
            "GGUF array count ",
            n,
            " exceeds cap; file misaligned?",
        ),
        GgufError::Magic => {
            let mut out: String = path.to_owned();
            out.append(" is not a GGUF file");
            out
        },
        GgufError::Version(n) => {
            let mut out: String = counted("unsupported GGUF version ", n as u64, " in ");
            out.append(path);
            out
        },
        GgufError::Implausible(tensors, keys) => {
            let mut out: String = "implausible GGUF header in ".to_owned();
            out.append(path);
            out.append(": ");
            out.append(text::decimal(tensors).as_str());
            out.append(" tensors, ");
            out.append(text::decimal(keys).as_str());
            out.append(" keys");
            out
        },
        GgufError::Dimensions(n) => counted(
            "a tensor has ",
            n as u64,
            " dimensions; file misaligned?",
        ),
    }
}

} // verus!
