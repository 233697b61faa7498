//! What a model file says of itself, and what running the model takes.
use vstd::prelude::*;
use vstd::utf8::*;

use crate::gguf;
use crate::gguf::Reader;
use crate::pattern;
use crate::process;
use crate::profiles;
use crate::text;

verus! {

/// Why a file's metadata cannot be read.
#[derive(Clone, Copy, Debug, PartialEq, Eq, Structural)]
pub enum Fault {
    /// The bytes end before what is read does.
    Truncated,
    /// The bytes are not those of a model file.
    Malformed,
}

/// A metadata value: a number, an array of up to 4096 numbers, or a text. Of an
/// array of texts and of a longer array only the count is kept.
pub enum MetaValue {
    Number(u64),
    Numbers(Vec<u64>),
    Text(String),
}

pub ghost enum MetaValueView {
    Number(u64),
    Numbers(Seq<u64>),
    Text(Seq<char>),
}

impl View for MetaValue {
    type V = MetaValueView;

    open spec fn view(&self) -> MetaValueView {
        match *self {
            MetaValue::Number(n) => MetaValueView::Number(n),
            MetaValue::Numbers(v) => MetaValueView::Numbers(v@),
            MetaValue::Text(s) => MetaValueView::Text(s@),
        }
    }
}

pub open spec fn number_in(v: MetaValueView) -> Option<u64> {
    match v {
        MetaValueView::Number(n) => Some(n),
        _ => None,
    }
}

pub open spec fn text_in(v: MetaValueView) -> Option<Seq<char>> {
    match v {
        MetaValueView::Text(s) => Some(s),
        _ => None,
    }
}

pub open spec fn numbers_in(v: MetaValueView) -> Seq<u64> {
    match v {
        MetaValueView::Number(n) => seq![n],
        MetaValueView::Numbers(list) => list,
        MetaValueView::Text(_) => seq![],
    }
}

impl MetaValue {
    pub fn number(&self) -> (out: Option<u64>)
        ensures
            out == number_in(self@),
    {
        match self {
            MetaValue::Number(n) => Some(*n),
            _ => None,
        }
    }

    pub fn string(&self) -> (out: Option<&str>)
        ensures
            match (out, text_in(self@)) {
                (Some(s), Some(t)) => s@ == t,
                (None, None) => true,
                _ => false,
            },
    {
        match self {
            MetaValue::Text(s) => Some(s.as_str()),
            _ => None,
        }
    }

    pub fn boolean(&self) -> (out: Option<bool>)
        ensures
            out == match number_in(self@) {
                Some(n) => Some(n != 0),
                None => None,
            },
    {
        match self.number() {
            Some(n) => Some(n != 0),
            None => None,
        }
    }

    pub fn numbers(&self) -> (out: Vec<u64>)
        ensures
            out@ == numbers_in(self@),
    {
        match self {
            MetaValue::Number(n) => {
                let mut out: Vec<u64> = Vec::new();
                out.push(*n);
                proof {
                    assert(out@ =~= seq![*n]);
                }
                out
            },
            MetaValue::Numbers(v) => v.clone(),
            MetaValue::Text(_) => {
                let out: Vec<u64> = Vec::new();
                proof {
                    assert(out@ =~= seq![]);
                }
                out
            },
        }
    }
}

/// The number in `width` bytes at `pos`.
pub open spec fn uint_at(data: Seq<u8>, pos: int, width: nat) -> Result<nat, Fault> {
    if pos + width > data.len() {
        Err(Fault::Truncated)
    } else {
        Ok(gguf::le_value(gguf::bytes_at(data, pos, pos + width)))
    }
}

/// The text at `pos`, behind its length, and where it ends.
pub open spec fn string_at(data: Seq<u8>, pos: int) -> Result<(Seq<char>, int), Fault> {
    match uint_at(data, pos, 8) {
        Err(e) => Err(e),
        Ok(n) => if pos + 8 + n > data.len() {
            Err(Fault::Truncated)
        } else {
            Ok((gguf::text_of(gguf::bytes_at(data, pos + 8, pos + 8 + n)), pos + 8 + n))
        },
    }
}

pub fn read_u32(r: &mut Reader) -> (out: Result<u32, Fault>)
    requires
        old(r).wf(),
    ensures
        final(r).wf(),
        final(r).data == old(r).data,
        match (out, uint_at(old(r).data@, old(r).pos as int, 4)) {
            (Ok(n), Ok(m)) => n == m && final(r).pos == old(r).pos + 4,
            (Err(e), Err(f)) => e == f,
            _ => false,
        },
{
    match gguf::read_u32(r) {
        Ok(n) => Ok(n),
        Err(_) => Err(Fault::Truncated),
    }
}

pub fn read_u64(r: &mut Reader) -> (out: Result<u64, Fault>)
    requires
        old(r).wf(),
    ensures
        final(r).wf(),
        final(r).data == old(r).data,
        match (out, uint_at(old(r).data@, old(r).pos as int, 8)) {
            (Ok(n), Ok(m)) => n == m && final(r).pos == old(r).pos + 8,
            (Err(e), Err(f)) => e == f,
            _ => false,
        },
{
    match gguf::read_u64(r) {
        Ok(n) => Ok(n),
        Err(_) => Err(Fault::Truncated),
    }
}

/// Passes over `amount` bytes.
pub fn skip_bytes(r: &mut Reader, amount: u64) -> (out: Result<(), Fault>)
    requires
        old(r).wf(),
    ensures
        final(r).wf(),
        final(r).data == old(r).data,
        old(r).pos + amount <= old(r).data@.len() ==> out is Ok && final(r).pos == old(r).pos
            + amount,
        old(r).pos + amount > old(r).data@.len() ==> out == Err::<(), Fault>(Fault::Truncated),
{
    let left: usize = r.data.len() - r.pos;
    if amount > left as u64 {
        return Err(Fault::Truncated);
    }
    r.pos = r.pos + amount as usize;
    Ok(())
}

pub fn read_string(r: &mut Reader) -> (out: Result<String, Fault>)
    requires
        old(r).wf(),
    ensures
        final(r).wf(),
        final(r).data == old(r).data,
        match (out, string_at(old(r).data@, old(r).pos as int)) {
            (Ok(s), Ok((t, end))) => s@ == t && final(r).pos == end,
            (Err(e), Err(f)) => e == f,
            _ => false,
        },
{
    let n: u64 = match read_u64(r) {
        Ok(n) => n,
        Err(e) => return Err(e),
    };
    let start: usize = r.pos;
    match skip_bytes(r, n) {
        Ok(_) => {},
        Err(e) => return Err(e),
    }
    let bytes: &[u8] = vstd::slice::slice_subrange(r.data, start, r.pos);
    Ok(gguf::utf8_lossy(bytes))
}

/// Where `n` texts from `pos` on end.
pub open spec fn strings_end(data: Seq<u8>, pos: int, n: nat) -> Result<int, Fault>
    decreases n,
{
    if n == 0 {
        Ok(pos)
    } else {
        match strings_end(data, pos, (n - 1) as nat) {
            Err(e) => Err(e),
            Ok(at) => match uint_at(data, at, 8) {
                Err(e) => Err(e),
                Ok(len) => if at + 8 + len > data.len() {
                    Err(Fault::Truncated)
                } else {
                    Ok(at + 8 + len)
                },
            },
        }
    }
}

/// The `n` numbers of `size` bytes each from `pos` on.
pub open spec fn numbers_at(data: Seq<u8>, pos: int, size: nat, n: nat) -> Seq<u64> {
    Seq::new(
        n,
        |i: int| gguf::le_value(gguf::bytes_at(data, pos + i * size, pos + i * size + size)) as u64,
    )
}

/// The metadata value of type `vt` at `pos` and where it ends.
pub open spec fn meta_value_at(data: Seq<u8>, pos: int, vt: u32) -> Result<
    (MetaValueView, int),
    Fault,
> {
    if vt == 8 {
        match string_at(data, pos) {
            Ok((s, end)) => Ok((MetaValueView::Text(s), end)),
            Err(e) => Err(e),
        }
    } else if vt == 9 {
        match (uint_at(data, pos, 4), uint_at(data, pos + 4, 8)) {
            (Ok(element), Ok(count)) => if element == 8 {
                match strings_end(data, pos + 12, count) {
                    Ok(end) => Ok((MetaValueView::Number(count as u64), end)),
                    Err(e) => Err(e),
                }
            } else {
                match gguf::scalar_size_of(element as u32) {
                    None => Err(Fault::Malformed),
                    Some(size) => if pos + 12 + count * size > data.len() {
                        Err(Fault::Truncated)
                    } else if count <= 4096 {
                        Ok(
                            (
                                MetaValueView::Numbers(numbers_at(data, pos + 12, size, count)),
                                pos + 12 + count * size,
                            ),
                        )
                    } else {
                        Ok((MetaValueView::Number(count as u64), pos + 12 + count * size))
                    },
                }
            },
            _ => Err(Fault::Truncated),
        }
    } else {
        match gguf::scalar_size_of(vt) {
            None => Err(Fault::Malformed),
            Some(size) => match uint_at(data, pos, size) {
                Ok(n) => Ok((MetaValueView::Number(n as u64), pos + size)),
                Err(e) => Err(e),
            },
        }
    }
}

proof fn lemma_strings_fail(data: Seq<u8>, pos: int, n: nat, more: nat)
    requires
        n <= more,
        strings_end(data, pos, n) is Err,
    ensures
        strings_end(data, pos, more) == strings_end(data, pos, n),
    decreases more,
{
    if n < more {
        lemma_strings_fail(data, pos, n, (more - 1) as nat);
    }
}

proof fn lemma_small_numbers(s: Seq<u8>)
    ensures
        s.len() == 1 ==> gguf::le_value(s) == s[0],
        s.len() == 2 ==> gguf::le_value(s) == s[0] + 256 * s[1],
{
    reveal_with_fuel(gguf::le_value, 3);
}

/// The number in the next `size` bytes.
fn read_scalar(r: &mut Reader, size: u64) -> (out: Result<u64, Fault>)
    requires
        old(r).wf(),
        size == 1 || size == 2 || size == 4 || size == 8,
    ensures
        final(r).wf(),
        final(r).data == old(r).data,
        match (out, uint_at(old(r).data@, old(r).pos as int, size as nat)) {
            (Ok(n), Ok(m)) => n == m && final(r).pos == old(r).pos + size,
            (Err(e), Err(f)) => e == f,
            _ => false,
        },
{
    if size == 8 {
        return read_u64(r);
    }
    if size == 4 {
        return match read_u32(r) {
            Ok(n) => Ok(n as u64),
            Err(e) => Err(e),
        };
    }
    let start: usize = r.pos;
    match skip_bytes(r, size) {
        Ok(_) => {},
        Err(e) => return Err(e),
    }
    proof {
        lemma_small_numbers(gguf::bytes_at(r.data@, start as int, start + size));
    }
    if size == 1 {
        Ok(r.data[start] as u64)
    } else {
        Ok(r.data[start] as u64 + 256 * (r.data[start + 1] as u64))
    }
}

pub fn read_meta_value(r: &mut Reader, vt: u32) -> (out: Result<MetaValue, Fault>)
    requires
        old(r).wf(),
    ensures
        final(r).wf(),
        final(r).data == old(r).data,
        match (out, meta_value_at(old(r).data@, old(r).pos as int, vt)) {
            (Ok(v), Ok((w, end))) => v@ == w && final(r).pos == end,
            (Err(e), Err(f)) => e == f,
            _ => false,
        },
{
    let ghost data = r.data@;
    let ghost pos = r.pos as int;
    if vt == 8 {
        return match read_string(r) {
            Ok(s) => Ok(MetaValue::Text(s)),
            Err(e) => Err(e),
        };
    }
    if vt == 9 {
        let element: u32 = match read_u32(r) {
            Ok(n) => n,
            Err(e) => return Err(e),
        };
        let count: u64 = match read_u64(r) {
            Ok(n) => n,
            Err(e) => return Err(e),
        };
        if element == 8 {
            let mut i: u64 = 0;
            while i < count
                invariant
                    r.wf(),
                    r.data == old(r).data,
                    data == r.data@,
                    i <= count,
                    strings_end(data, pos + 12, i as nat) == Ok::<int, Fault>(r.pos as int),
                    strings_end(data, pos + 12, count as nat) is Err ==> meta_value_at(
                        data,
                        pos,
                        vt,
                    ) == Err::<(MetaValueView, int), Fault>(
                        strings_end(data, pos + 12, count as nat)->Err_0,
                    ),
                    old(r).data@ == data,
                    old(r).pos == pos,
                decreases count - i,
            {
                let len: u64 = match read_u64(r) {
                    Ok(n) => n,
                    Err(e) => {
                        proof {
                            lemma_strings_fail(data, pos + 12, (i + 1) as nat, count as nat);
                        }
                        return Err(e);
                    },
                };
                match skip_bytes(r, len) {
                    Ok(_) => {},
                    Err(e) => {
                        proof {
                            lemma_strings_fail(data, pos + 12, (i + 1) as nat, count as nat);
                        }
                        return Err(e);
                    },
                }
                i += 1;
            }
            return Ok(MetaValue::Number(count));
        }
        let size: u64 = match gguf::scalar_size(element) {
            Ok(n) => n as u64,
            Err(_) => return Err(Fault::Malformed),
        };
        let left: u64 = (r.data.len() - r.pos) as u64;
        proof {
            assert(count > left ==> count * size > left) by (nonlinear_arith)
                requires
                    size >= 1,
            ;
            assert(count <= left && left <= 0x1fff_ffff_ffff_ffff ==> count * size
                <= 0xffff_ffff_ffff_fff8) by (nonlinear_arith)
                requires
                    size <= 8,
            ;
        }
        if count > left {
            return Err(Fault::Truncated);
        }
        let total: u64 = match count.checked_mul(size) {
            Some(total) => total,
            None => return Err(Fault::Truncated),
        };
        if total > left {
            return Err(Fault::Truncated);
        }
        if count <= 4096 {
            let mut values: Vec<u64> = Vec::new();
            let mut i: u64 = 0;
            let ghost all = numbers_at(data, pos + 12, size as nat, count as nat);
            while i < count
                invariant
                    r.wf(),
                    r.data == old(r).data,
                    data == r.data@,
                    i <= count,
                    size == 1 || size == 2 || size == 4 || size == 8,
                    r.pos == pos + 12 + i * size,
                    pos + 12 + count * size <= data.len(),
                    all == numbers_at(data, pos + 12, size as nat, count as nat),
                    values@ == all.take(i as int),
                decreases count - i,
            {
                proof {
                    assert(i * size + size <= count * size) by (nonlinear_arith)
                        requires
                            i + 1 <= count,
                    ;
                    assert((i + 1) * size == i * size + size) by (nonlinear_arith);
                }
                let n: u64 = match read_scalar(r, size) {
                    Ok(n) => n,
                    Err(e) => {
                        assert(false);
                        return Err(e);
                    },
                };
                values.push(n);
                proof {
                    assert(all[i as int] == n);
                    assert(values@ =~= all.take(i + 1));
                }
                i += 1;
            }
            proof {
                assert(all.take(count as int) =~= all);
            }
            return Ok(MetaValue::Numbers(values));
        }
        match skip_bytes(r, total) {
            Ok(_) => {},
            Err(e) => return Err(e),
        }
        return Ok(MetaValue::Number(count));
    }
    let size: u64 = match gguf::scalar_size(vt) {
        Ok(n) => n as u64,
        Err(_) => return Err(Fault::Malformed),
    };
    match read_scalar(r, size) {
        Ok(n) => Ok(MetaValue::Number(n)),
        Err(e) => Err(e),
    }
}

/// The SHA-256 digest of some bytes, in lower-case hexadecimal, as
/// `sha2::Sha256::digest` computes it.
pub uninterp spec fn digest(bytes: Seq<u8>) -> Seq<char>;

/// Calls `sha2::Sha256::digest` and writes the digest in hexadecimal. The
/// result is a function of the bytes.
#[verifier::external_body]
pub(crate) fn sha256_hex(bytes: &[u8]) -> (out: String)
    ensures
        out@ == digest(bytes@),
{
    format!("{:x}", <sha2::Sha256 as sha2::Digest>::digest(bytes))
}

/// What the vocabulary holds for token `id`: an empty token has a name of its own.
pub open spec fn token_text(id: nat, s: Seq<char>) -> Seq<char> {
    if s.len() == 0 {
        "[EMPTY_"@ + text::decimal_of(id) + "]"@
    } else {
        s
    }
}

/// What is hashed of token `id`: its number, the length of its text and the text,
/// both numbers in four bytes.
pub open spec fn token_bytes(id: nat, s: Seq<char>) -> Seq<u8> {
    let bytes = encode_utf8(token_text(id, s));
    gguf::le_bytes(id % 0x1_0000_0000, 4) + gguf::le_bytes(bytes.len() % 0x1_0000_0000, 4) + bytes
}

/// The first token that is hashed.
pub const FIRST_TOKEN: u64 = 5;

/// What is hashed of the first `n` tokens from `pos` on, and where they end.
pub open spec fn tokens_at(data: Seq<u8>, pos: int, n: nat) -> Result<(Seq<u8>, int), Fault>
    decreases n,
{
    if n == 0 {
        Ok((seq![], pos))
    } else {
        match tokens_at(data, pos, (n - 1) as nat) {
            Err(e) => Err(e),
            Ok((bytes, at)) => match string_at(data, at) {
                Err(e) => Err(e),
                Ok((s, end)) => if n <= FIRST_TOKEN {
                    Ok((bytes, end))
                } else {
                    Ok((bytes + token_bytes((n - 1) as nat, s), end))
                },
            },
        }
    }
}

/// The digests of the first tokens, for each count from `from` up to `n`.
pub open spec fn prefix_hashes_at(data: Seq<u8>, pos: int, from: nat, n: nat) -> Seq<
    (u64, Seq<char>),
>
    decreases n,
{
    if n <= FIRST_TOKEN {
        if FIRST_TOKEN >= from {
            seq![(FIRST_TOKEN, digest(seq![]))]
        } else {
            seq![]
        }
    } else {
        let earlier = prefix_hashes_at(data, pos, from, (n - 1) as nat);
        match tokens_at(data, pos, n) {
            Ok((bytes, _)) if n >= from => earlier.push((n as u64, digest(bytes))),
            _ => earlier,
        }
    }
}

/// From which count on the digests are kept: for the last 128 counts.
pub open spec fn hash_from(count: nat) -> nat {
    if count > 128 + FIRST_TOKEN {
        (count - 128) as nat
    } else {
        FIRST_TOKEN as nat
    }
}

/// A vocabulary: how many tokens it has, and for the last counts the digest of as
/// many tokens, in the order of the counts.
pub struct TokenizerMetadata {
    pub token_count: u64,
    pub prefix_hashes: Vec<(u64, String)>,
    pub bos_token_id: Option<u64>,
    pub eos_token_id: Option<u64>,
    pub add_bos_token: Option<bool>,
    pub add_eos_token: Option<bool>,
}

#[verifier::ext_equal]
pub ghost struct TokenizerView {
    pub token_count: u64,
    pub prefix_hashes: Seq<(u64, Seq<char>)>,
    pub bos_token_id: Option<u64>,
    pub eos_token_id: Option<u64>,
    pub add_bos_token: Option<bool>,
    pub add_eos_token: Option<bool>,
}

pub open spec fn hash_views(list: Seq<(u64, String)>) -> Seq<(u64, Seq<char>)> {
    list.map_values(|e: (u64, String)| (e.0, e.1@))
}

impl View for TokenizerMetadata {
    type V = TokenizerView;

    open spec fn view(&self) -> TokenizerView {
        TokenizerView {
            token_count: self.token_count,
            prefix_hashes: hash_views(self.prefix_hashes@),
            bos_token_id: self.bos_token_id,
            eos_token_id: self.eos_token_id,
            add_bos_token: self.add_bos_token,
            add_eos_token: self.add_eos_token,
        }
    }
}

/// The array of tokens at `pos` and where it ends.
pub open spec fn vocabulary_at(data: Seq<u8>, pos: int) -> Result<(TokenizerView, int), Fault> {
    match uint_at(data, pos, 4) {
        Err(e) => Err(e),
        Ok(element) => if element != 8 {
            Err(Fault::Malformed)
        } else {
            match uint_at(data, pos + 4, 8) {
                Err(e) => Err(e),
                Ok(count) => match tokens_at(data, pos + 12, count) {
                    Err(e) => Err(e),
                    Ok((_, end)) => Ok(
                        (
                            (TokenizerView {
                                token_count: count as u64,
                                prefix_hashes: prefix_hashes_at(
                                    data,
                                    pos + 12,
                                    hash_from(count),
                                    count,
                                ),
                                bos_token_id: None,
                                eos_token_id: None,
                                add_bos_token: None,
                                add_eos_token: None,
                            }),
                            end,
                        ),
                    ),
                },
            }
        },
    }
}

proof fn lemma_tokens_fail(data: Seq<u8>, pos: int, n: nat, more: nat)
    requires
        n <= more,
        tokens_at(data, pos, n) is Err,
    ensures
        tokens_at(data, pos, more) == tokens_at(data, pos, n),
    decreases more,
{
    if n < more {
        lemma_tokens_fail(data, pos, n, (more - 1) as nat);
    }
}

/// Appends what is hashed of one token.
fn hash_token(w: &mut Vec<u8>, id: u64, token: &str)
    ensures
        final(w)@ == old(w)@ + token_bytes(id as nat, token@),
{
    let mut named: String = String::new();
    let chars: Vec<char> = text::chars_of(token);
    let shown: &str = if chars.len() == 0 {
        named.append("[EMPTY_");
        named.append(text::decimal(id).as_str());
        named.append("]");
        proof {
            assert(named@ =~= token_text(id as nat, token@));
        }
        named.as_str()
    } else {
        token
    };
    let bytes: &[u8] = shown.as_bytes();
    gguf::write_u32(w, (id % 0x1_0000_0000) as u32);
    gguf::write_u32(w, (bytes.len() as u64 % 0x1_0000_0000) as u32);
    let ghost head = w@;
    let mut i: usize = 0;
    while i < bytes.len()
        invariant
            i <= bytes@.len(),
            w@ == head + bytes@.take(i as int),
        decreases bytes@.len() - i,
    {
        w.push(bytes[i]);
        i += 1;
    }
    proof {
        assert(bytes@.take(bytes@.len() as int) == bytes@);
        assert(w@ =~= old(w)@ + token_bytes(id as nat, token@));
    }
}

pub fn read_tokenizer_metadata(r: &mut Reader) -> (out: Result<TokenizerMetadata, Fault>)
    requires
        old(r).wf(),
    ensures
        final(r).wf(),
        final(r).data == old(r).data,
        match (out, vocabulary_at(old(r).data@, old(r).pos as int)) {
            (Ok(t), Ok((v, end))) => t@ == v && final(r).pos == end,
            (Err(e), Err(f)) => e == f,
            _ => false,
        },
{
    let ghost data = r.data@;
    let ghost pos = r.pos as int;
    let element: u32 = match read_u32(r) {
        Ok(n) => n,
        Err(e) => return Err(e),
    };
    if element != 8 {
        return Err(Fault::Malformed);
    }
    let token_count: u64 = match read_u64(r) {
        Ok(n) => n,
        Err(e) => return Err(e),
    };
    let from: u64 = if token_count > 128 + FIRST_TOKEN {
        token_count - 128
    } else {
        FIRST_TOKEN
    };
    let mut bytes: Vec<u8> = Vec::new();
    let mut prefix_hashes: Vec<(u64, String)> = Vec::new();
    proof {
        assert(bytes@ =~= Seq::<u8>::empty());
    }
    if FIRST_TOKEN >= from {
        prefix_hashes.push((FIRST_TOKEN, sha256_hex(bytes.as_slice())));
    }
    proof {
        assert(hash_views(prefix_hashes@) =~= prefix_hashes_at(data, pos + 12, from as nat, 0));
    }
    let mut id: u64 = 0;
    while id < token_count
        invariant
            r.wf(),
            r.data == old(r).data,
            data == r.data@,
            old(r).data@ == data,
            old(r).pos == pos,
            id <= token_count,
            from == hash_from(token_count as nat),
            tokens_at(data, pos + 12, id as nat) == Ok::<(Seq<u8>, int), Fault>(
                (bytes@, r.pos as int),
            ),
            hash_views(prefix_hashes@) == prefix_hashes_at(
                data,
                pos + 12,
                from as nat,
                id as nat,
            ),
            tokens_at(data, pos + 12, token_count as nat) is Err ==> vocabulary_at(data, pos)
                == Err::<(TokenizerView, int), Fault>(
                tokens_at(data, pos + 12, token_count as nat)->Err_0,
            ),
        decreases token_count - id,
    {
        let token: String = match read_string(r) {
            Ok(s) => s,
            Err(e) => {
                proof {
                    lemma_tokens_fail(data, pos + 12, (id + 1) as nat, token_count as nat);
                }
                return Err(e);
            },
        };
        if id >= FIRST_TOKEN {
            hash_token(&mut bytes, id, token.as_str());
            if id + 1 >= from {
                let ghost earlier = prefix_hashes@;
                prefix_hashes.push((id + 1, sha256_hex(bytes.as_slice())));
                proof {
                    assert(hash_views(prefix_hashes@) =~= hash_views(earlier).push(
                        ((id + 1) as u64, digest(bytes@)),
                    ));
                }
            }
        }
        id += 1;
    }
    Ok(
        TokenizerMetadata {
            token_count,
            prefix_hashes,
            bos_token_id: None,
            eos_token_id: None,
            add_bos_token: None,
            add_eos_token: None,
        },
    )
}

/// What the keys of a file say: the values in the order of the file, and the last
/// vocabulary.
#[verifier::ext_equal]
pub ghost struct KeysView {
    pub values: Seq<(Seq<char>, MetaValueView)>,
    pub tokenizer: Option<TokenizerView>,
}

/// The key under which the tokens stand.
pub open spec fn tokens_key() -> Seq<char> {
    "tokenizer.ggml.tokens"@
}

/// The first `n` keys from `pos` on and where they end.
pub open spec fn keys_at(data: Seq<u8>, pos: int, n: nat) -> Result<(KeysView, int), Fault>
    decreases n,
{
    if n == 0 {
        Ok(((KeysView { values: seq![], tokenizer: None }), pos))
    } else {
        match keys_at(data, pos, (n - 1) as nat) {
            Err(e) => Err(e),
            Ok((keys, at)) => match string_at(data, at) {
                Err(e) => Err(e),
                Ok((key, next)) => match uint_at(data, next, 4) {
                    Err(e) => Err(e),
                    Ok(vt) => if key == tokens_key() && vt == 9 {
                        match vocabulary_at(data, next + 4) {
                            Err(e) => Err(e),
                            Ok((t, end)) => Ok(
                                ((KeysView { tokenizer: Some(t), ..keys }), end),
                            ),
                        }
                    } else {
                        match meta_value_at(data, next + 4, vt as u32) {
                            Err(e) => Err(e),
                            Ok((v, end)) => Ok(
                                ((KeysView { values: keys.values.push((key, v)), ..keys }), end),
                            ),
                        }
                    },
                },
            },
        }
    }
}

proof fn lemma_keys_fail(data: Seq<u8>, pos: int, n: nat, more: nat)
    requires
        n <= more,
        keys_at(data, pos, n) is Err,
    ensures
        keys_at(data, pos, more) is Err,
        keys_at(data, pos, more)->Err_0 == keys_at(data, pos, n)->Err_0,
    decreases more,
{
    if n < more {
        lemma_keys_fail(data, pos, n, (more - 1) as nat);
    }
}

pub open spec fn value_views(list: Seq<(String, MetaValue)>) -> Seq<(Seq<char>, MetaValueView)> {
    list.map_values(|e: (String, MetaValue)| (e.0@, e.1@))
}

pub open spec fn tokenizer_view(t: Option<TokenizerMetadata>) -> Option<TokenizerView> {
    match t {
        Some(t) => Some(t@),
        None => None,
    }
}

/// Reads `count` keys.
fn read_keys(r: &mut Reader, count: u64) -> (out: Result<
    (Vec<(String, MetaValue)>, Option<TokenizerMetadata>),
    Fault,
>)
    requires
        old(r).wf(),
    ensures
        final(r).wf(),
        final(r).data == old(r).data,
        match (out, keys_at(old(r).data@, old(r).pos as int, count as nat)) {
            (Ok((values, tokenizer)), Ok((keys, end))) => value_views(values@) == keys.values
                && tokenizer_view(tokenizer) == keys.tokenizer && final(r).pos == end,
            (Err(e), Err(f)) => e == f,
            _ => false,
        },
{
    let ghost data = r.data@;
    let ghost pos = r.pos as int;
    let mut values: Vec<(String, MetaValue)> = Vec::new();
    let mut tokenizer: Option<TokenizerMetadata> = None;
    proof {
        assert(value_views(values@) =~= seq![]);
    }
    let mut i: u64 = 0;
    while i < count
        invariant
            r.wf(),
            r.data == old(r).data,
            data == r.data@,
            old(r).data@ == data,
            old(r).pos == pos,
            i <= count,
            keys_at(data, pos, i as nat) == Ok::<(KeysView, int), Fault>(
                (
                    (KeysView {
                        values: value_views(values@),
                        tokenizer: tokenizer_view(tokenizer),
                    }),
                    r.pos as int,
                ),
            ),
        decreases count - i,
    {
        proof {
            if keys_at(data, pos, (i + 1) as nat) is Err {
                lemma_keys_fail(data, pos, (i + 1) as nat, count as nat);
            }
        }
        let key: String = match read_string(r) {
            Ok(s) => s,
            Err(e) => return Err(e),
        };
        let vt: u32 = match read_u32(r) {
            Ok(n) => n,
            Err(e) => return Err(e),
        };
        if text::same(key.as_str(), "tokenizer.ggml.tokens") && vt == 9 {
            let t: TokenizerMetadata = match read_tokenizer_metadata(r) {
                Ok(t) => t,
                Err(e) => return Err(e),
            };
            tokenizer = Some(t);
        } else {
            let value: MetaValue = match read_meta_value(r, vt) {
                Ok(v) => v,
                Err(e) => return Err(e),
            };
            let ghost earlier = values@;
            let ghost entry = (key@, value@);
            values.push((key, value));
            proof {
                assert(value_views(values@) =~= value_views(earlier).push(entry));
            }
        }
        i += 1;
    }
    Ok((values, tokenizer))
}

/// What the program needs of a file's metadata.
pub struct GgufMetadata {
    pub context_length: Option<u64>,
    pub block_count: Option<u64>,
    pub embedding_length: Option<u64>,
    pub attention_heads: Option<u64>,
    pub kv_heads: Vec<u64>,
    pub key_length: Vec<u64>,
    pub value_length: Vec<u64>,
    pub sliding_window: Option<u64>,
    pub sliding_pattern: Vec<u64>,
    pub pooling_type: Option<u64>,
    pub nextn_layers: Option<u64>,
    pub mtp_markers: Vec<String>,
    pub tokenizer: Option<TokenizerMetadata>,
}

#[verifier::ext_equal]
pub ghost struct GgufView {
    pub context_length: Option<u64>,
    pub block_count: Option<u64>,
    pub embedding_length: Option<u64>,
    pub attention_heads: Option<u64>,
    pub kv_heads: Seq<u64>,
    pub key_length: Seq<u64>,
    pub value_length: Seq<u64>,
    pub sliding_window: Option<u64>,
    pub sliding_pattern: Seq<u64>,
    pub pooling_type: Option<u64>,
    pub nextn_layers: Option<u64>,
    pub mtp_markers: Seq<Seq<char>>,
    pub tokenizer: Option<TokenizerView>,
}

impl View for GgufMetadata {
    type V = GgufView;

    open spec fn view(&self) -> GgufView {
        GgufView {
            context_length: self.context_length,
            block_count: self.block_count,
            embedding_length: self.embedding_length,
            attention_heads: self.attention_heads,
            kv_heads: self.kv_heads@,
            key_length: self.key_length@,
            value_length: self.value_length@,
            sliding_window: self.sliding_window,
            sliding_pattern: self.sliding_pattern@,
            pooling_type: self.pooling_type,
            nextn_layers: self.nextn_layers,
            mtp_markers: text::views(self.mtp_markers@),
            tokenizer: tokenizer_view(self.tokenizer),
        }
    }
}

/// The value of a key: the last one, where the key stands more than once.
pub open spec fn last_value(values: Seq<(Seq<char>, MetaValueView)>, key: Seq<char>) -> Option<
    MetaValueView,
>
    decreases values.len(),
{
    if values.len() == 0 {
        None
    } else if values.last().0 == key {
        Some(values.last().1)
    } else {
        last_value(values.drop_last(), key)
    }
}

pub open spec fn number_under(values: Seq<(Seq<char>, MetaValueView)>, key: Seq<char>) -> Option<
    u64,
> {
    match last_value(values, key) {
        Some(v) => number_in(v),
        None => None,
    }
}

pub open spec fn flag_under(values: Seq<(Seq<char>, MetaValueView)>, key: Seq<char>) -> Option<
    bool,
> {
    match number_under(values, key) {
        Some(n) => Some(n != 0),
        None => None,
    }
}

pub open spec fn numbers_under(values: Seq<(Seq<char>, MetaValueView)>, key: Seq<char>) -> Seq<
    u64,
> {
    match last_value(values, key) {
        Some(v) => numbers_in(v),
        None => seq![],
    }
}

/// The name of a key that belongs to an architecture.
pub open spec fn arch_key(architecture: Seq<char>, suffix: Seq<char>) -> Seq<char> {
    architecture + "."@ + suffix
}

/// The list with a marker, unless it has it or the tensor's name does not end in
/// `suffix`.
pub open spec fn marked(
    list: Seq<Seq<char>>,
    name: Seq<char>,
    suffix: Seq<char>,
    marker: Seq<char>,
) -> Seq<Seq<char>> {
    if suffix.is_suffix_of(name) && !list.contains(marker) {
        list.push(marker)
    } else {
        list
    }
}

/// The list with the markers that a tensor's name shows.
pub open spec fn marked_by(list: Seq<Seq<char>>, name: Seq<char>) -> Seq<Seq<char>> {
    let one = marked(list, name, ".nextn.eh_proj.weight"@, "eh_proj"@);
    let two = marked(one, name, ".nextn.enorm.weight"@, "enorm"@);
    marked(two, name, ".nextn.hnorm.weight"@, "hnorm"@)
}

/// The markers that the names of the first `n` tensors from `pos` on show, and
/// where those tensors end.
pub open spec fn markers_at(data: Seq<u8>, pos: int, n: nat) -> Result<(Seq<Seq<char>>, int), Fault>
    decreases n,
{
    if n == 0 {
        Ok((seq![], pos))
    } else {
        match markers_at(data, pos, (n - 1) as nat) {
            Err(e) => Err(e),
            Ok((list, at)) => match string_at(data, at) {
                Err(e) => Err(e),
                Ok((name, next)) => match uint_at(data, next, 4) {
                    Err(e) => Err(e),
                    Ok(dims) => if next + 4 + dims * 8 + 12 > data.len() {
                        Err(Fault::Truncated)
                    } else {
                        Ok((marked_by(list, name), next + 4 + dims * 8 + 12))
                    },
                },
            },
        }
    }
}

proof fn lemma_markers_fail(data: Seq<u8>, pos: int, n: nat, more: nat)
    requires
        n <= more,
        markers_at(data, pos, n) is Err,
    ensures
        markers_at(data, pos, more) is Err,
        markers_at(data, pos, more)->Err_0 == markers_at(data, pos, n)->Err_0,
    decreases more,
{
    if n < more {
        lemma_markers_fail(data, pos, n, (more - 1) as nat);
    }
}

/// The counts of tensors and keys in the head of a file.
pub open spec fn counts_of(data: Seq<u8>) -> Result<(nat, nat), Fault> {
    if data.len() < 4 {
        Err(Fault::Truncated)
    } else if data.take(4) != gguf::magic() {
        Err(Fault::Malformed)
    } else {
        match (uint_at(data, 8, 8), uint_at(data, 16, 8)) {
            (Ok(tensors), Ok(keys)) => Ok((tensors, keys)),
            _ => Err(Fault::Truncated),
        }
    }
}

/// What the keys of a file and the markers of its tensors say together.
pub open spec fn metadata_from(keys: KeysView, markers: Seq<Seq<char>>) -> Result<GgufView, Fault> {
    let v = keys.values;
    match last_value(v, "general.architecture"@) {
        Some(MetaValueView::Text(a)) => Ok(
            GgufView {
                context_length: number_under(v, arch_key(a, "context_length"@)),
                block_count: number_under(v, arch_key(a, "block_count"@)),
                embedding_length: number_under(v, arch_key(a, "embedding_length"@)),
                attention_heads: number_under(v, arch_key(a, "attention.head_count"@)),
                kv_heads: numbers_under(v, arch_key(a, "attention.head_count_kv"@)),
                key_length: numbers_under(v, arch_key(a, "attention.key_length"@)),
                value_length: numbers_under(v, arch_key(a, "attention.value_length"@)),
                sliding_window: number_under(v, arch_key(a, "attention.sliding_window"@)),
                sliding_pattern: numbers_under(
                    v,
                    arch_key(a, "attention.sliding_window_pattern"@),
                ),
                pooling_type: number_under(v, arch_key(a, "pooling_type"@)),
                nextn_layers: number_under(v, arch_key(a, "nextn_predict_layers"@)),
                mtp_markers: markers,
                tokenizer: match keys.tokenizer {
                    Some(t) => Some(
                        TokenizerView {
                            bos_token_id: number_under(v, "tokenizer.ggml.bos_token_id"@),
                            eos_token_id: number_under(v, "tokenizer.ggml.eos_token_id"@),
                            add_bos_token: flag_under(v, "tokenizer.ggml.add_bos_token"@),
                            add_eos_token: flag_under(v, "tokenizer.ggml.add_eos_token"@),
                            ..t
                        },
                    ),
                    None => None,
                },
            },
        ),
        _ => Err(Fault::Malformed),
    }
}

/// The metadata of a file. The names of its tensors are read only where `scan`
/// asks for the markers.
pub open spec fn metadata_of(data: Seq<u8>, scan: bool) -> Result<GgufView, Fault> {
    match counts_of(data) {
        Err(e) => Err(e),
        Ok((tensors, count)) => match keys_at(data, 24, count) {
            Err(e) => Err(e),
            Ok((keys, end)) => if scan {
                match markers_at(data, end, tensors) {
                    Err(e) => Err(e),
                    Ok((markers, _)) => metadata_from(keys, markers),
                }
            } else {
                metadata_from(keys, seq![])
            },
        },
    }
}

fn find_value<'a>(values: &'a Vec<(String, MetaValue)>, key: &str) -> (out: Option<&'a MetaValue>)
    ensures
        match (out, last_value(value_views(values@), key@)) {
            (Some(v), Some(w)) => v@ == w,
            (None, None) => true,
            _ => false,
        },
{
    let ghost all = value_views(values@);
    let mut n: usize = values.len();
    proof {
        assert(all.take(n as int) =~= all);
    }
    while n > 0
        invariant
            n <= values@.len(),
            all == value_views(values@),
            last_value(all.take(n as int), key@) == last_value(all, key@),
        decreases n,
    {
        proof {
            assert(all.take(n as int).drop_last() =~= all.take(n - 1));
            assert(all.take(n as int).last() == all[n - 1]);
        }
        if text::same(values[n - 1].0.as_str(), key) {
            return Some(&values[n - 1].1);
        }
        n -= 1;
    }
    None
}

fn number_at_key(values: &Vec<(String, MetaValue)>, key: &str) -> (out: Option<u64>)
    ensures
        out == number_under(value_views(values@), key@),
{
    match find_value(values, key) {
        Some(v) => v.number(),
        None => None,
    }
}

fn flag_at_key(values: &Vec<(String, MetaValue)>, key: &str) -> (out: Option<bool>)
    ensures
        out == flag_under(value_views(values@), key@),
{
    match find_value(values, key) {
        Some(v) => v.boolean(),
        None => None,
    }
}

fn numbers_at_key(values: &Vec<(String, MetaValue)>, key: &str) -> (out: Vec<u64>)
    ensures
        out@ == numbers_under(value_views(values@), key@),
{
    match find_value(values, key) {
        Some(v) => v.numbers(),
        None => {
            let out: Vec<u64> = Vec::new();
            proof {
                assert(out@ =~= seq![]);
            }
            out
        },
    }
}

fn key_of(architecture: &str, suffix: &str) -> (out: String)
    ensures
        out@ == arch_key(architecture@, suffix@),
{
    let mut out: String = architecture.to_owned();
    out.append(".");
    out.append(suffix);
    out
}

fn add_marker(list: &mut Vec<String>, name: &str, suffix: &str, marker: &str)
    ensures
        text::views(final(list)@) == marked(text::views(old(list)@), name@, suffix@, marker@),
{
    if text::ends_with(name, suffix) && !profiles::holds_text(list, marker) {
        let item: String = marker.to_owned();
        proof {
            profiles::lemma_views_push(list@, item);
        }
        list.push(item);
    }
}

/// Reads the names of `count` tensors for their markers.
fn read_markers(r: &mut Reader, count: u64) -> (out: Result<Vec<String>, Fault>)
    requires
        old(r).wf(),
    ensures
        final(r).wf(),
        final(r).data == old(r).data,
        match (out, markers_at(old(r).data@, old(r).pos as int, count as nat)) {
            (Ok(list), Ok((markers, end))) => text::views(list@) == markers && final(r).pos == end,
            (Err(e), Err(f)) => e == f,
            _ => false,
        },
{
    let ghost data = r.data@;
    let ghost pos = r.pos as int;
    let mut list: Vec<String> = Vec::new();
    proof {
        assert(text::views(list@) =~= seq![]);
    }
    let mut i: u64 = 0;
    while i < count
        invariant
            r.wf(),
            r.data == old(r).data,
            data == r.data@,
            old(r).data@ == data,
            old(r).pos == pos,
            i <= count,
            markers_at(data, pos, i as nat) == Ok::<(Seq<Seq<char>>, int), Fault>(
                (text::views(list@), r.pos as int),
            ),
        decreases count - i,
    {
        proof {
            if markers_at(data, pos, (i + 1) as nat) is Err {
                lemma_markers_fail(data, pos, (i + 1) as nat, count as nat);
            }
        }
        let name: String = match read_string(r) {
            Ok(s) => s,
            Err(e) => return Err(e),
        };
        let dims: u32 = match read_u32(r) {
            Ok(n) => n,
            Err(e) => return Err(e),
        };
        match skip_bytes(r, dims as u64 * 8 + 12) {
            Ok(_) => {},
            Err(e) => return Err(e),
        }
        add_marker(&mut list, name.as_str(), ".nextn.eh_proj.weight", "eh_proj");
        add_marker(&mut list, name.as_str(), ".nextn.enorm.weight", "enorm");
        add_marker(&mut list, name.as_str(), ".nextn.hnorm.weight", "hnorm");
        i += 1;
    }
    Ok(list)
}

/// Reads the head of a file up to the first key.
fn read_counts(r: &mut Reader) -> (out: Result<(u64, u64), Fault>)
    requires
        old(r).wf(),
        old(r).pos == 0,
    ensures
        final(r).wf(),
        final(r).data == old(r).data,
        match (out, counts_of(old(r).data@)) {
            (Ok((tensors, keys)), Ok((t, k))) => tensors == t && keys == k && final(r).pos == 24,
            (Err(e), Err(f)) => e == f,
            _ => false,
        },
{
    match skip_bytes(r, 4) {
        Ok(_) => {},
        Err(e) => return Err(e),
    }
    let fits: bool = r.data[0] == 0x47 && r.data[1] == 0x47 && r.data[2] == 0x55 && r.data[3]
        == 0x46;
    proof {
        let head = r.data@.take(4);
        if fits {
            assert(head =~= gguf::magic());
        } else {
            assert(head[0] != gguf::magic()[0] || head[1] != gguf::magic()[1] || head[2]
                != gguf::magic()[2] || head[3] != gguf::magic()[3]);
        }
    }
    if !fits {
        return Err(Fault::Malformed);
    }
    let _version: u32 = match read_u32(r) {
        Ok(n) => n,
        Err(e) => return Err(e),
    };
    let tensors: u64 = match read_u64(r) {
        Ok(n) => n,
        Err(e) => return Err(e),
    };
    let keys: u64 = match read_u64(r) {
        Ok(n) => n,
        Err(e) => return Err(e),
    };
    Ok((tensors, keys))
}

/// Reads the metadata at the front of a file, of which `data` holds the first
/// bytes or all of them.
pub fn read_gguf_metadata(data: &[u8], scan_markers: bool) -> (out: Result<GgufMetadata, Fault>)
    ensures
        match (out, metadata_of(data@, scan_markers)) {
            (Ok(m), Ok(v)) => m@ == v,
            (Err(e), Err(f)) => e == f,
            _ => false,
        },
{
    let mut r: Reader = Reader::new(data);
    let (tensors, count): (u64, u64) = match read_counts(&mut r) {
        Ok(pair) => pair,
        Err(e) => return Err(e),
    };
    let (values, tokenizer): (Vec<(String, MetaValue)>, Option<TokenizerMetadata>) =
        match read_keys(&mut r, count) {
        Ok(pair) => pair,
        Err(e) => return Err(e),
    };
    let mut markers: Vec<String> = Vec::new();
    proof {
        assert(text::views(markers@) =~= seq![]);
    }
    if scan_markers {
        markers =
        match read_markers(&mut r, tensors) {
            Ok(list) => list,
            Err(e) => return Err(e),
        };
    }
    let found: Option<&MetaValue> = find_value(&values, "general.architecture");
    let architecture: String = match found {
        Some(MetaValue::Text(s)) => s.clone(),
        _ => return Err(Fault::Malformed),
    };
    let a: &str = architecture.as_str();
    let tokenizer: Option<TokenizerMetadata> = match tokenizer {
        Some(t) => Some(
            TokenizerMetadata {
                token_count: t.token_count,
                prefix_hashes: t.prefix_hashes,
                bos_token_id: number_at_key(&values, "tokenizer.ggml.bos_token_id"),
                eos_token_id: number_at_key(&values, "tokenizer.ggml.eos_token_id"),
                add_bos_token: flag_at_key(&values, "tokenizer.ggml.add_bos_token"),
                add_eos_token: flag_at_key(&values, "tokenizer.ggml.add_eos_token"),
            },
        ),
        None => None,
    };
    Ok(
        GgufMetadata {
            context_length: number_at_key(&values, key_of(a, "context_length").as_str()),
            block_count: number_at_key(&values, key_of(a, "block_count").as_str()),
            embedding_length: number_at_key(&values, key_of(a, "embedding_length").as_str()),
            attention_heads: number_at_key(&values, key_of(a, "attention.head_count").as_str()),
            kv_heads: numbers_at_key(&values, key_of(a, "attention.head_count_kv").as_str()),
            key_length: numbers_at_key(&values, key_of(a, "attention.key_length").as_str()),
            value_length: numbers_at_key(&values, key_of(a, "attention.value_length").as_str()),
            sliding_window: number_at_key(&values, key_of(a, "attention.sliding_window").as_str()),
            sliding_pattern: numbers_at_key(
                &values,
                key_of(a, "attention.sliding_window_pattern").as_str(),
            ),
            pooling_type: number_at_key(&values, key_of(a, "pooling_type").as_str()),
            nextn_layers: number_at_key(&values, key_of(a, "nextn_predict_layers").as_str()),
            mtp_markers: markers,
            tokenizer,
        },
    )
}

/// What the keys tell of a model's kind: the architecture and the number of
/// blocks.
#[verifier::ext_equal]
pub ghost struct Shape {
    pub architecture: Option<Seq<char>>,
    pub block_count: Option<u64>,
}

/// The shape after one more key.
pub open spec fn shaped(s: Shape, key: Seq<char>, v: MetaValueView) -> Shape {
    if key == "general.architecture"@ {
        Shape { architecture: text_in(v), ..s }
    } else {
        match s.architecture {
            Some(a) if key == arch_key(a, "block_count"@) => Shape {
                block_count: number_in(v),
                ..s
            },
            _ => s,
        }
    }
}

/// The shape that the first `n` keys from `pos` on give, and where reading stops:
/// nothing is read once both facts are known.
pub open spec fn shape_at(data: Seq<u8>, pos: int, n: nat) -> Result<(Shape, int), Fault>
    decreases n,
{
    if n == 0 {
        Ok(((Shape { architecture: None, block_count: None }), pos))
    } else {
        match shape_at(data, pos, (n - 1) as nat) {
            Err(e) => Err(e),
            Ok((s, at)) => if s.architecture is Some && s.block_count is Some {
                Ok((s, at))
            } else {
                match string_at(data, at) {
                    Err(e) => Err(e),
                    Ok((key, next)) => match uint_at(data, next, 4) {
                        Err(e) => Err(e),
                        Ok(vt) => match meta_value_at(data, next + 4, vt as u32) {
                            Err(e) => Err(e),
                            Ok((v, end)) => Ok((shaped(s, key, v), end)),
                        },
                    },
                }
            },
        }
    }
}

/// The architecture of a file and its number of blocks.
pub open spec fn shape_of(data: Seq<u8>) -> Result<(Seq<char>, Option<u64>), Fault> {
    match counts_of(data) {
        Err(e) => Err(e),
        Ok((_, count)) => match shape_at(data, 24, count) {
            Err(e) => Err(e),
            Ok((s, _)) => match s.architecture {
                Some(a) => Ok((a, s.block_count)),
                None => Err(Fault::Malformed),
            },
        },
    }
}

proof fn lemma_shape_fail(data: Seq<u8>, pos: int, n: nat, more: nat)
    requires
        n <= more,
        shape_at(data, pos, n) is Err,
    ensures
        shape_at(data, pos, more) == shape_at(data, pos, n),
    decreases more,
{
    if n < more {
        lemma_shape_fail(data, pos, n, (more - 1) as nat);
    }
}

proof fn lemma_shape_known(data: Seq<u8>, pos: int, n: nat, more: nat)
    requires
        n <= more,
        shape_at(data, pos, n) is Ok,
        shape_at(data, pos, n)->Ok_0.0.architecture is Some,
        shape_at(data, pos, n)->Ok_0.0.block_count is Some,
    ensures
        shape_at(data, pos, more) == shape_at(data, pos, n),
    decreases more,
{
    if n < more {
        lemma_shape_known(data, pos, n, (more - 1) as nat);
    }
}

pub open spec fn text_view(t: Option<String>) -> Option<Seq<char>> {
    match t {
        Some(s) => Some(s@),
        None => None,
    }
}

/// Reads the architecture and the number of blocks, and no more keys than that
/// takes: both stand near the front of a file, before the long vocabulary.
pub fn architecture_and_block_count(data: &[u8]) -> (out: Result<(String, Option<u64>), Fault>)
    ensures
        match (out, shape_of(data@)) {
            (Ok((a, n)), Ok((b, m))) => a@ == b && n == m,
            (Err(e), Err(f)) => e == f,
            _ => false,
        },
{
    let mut r: Reader = Reader::new(data);
    let (_, count): (u64, u64) = match read_counts(&mut r) {
        Ok(pair) => pair,
        Err(e) => return Err(e),
    };
    let mut architecture: Option<String> = None;
    let mut block_count: Option<u64> = None;
    let mut i: u64 = 0;
    while i < count && (architecture.is_none() || block_count.is_none())
        invariant
            r.wf(),
            r.data@ == data@,
            i <= count,
            counts_of(data@) is Ok,
            counts_of(data@)->Ok_0.1 == count,
            shape_at(data@, 24, i as nat) == Ok::<(Shape, int), Fault>(
                (
                    (Shape { architecture: text_view(architecture), block_count }),
                    r.pos as int,
                ),
            ),
        decreases count - i,
    {
        proof {
            if shape_at(data@, 24, (i + 1) as nat) is Err {
                lemma_shape_fail(data@, 24, (i + 1) as nat, count as nat);
            }
        }
        let key: String = match read_string(&mut r) {
            Ok(s) => s,
            Err(e) => return Err(e),
        };
        let vt: u32 = match read_u32(&mut r) {
            Ok(n) => n,
            Err(e) => return Err(e),
        };
        let value: MetaValue = match read_meta_value(&mut r, vt) {
            Ok(v) => v,
            Err(e) => return Err(e),
        };
        if text::same(key.as_str(), "general.architecture") {
            architecture =
            match value {
                MetaValue::Text(s) => Some(s),
                _ => None,
            };
        } else {
            let counted: bool = match &architecture {
                Some(a) => text::same(key.as_str(), key_of(a.as_str(), "block_count").as_str()),
                None => false,
            };
            if counted {
                block_count = value.number();
            }
        }
        i += 1;
    }
    proof {
        if i < count {
            lemma_shape_known(data@, 24, i as nat, count as nat);
        }
    }
    match architecture {
        Some(a) => Ok((a, block_count)),
        None => Err(Fault::Malformed),
    }
}

/// How many elements a block of a tensor type holds and how many bytes it takes.
pub open spec fn type_size_of(t: u32) -> Option<(u64, u64)> {
    match t {
        0 => Some((1, 4)),
        1 => Some((1, 2)),
        2 => Some((32, 18)),
        3 => Some((32, 20)),
        6 => Some((32, 22)),
        7 => Some((32, 24)),
        8 => Some((32, 34)),
        9 => Some((32, 40)),
        10 => Some((256, 84)),
        11 => Some((256, 110)),
        12 => Some((256, 144)),
        13 => Some((256, 176)),
        14 => Some((256, 210)),
        15 => Some((256, 292)),
        16 => Some((256, 66)),
        17 => Some((256, 74)),
        18 => Some((256, 98)),
        19 => Some((256, 50)),
        20 => Some((32, 18)),
        21 => Some((256, 110)),
        22 => Some((256, 82)),
        23 => Some((256, 136)),
        24 => Some((1, 1)),
        25 => Some((1, 2)),
        26 => Some((1, 4)),
        27 => Some((1, 8)),
        28 => Some((1, 8)),
        29 => Some((256, 56)),
        30 => Some((1, 2)),
        31 => Some((32, 18)),
        32 => Some((32, 18)),
        33 => Some((32, 18)),
        34 => Some((256, 54)),
        35 => Some((256, 66)),
        39 => Some((32, 17)),
        40 => Some((16, 9)),
        _ => None,
    }
}

pub fn ggml_type_size(t: u32) -> (out: Option<(u64, u64)>)
    ensures
        out == type_size_of(t),
{
    match t {
        0 => Some((1, 4)),
        1 => Some((1, 2)),
        2 => Some((32, 18)),
        3 => Some((32, 20)),
        6 => Some((32, 22)),
        7 => Some((32, 24)),
        8 => Some((32, 34)),
        9 => Some((32, 40)),
        10 => Some((256, 84)),
        11 => Some((256, 110)),
        12 => Some((256, 144)),
        13 => Some((256, 176)),
        14 => Some((256, 210)),
        15 => Some((256, 292)),
        16 => Some((256, 66)),
        17 => Some((256, 74)),
        18 => Some((256, 98)),
        19 => Some((256, 50)),
        20 => Some((32, 18)),
        21 => Some((256, 110)),
        22 => Some((256, 82)),
        23 => Some((256, 136)),
        24 => Some((1, 1)),
        25 => Some((1, 2)),
        26 => Some((1, 4)),
        27 => Some((1, 8)),
        28 => Some((1, 8)),
        29 => Some((256, 56)),
        30 => Some((1, 2)),
        31 => Some((32, 18)),
        32 => Some((32, 18)),
        33 => Some((32, 18)),
        34 => Some((256, 54)),
        35 => Some((256, 66)),
        39 => Some((32, 17)),
        40 => Some((16, 9)),
        _ => None,
    }
}

/// The layer that a tensor's name gives: the number in `blk.` number `.` at its
/// front.
pub open spec fn layer_of(name: Seq<char>) -> Option<usize> {
    if !"blk."@.is_prefix_of(name) {
        None
    } else {
        let rest = name.skip("blk."@.len() as int);
        let n = text::run(rest, digits()) as int;
        if n < rest.len() && rest[n] == '.' {
            match text::number_of(rest.take(n), usize::MAX as nat) {
                Some(k) => Some(k as usize),
                None => None,
            }
        } else {
            None
        }
    }
}

/// Being a digit, as a function.
pub open spec fn digits() -> spec_fn(char) -> bool {
    |c: char| text::is_digit(c)
}

fn layer(name: &str) -> (out: Option<usize>)
    ensures
        out == layer_of(name@),
{
    if !text::starts_with(name, "blk.") {
        return None;
    }
    let chars: Vec<char> = text::chars_of(name);
    proof {
        reveal_strlit("blk.");
    }
    let ghost rest = name@.skip(4);
    let mut n: usize = 4;
    while n < chars.len() && ('0' <= chars[n] && chars[n] <= '9')
        invariant
            chars@ == name@,
            4 <= n <= chars@.len(),
            rest == name@.skip(4),
            forall|j: int| 0 <= j < n - 4 ==> digits()(#[trigger] rest[j]),
        decreases chars@.len() - n,
    {
        n += 1;
    }
    proof {
        assert(n < chars@.len() ==> rest[n - 4] == chars@[n as int]);
        text::lemma_run_unique(rest, digits(), n - 4);
        assert(rest.take(n - 4) =~= name@.subrange(4, n as int));
    }
    if n < chars.len() && chars[n] == '.' {
        let number: String = text::part_text(chars.as_slice(), 4, n);
        match text::parse_u64(number.as_str()) {
            Some(k) => if k <= usize::MAX as u64 {
                Some(k as usize)
            } else {
                None
            },
            None => None,
        }
    } else {
        None
    }
}

/// A product that stays at the largest number where it would go beyond it.
pub open spec fn saturated(a: u64, b: u64) -> u64 {
    if a * b <= u64::MAX {
        (a * b) as u64
    } else {
        u64::MAX
    }
}

/// The product of the first `n` dimensions from `pos` on.
pub open spec fn elements_at(data: Seq<u8>, pos: int, n: nat) -> Result<u64, Fault>
    decreases n,
{
    if n == 0 {
        Ok(1)
    } else {
        match elements_at(data, pos, (n - 1) as nat) {
            Err(e) => Err(e),
            Ok(product) => match uint_at(data, pos + 8 * (n - 1), 8) {
                Err(e) => Err(e),
                Ok(d) => Ok(saturated(product, d as u64)),
            },
        }
    }
}

/// The bytes that so many elements of a type take; zero where the type is unknown
/// or the number too large.
pub open spec fn size_of_elements(elements: u64, t: u32) -> u64 {
    match type_size_of(t) {
        Some((block, bytes)) => if elements * bytes <= u64::MAX {
            (elements * bytes / block as int) as u64
        } else {
            0
        },
        None => 0,
    }
}

/// One tensor: its name, its layer and its size.
pub type TensorInfo = (String, Option<usize>, u64);

pub type TensorInfoView = (Seq<char>, Option<usize>, u64);

/// The tensor at `pos` and where it ends.
pub open spec fn tensor_info_at(data: Seq<u8>, pos: int) -> Result<(TensorInfoView, int), Fault> {
    match string_at(data, pos) {
        Err(e) => Err(e),
        Ok((name, next)) => match uint_at(data, next, 4) {
            Err(e) => Err(e),
            Ok(dims) => match elements_at(data, next + 4, dims) {
                Err(e) => Err(e),
                Ok(elements) => {
                    let at = next + 4 + 8 * dims;
                    match (uint_at(data, at, 4), uint_at(data, at + 4, 8)) {
                        (Ok(t), Ok(_)) => Ok(
                            ((name, layer_of(name), size_of_elements(elements, t as u32)), at + 12),
                        ),
                        _ => Err(Fault::Truncated),
                    }
                },
            },
        },
    }
}

/// The first `n` tensors from `pos` on and where they end.
pub open spec fn tensor_infos_at(data: Seq<u8>, pos: int, n: nat) -> Result<
    (Seq<TensorInfoView>, int),
    Fault,
>
    decreases n,
{
    if n == 0 {
        Ok((seq![], pos))
    } else {
        match tensor_infos_at(data, pos, (n - 1) as nat) {
            Err(e) => Err(e),
            Ok((list, at)) => match tensor_info_at(data, at) {
                Err(e) => Err(e),
                Ok((t, end)) => Ok((list.push(t), end)),
            },
        }
    }
}

/// Where the first `n` keys from `pos` on end.
pub open spec fn keys_end(data: Seq<u8>, pos: int, n: nat) -> Result<int, Fault>
    decreases n,
{
    if n == 0 {
        Ok(pos)
    } else {
        match keys_end(data, pos, (n - 1) as nat) {
            Err(e) => Err(e),
            Ok(at) => match string_at(data, at) {
                Err(e) => Err(e),
                Ok((_, next)) => match uint_at(data, next, 4) {
                    Err(e) => Err(e),
                    Ok(vt) => match meta_value_at(data, next + 4, vt as u32) {
                        Err(e) => Err(e),
                        Ok((_, end)) => Ok(end),
                    },
                },
            },
        }
    }
}

/// The tensors of a file.
pub open spec fn tensor_infos_of(data: Seq<u8>) -> Result<Seq<TensorInfoView>, Fault> {
    match counts_of(data) {
        Err(e) => Err(e),
        Ok((tensors, count)) => match keys_end(data, 24, count) {
            Err(e) => Err(e),
            Ok(end) => match tensor_infos_at(data, end, tensors) {
                Err(e) => Err(e),
                Ok((list, _)) => Ok(list),
            },
        },
    }
}

proof fn lemma_elements_fail(data: Seq<u8>, pos: int, n: nat, more: nat)
    requires
        n <= more,
        elements_at(data, pos, n) is Err,
    ensures
        elements_at(data, pos, more) == elements_at(data, pos, n),
    decreases more,
{
    if n < more {
        lemma_elements_fail(data, pos, n, (more - 1) as nat);
    }
}

proof fn lemma_tensor_infos_fail(data: Seq<u8>, pos: int, n: nat, more: nat)
    requires
        n <= more,
        tensor_infos_at(data, pos, n) is Err,
    ensures
        tensor_infos_at(data, pos, more) == tensor_infos_at(data, pos, n),
    decreases more,
{
    if n < more {
        lemma_tensor_infos_fail(data, pos, n, (more - 1) as nat);
    }
}

proof fn lemma_keys_end_fail(data: Seq<u8>, pos: int, n: nat, more: nat)
    requires
        n <= more,
        keys_end(data, pos, n) is Err,
    ensures
        keys_end(data, pos, more) == keys_end(data, pos, n),
    decreases more,
{
    if n < more {
        lemma_keys_end_fail(data, pos, n, (more - 1) as nat);
    }
}

fn sized(elements: u64, t: u32) -> (out: u64)
    ensures
        out == size_of_elements(elements, t),
{
    match ggml_type_size(t) {
        Some((block, bytes)) => match elements.checked_mul(bytes) {
            Some(product) => product / block,
            None => 0,
        },
        None => 0,
    }
}

fn read_tensor_info(r: &mut Reader) -> (out: Result<TensorInfo, Fault>)
    requires
        old(r).wf(),
    ensures
        final(r).wf(),
        final(r).data == old(r).data,
        match (out, tensor_info_at(old(r).data@, old(r).pos as int)) {
            (Ok(t), Ok((v, end))) => (t.0@, t.1, t.2) == v && final(r).pos == end,
            (Err(e), Err(f)) => e == f,
            _ => false,
        },
{
    let ghost data = r.data@;
    let ghost pos = r.pos as int;
    let name: String = match read_string(r) {
        Ok(s) => s,
        Err(e) => return Err(e),
    };
    let dims: u32 = match read_u32(r) {
        Ok(n) => n,
        Err(e) => return Err(e),
    };
    let ghost start = r.pos as int;
    let mut elements: u64 = 1;
    let mut i: u32 = 0;
    while i < dims
        invariant
            r.wf(),
            r.data == old(r).data,
            data == r.data@,
            old(r).data@ == data,
            old(r).pos == pos,
            i <= dims,
            r.pos == start + 8 * i,
            elements_at(data, start, i as nat) == Ok::<u64, Fault>(elements),
            elements_at(data, start, dims as nat) is Err ==> tensor_info_at(data, pos) == Err::<
                (TensorInfoView, int),
                Fault,
            >(elements_at(data, start, dims as nat)->Err_0),
        decreases dims - i,
    {
        let d: u64 = match read_u64(r) {
            Ok(n) => n,
            Err(e) => {
                proof {
                    lemma_elements_fail(data, start, (i + 1) as nat, dims as nat);
                }
                return Err(e);
            },
        };
        elements =
        match elements.checked_mul(d) {
            Some(product) => product,
            None => u64::MAX,
        };
        i += 1;
    }
    let t: u32 = match read_u32(r) {
        Ok(n) => n,
        Err(e) => return Err(e),
    };
    let _offset: u64 = match read_u64(r) {
        Ok(n) => n,
        Err(e) => return Err(e),
    };
    let layer: Option<usize> = layer(name.as_str());
    Ok((name, layer, sized(elements, t)))
}

pub open spec fn info_views(list: Seq<TensorInfo>) -> Seq<TensorInfoView> {
    list.map_values(|t: TensorInfo| (t.0@, t.1, t.2))
}

/// Reads the tensors that a file lists, of which `data` holds the first bytes or
/// all of them.
pub fn tensor_sizes(data: &[u8]) -> (out: Result<Vec<TensorInfo>, Fault>)
    ensures
        match (out, tensor_infos_of(data@)) {
            (Ok(list), Ok(v)) => info_views(list@) == v,
            (Err(e), Err(f)) => e == f,
            _ => false,
        },
{
    let mut r: Reader = Reader::new(data);
    let (tensors, count): (u64, u64) = match read_counts(&mut r) {
        Ok(pair) => pair,
        Err(e) => return Err(e),
    };
    let mut i: u64 = 0;
    while i < count
        invariant
            r.wf(),
            r.data@ == data@,
            i <= count,
            counts_of(data@) == Ok::<(nat, nat), Fault>((tensors as nat, count as nat)),
            keys_end(data@, 24, i as nat) == Ok::<int, Fault>(r.pos as int),
        decreases count - i,
    {
        proof {
            if keys_end(data@, 24, (i + 1) as nat) is Err {
                lemma_keys_end_fail(data@, 24, (i + 1) as nat, count as nat);
            }
        }
        match read_string(&mut r) {
            Ok(_) => {},
            Err(e) => return Err(e),
        }
        let vt: u32 = match read_u32(&mut r) {
            Ok(n) => n,
            Err(e) => return Err(e),
        };
        match read_meta_value(&mut r, vt) {
            Ok(_) => {},
            Err(e) => return Err(e),
        }
        i += 1;
    }
    let ghost start = r.pos as int;
    let mut list: Vec<TensorInfo> = Vec::new();
    proof {
        assert(info_views(list@) =~= seq![]);
    }
    let mut k: u64 = 0;
    while k < tensors
        invariant
            r.wf(),
            r.data@ == data@,
            k <= tensors,
            counts_of(data@) == Ok::<(nat, nat), Fault>((tensors as nat, count as nat)),
            keys_end(data@, 24, count as nat) == Ok::<int, Fault>(start),
            tensor_infos_at(data@, start, k as nat) == Ok::<(Seq<TensorInfoView>, int), Fault>(
                (info_views(list@), r.pos as int),
            ),
        decreases tensors - k,
    {
        proof {
            if tensor_infos_at(data@, start, (k + 1) as nat) is Err {
                lemma_tensor_infos_fail(data@, start, (k + 1) as nat, tensors as nat);
            }
        }
        let t: TensorInfo = match read_tensor_info(&mut r) {
            Ok(t) => t,
            Err(e) => return Err(e),
        };
        let ghost earlier = list@;
        list.push(t);
        proof {
            assert(info_views(list@) =~= info_views(earlier).push((t.0@, t.1, t.2)));
        }
        k += 1;
    }
    Ok(list)
}

/// What the placement of one tensor counts for.
#[derive(Clone, Copy)]
pub struct Vote {
    pub layer: Option<usize>,
    pub size: u64,
    pub gpu: bool,
    pub expert: bool,
    pub attention: bool,
}

/// Whether a tensor holds experts.
pub open spec fn is_expert(name: Seq<char>) -> bool {
    text::holds(name, "_exps"@)
}

/// Whether a tensor belongs to the attention.
pub open spec fn is_attention(name: Seq<char>) -> bool {
    text::holds(name, "attn_"@) || text::holds(name, ".attention"@) || text::holds(
        name,
        "_attention"@,
    )
}

/// Whether an expression matches somewhere in a text.
pub open spec fn matched(pattern: Seq<char>, s: Seq<char>) -> bool {
    pattern::captured(pattern, s) matches Some(m) && m.len() > 0
}

/// Where a tensor goes after the first `n` overrides: the last that matches its
/// name decides, and says whether it goes to the processor.
pub open spec fn overridden(
    overrides: Seq<(Seq<char>, bool)>,
    n: nat,
    name: Seq<char>,
    gpu: bool,
) -> bool
    decreases n,
{
    if n == 0 {
        gpu
    } else if matched(overrides[n - 1].0, name) {
        !overrides[n - 1].1
    } else {
        overridden(overrides, (n - 1) as nat, name, gpu)
    }
}

/// Whether a tensor goes to the graphics card: its layer is below the boundary,
/// or it has none and every layer goes there; experts of the first `moe` layers
/// stay; overrides come last.
pub open spec fn goes_to_gpu(
    t: TensorInfoView,
    layers: nat,
    boundary: nat,
    moe: nat,
    overrides: Seq<(Seq<char>, bool)>,
) -> bool {
    let by_layer = match t.1 {
        Some(l) => l < boundary,
        None => boundary > layers,
    };
    let stays = is_expert(t.0) && (t.1 matches Some(l) && l < moe);
    overridden(overrides, overrides.len(), t.0, by_layer && !stays)
}

pub open spec fn vote_of(
    t: TensorInfoView,
    layers: nat,
    boundary: nat,
    moe: nat,
    overrides: Seq<(Seq<char>, bool)>,
) -> Vote {
    Vote {
        layer: t.1,
        size: t.2,
        gpu: goes_to_gpu(t, layers, boundary, moe, overrides),
        expert: is_expert(t.0),
        attention: is_attention(t.0),
    }
}

pub open spec fn votes_of(
    tensors: Seq<TensorInfoView>,
    layers: nat,
    boundary: nat,
    moe: nat,
    overrides: Seq<(Seq<char>, bool)>,
) -> Seq<Vote> {
    tensors.map_values(|t: TensorInfoView| vote_of(t, layers, boundary, moe, overrides))
}

/// Whether a tensor counts: for a layer only its tensors other than experts, for
/// the attention only its tensors, for the graphics card only what goes there.
pub open spec fn counts(v: Vote, layer: Option<usize>, attention: bool, gpu: bool) -> bool {
    (layer is Some ==> v.layer == layer && !v.expert) && (attention ==> v.attention) && (gpu
        ==> v.gpu)
}

/// The size of what counts among the first `n` tensors.
pub open spec fn tally_of(
    votes: Seq<Vote>,
    n: nat,
    layer: Option<usize>,
    attention: bool,
    gpu: bool,
) -> nat
    decreases n,
{
    if n == 0 {
        0
    } else {
        tally_of(votes, (n - 1) as nat, layer, attention, gpu) + if counts(
            votes[n - 1],
            layer,
            attention,
            gpu,
        ) {
            votes[n - 1].size as nat
        } else {
            0
        }
    }
}

/// The size of all tensors.
pub open spec fn total_of(votes: Seq<Vote>) -> nat {
    tally_of(votes, votes.len(), None, false, false)
}

/// Whether the cache of layer `i` lies on the graphics card: half of its
/// attention does, or without attention tensors half of the layer, or without
/// either the layer is below the boundary.
pub open spec fn layer_on_gpu(votes: Seq<Vote>, i: usize, boundary: nat) -> bool {
    let attention = tally_of(votes, votes.len(), Some(i), true, false);
    let all = tally_of(votes, votes.len(), Some(i), false, false);
    if attention > 0 {
        2 * tally_of(votes, votes.len(), Some(i), true, true) >= attention
    } else if all > 0 {
        2 * tally_of(votes, votes.len(), Some(i), false, true) >= all
    } else {
        i < boundary
    }
}

/// How a model's tensors are divided.
pub struct Placement {
    /// The size of what lies on the graphics card.
    pub gpu: u64,
    /// The size of everything.
    pub total: u64,
    /// For each layer, whether its cache lies on the graphics card.
    pub layer_gpu: Vec<bool>,
}

proof fn lemma_tally(
    votes: Seq<Vote>,
    n: nat,
    more: nat,
    layer: Option<usize>,
    attention: bool,
    gpu: bool,
)
    requires
        n <= more <= votes.len(),
    ensures
        tally_of(votes, n, layer, attention, gpu) <= tally_of(votes, more, None, false, false),
        tally_of(votes, n, layer, attention, true) <= tally_of(votes, n, layer, attention, false),
    decreases more,
{
    if n < more {
        lemma_tally(votes, n, (more - 1) as nat, layer, attention, gpu);
    } else if n > 0 {
        lemma_tally(votes, (n - 1) as nat, (n - 1) as nat, layer, attention, gpu);
    }
}

fn tally(votes: &Vec<Vote>, layer: Option<usize>, attention: bool, gpu: bool) -> (sum: u64)
    requires
        total_of(votes@) <= u64::MAX,
    ensures
        sum == tally_of(votes@, votes@.len(), layer, attention, gpu),
{
    let mut sum: u64 = 0;
    let mut i: usize = 0;
    while i < votes.len()
        invariant
            i <= votes@.len(),
            total_of(votes@) <= u64::MAX,
            sum == tally_of(votes@, i as nat, layer, attention, gpu),
        decreases votes@.len() - i,
    {
        let v: Vote = votes[i];
        let in_layer: bool = match (layer, v.layer) {
            (None, _) => true,
            (Some(a), Some(b)) => a == b && !v.expert,
            _ => false,
        };
        proof {
            lemma_tally(votes@, (i + 1) as nat, votes@.len(), layer, attention, gpu);
        }
        if in_layer && (!attention || v.attention) && (!gpu || v.gpu) {
            sum += v.size;
        }
        i += 1;
    }
    sum
}

pub open spec fn override_views(list: Seq<(String, bool)>) -> Seq<(Seq<char>, bool)> {
    list.map_values(|e: (String, bool)| (e.0@, e.1))
}

fn is_match(pattern: &str, s: &str) -> (yes: bool)
    ensures
        yes == matched(pattern@, s@),
{
    match pattern::captures(pattern, s) {
        Some(m) => {
            proof {
                assert(pattern::match_views(m@).len() == m@.len());
            }
            m.len() > 0
        },
        None => false,
    }
}

fn vote(
    t: &TensorInfo,
    layers: u64,
    boundary: u64,
    moe: u64,
    overrides: &Vec<(String, bool)>,
) -> (out: Vote)
    ensures
        out == vote_of(
            (t.0@, t.1, t.2),
            layers as nat,
            boundary as nat,
            moe as nat,
            override_views(overrides@),
        ),
{
    let expert: bool = text::contains(t.0.as_str(), "_exps");
    let by_layer: bool = match t.1 {
        Some(l) => (l as u64) < boundary,
        None => boundary > layers,
    };
    let stays: bool = expert && match t.1 {
        Some(l) => (l as u64) < moe,
        None => false,
    };
    let mut gpu: bool = by_layer && !stays;
    let ghost base = gpu;
    let mut i: usize = 0;
    let ghost all = override_views(overrides@);
    while i < overrides.len()
        invariant
            i <= overrides@.len(),
            all == override_views(overrides@),
            gpu == overridden(all, i as nat, t.0@, base),
        decreases overrides@.len() - i,
    {
        proof {
            assert(all[i as int] == (overrides@[i as int].0@, overrides@[i as int].1));
        }
        if is_match(overrides[i].0.as_str(), t.0.as_str()) {
            gpu = !overrides[i].1;
        }
        i += 1;
    }
    let attention: bool = text::contains(t.0.as_str(), "attn_") || text::contains(
        t.0.as_str(),
        ".attention",
    ) || text::contains(t.0.as_str(), "_attention");
    Vote { layer: t.1, size: t.2, gpu, expert, attention }
}

/// The size of all tensors in a list.
pub open spec fn sizes_total(tensors: Seq<TensorInfoView>, n: nat) -> nat
    decreases n,
{
    if n == 0 {
        0
    } else {
        sizes_total(tensors, (n - 1) as nat) + tensors[n - 1].2 as nat
    }
}

/// Whether a list's sizes add up to a number that can be held.
pub fn sizes_fit(tensors: &[TensorInfo]) -> (yes: bool)
    ensures
        yes == (sizes_total(info_views(tensors@), tensors@.len()) <= u64::MAX),
{
    let ghost all = info_views(tensors@);
    let mut sum: u64 = 0;
    let mut i: usize = 0;
    while i < tensors.len()
        invariant
            i <= tensors@.len(),
            all == info_views(tensors@),
            sum == sizes_total(all, i as nat),
        decreases tensors@.len() - i,
    {
        proof {
            assert(all[i as int].2 == tensors@[i as int].2);
        }
        sum =
        match sum.checked_add(tensors[i].2) {
            Some(n) => n,
            None => {
                proof {
                    lemma_sizes_grow(all, (i + 1) as nat, tensors@.len());
                }
                return false;
            },
        };
        i += 1;
    }
    true
}

proof fn lemma_sizes_grow(tensors: Seq<TensorInfoView>, n: nat, more: nat)
    requires
        n <= more,
    ensures
        sizes_total(tensors, n) <= sizes_total(tensors, more),
    decreases more,
{
    if n < more {
        lemma_sizes_grow(tensors, n, (more - 1) as nat);
    }
}

proof fn lemma_total_sizes(tensors: Seq<TensorInfoView>, votes: Seq<Vote>, n: nat)
    requires
        n <= votes.len() == tensors.len(),
        forall|i: int| 0 <= i < votes.len() ==> (#[trigger] votes[i]).size == tensors[i].2,
    ensures
        tally_of(votes, n, None, false, false) == sizes_total(tensors, n),
    decreases n,
{
    if n > 0 {
        lemma_total_sizes(tensors, votes, (n - 1) as nat);
        assert(votes[n - 1].size == tensors[n - 1].2);
    }
}

/// Divides a model's tensors between the processor and the graphics card.
pub fn tensor_placement(
    tensors: &[TensorInfo],
    layers: u64,
    ngl: u64,
    ncmoe: u64,
    overrides: &Vec<(String, bool)>,
) -> (out: Option<Placement>)
    requires
        sizes_total(info_views(tensors@), tensors@.len()) <= u64::MAX,
        layers < u64::MAX,
        layers <= usize::MAX,
    ensures
        ({
            let boundary = if ngl < layers + 1 {
                ngl as nat
            } else {
                (layers + 1) as nat
            };
            let moe = if ncmoe < layers {
                ncmoe as nat
            } else {
                layers as nat
            };
            let votes = votes_of(
                info_views(tensors@),
                layers as nat,
                boundary,
                moe,
                override_views(overrides@),
            );
            match out {
                None => total_of(votes) == 0 || layers == 0,
                Some(p) => total_of(votes) > 0 && layers > 0 && p.total == total_of(votes) && p.gpu
                    == tally_of(votes, votes.len(), None, false, true) && p.layer_gpu@ == Seq::new(
                    layers as nat,
                    |i: int| layer_on_gpu(votes, i as usize, boundary),
                ),
            }
        }),
{
    let boundary: u64 = if ngl < layers + 1 {
        ngl
    } else {
        layers + 1
    };
    let moe: u64 = if ncmoe < layers {
        ncmoe
    } else {
        layers
    };
    let ghost all = info_views(tensors@);
    let ghost expected = votes_of(
        all,
        layers as nat,
        boundary as nat,
        moe as nat,
        override_views(overrides@),
    );
    let mut votes: Vec<Vote> = Vec::new();
    let mut i: usize = 0;
    while i < tensors.len()
        invariant
            i <= tensors@.len(),
            all == info_views(tensors@),
            expected == votes_of(
                all,
                layers as nat,
                boundary as nat,
                moe as nat,
                override_views(overrides@),
            ),
            votes@ == expected.take(i as int),
        decreases tensors@.len() - i,
    {
        let v: Vote = vote(&tensors[i], layers, boundary, moe, overrides);
        proof {
            assert(all[i as int] == (tensors@[i as int].0@, tensors@[i as int].1, tensors@[i as int].2));
            assert(expected[i as int] == v);
        }
        votes.push(v);
        proof {
            assert(votes@ =~= expected.take(i + 1));
        }
        i += 1;
    }
    proof {
        assert(expected.take(tensors@.len() as int) =~= expected);
        lemma_total_sizes(all, expected, expected.len());
    }
    let total: u64 = tally(&votes, None, false, false);
    if total == 0 || layers == 0 {
        return None;
    }
    let gpu: u64 = tally(&votes, None, false, true);
    let mut layer_gpu: Vec<bool> = Vec::new();
    let ghost lies = Seq::new(
        layers as nat,
        |i: int| layer_on_gpu(expected, i as usize, boundary as nat),
    );
    let mut k: usize = 0;
    while k < layers as usize
        invariant
            k <= layers as usize,
            layers <= usize::MAX,
            votes@ == expected,
            total_of(expected) <= u64::MAX,
            lies == Seq::new(
                layers as nat,
                |i: int| layer_on_gpu(expected, i as usize, boundary as nat),
            ),
            layer_gpu@ == lies.take(k as int),
        decreases layers - k,
    {
        let attention: u64 = tally(&votes, Some(k), true, false);
        let attention_gpu: u64 = tally(&votes, Some(k), true, true);
        let all_of: u64 = tally(&votes, Some(k), false, false);
        let all_gpu: u64 = tally(&votes, Some(k), false, true);
        proof {
            lemma_tally(expected, expected.len(), expected.len(), Some(k), true, false);
            lemma_tally(expected, expected.len(), expected.len(), Some(k), false, false);
        }
        let on: bool = if attention > 0 {
            attention_gpu >= attention - attention_gpu
        } else if all_of > 0 {
            all_gpu >= all_of - all_gpu
        } else {
            (k as u64) < boundary
        };
        proof {
            assert(lies[k as int] == on);
        }
        layer_gpu.push(on);
        proof {
            assert(layer_gpu@ =~= lies.take(k + 1));
        }
        k += 1;
    }
    proof {
        assert(lies.take(layers as int) =~= lies);
    }
    Some(Placement { gpu, total, layer_gpu })
}

/// What lies on the graphics card is no more than everything.
pub proof fn placement_is_a_part(votes: Seq<Vote>)
    ensures
        tally_of(votes, votes.len(), None, false, true) <= total_of(votes),
{
    lemma_tally(votes, votes.len(), votes.len(), None, false, true);
}

/// What the cache of one layer holds.
#[derive(Clone, Copy)]
pub struct LayerCache {
    pub kv_heads: u64,
    pub key: u64,
    pub value: u64,
    pub context: u64,
}

/// The numbers from which the memory that a model takes is worked out.
pub struct EstimatePlan {
    pub ctx: u64,
    pub layers: u64,
    pub ngl: u64,
    pub ncmoe: u64,
    pub overrides: Vec<(String, bool)>,
    pub embedding: u64,
    pub heads: u64,
    /// The bytes that a number of the key cache takes, in sixteenths.
    pub key_sixteenths: u64,
    /// The bytes that a number of the value cache takes, in sixteenths.
    pub value_sixteenths: u64,
    /// How many times the cache is held.
    pub multiplier: u64,
    pub caches: Vec<LayerCache>,
    pub batch: u64,
    pub flash: bool,
    pub draft: Option<String>,
}

pub ghost struct EstimateView {
    pub ctx: u64,
    pub layers: u64,
    pub ngl: u64,
    pub ncmoe: u64,
    pub overrides: Seq<(Seq<char>, bool)>,
    pub embedding: u64,
    pub heads: u64,
    pub key_sixteenths: u64,
    pub value_sixteenths: u64,
    pub multiplier: u64,
    pub caches: Seq<LayerCache>,
    pub batch: u64,
    pub flash: bool,
    pub draft: Option<Seq<char>>,
}

impl View for EstimatePlan {
    type V = EstimateView;

    open spec fn view(&self) -> EstimateView {
        EstimateView {
            ctx: self.ctx,
            layers: self.layers,
            ngl: self.ngl,
            ncmoe: self.ncmoe,
            overrides: override_views(self.overrides@),
            embedding: self.embedding,
            heads: self.heads,
            key_sixteenths: self.key_sixteenths,
            value_sixteenths: self.value_sixteenths,
            multiplier: self.multiplier,
            caches: self.caches@,
            batch: self.batch,
            flash: self.flash,
            draft: text_view(self.draft),
        }
    }
}

pub open spec fn number_or(value: Option<Seq<char>>, default: u64) -> u64 {
    match value {
        Some(s) => match text::u64_of(s) {
            Some(n) => n,
            None => default,
        },
        None => default,
    }
}

pub open spec fn least(a: u64, b: u64) -> u64 {
    if a <= b {
        a
    } else {
        b
    }
}

/// The number of layers that is reckoned with.
pub open spec fn layers_in(meta: Option<GgufView>) -> u64 {
    match meta {
        Some(m) => match m.block_count {
            Some(n) => n,
            None => 1,
        },
        None => 1,
    }
}

pub open spec fn or_default(value: Option<u64>, default: u64) -> u64 {
    match value {
        Some(n) => n,
        None => default,
    }
}

/// The entry for a layer in a list: its own, else the first, else the default.
pub open spec fn per_layer(list: Seq<u64>, i: int, default: u64) -> u64 {
    if i < list.len() {
        list[i]
    } else if list.len() > 0 {
        list[0]
    } else {
        default
    }
}

/// Whether a layer sees only a window: what the pattern says, and without one all
/// layers but every sixth do.
pub open spec fn slides(pattern: Seq<u64>, i: int) -> bool {
    if pattern.len() > 0 {
        pattern[i % pattern.len() as int] != 0
    } else {
        (i + 1) % 6 != 0
    }
}

pub open spec fn cache_of(
    meta: Option<GgufView>,
    i: int,
    ctx: u64,
    heads: u64,
    head_size: u64,
) -> LayerCache {
    match meta {
        None => LayerCache { kv_heads: heads, key: head_size, value: head_size, context: ctx },
        Some(m) => LayerCache {
            kv_heads: per_layer(m.kv_heads, i, heads),
            key: per_layer(m.key_length, i, head_size),
            value: per_layer(m.value_length, i, head_size),
            context: match m.sliding_window {
                Some(window) => if slides(m.sliding_pattern, i) {
                    least(ctx, window)
                } else {
                    ctx
                },
                None => ctx,
            },
        },
    }
}

/// The bytes that a cached number of a type takes, in sixteenths.
pub open spec fn sixteenths_of(kind: Option<Seq<char>>) -> u64 {
    match kind {
        Some(s) => if s == "f32"@ {
            64
        } else if s == "q8_0"@ {
            17
        } else if s == "q5_1"@ {
            12
        } else if s == "q5_0"@ {
            11
        } else if s == "q4_1"@ {
            10
        } else if s == "q4_0"@ || s == "iq4_nl"@ {
            9
        } else {
            32
        },
        None => 32,
    }
}

/// The override that an item of the argument states: a pattern and whether what
/// it matches goes to the processor.
pub open spec fn override_of(item: Seq<char>) -> Option<(Seq<char>, bool)> {
    match text::split_once_of(item, '=') {
        None => None,
        Some((pattern, buffer)) => if pattern::captured(text::trim_of(pattern), seq![]) is Some {
            Some(
                (
                    text::trim_of(pattern),
                    "cpu"@.is_prefix_of(text::lower_of(text::trim_of(buffer))),
                ),
            )
        } else {
            None
        },
    }
}

pub open spec fn overrides_in(items: Seq<Seq<char>>, n: nat) -> Seq<(Seq<char>, bool)>
    decreases n,
{
    if n == 0 {
        seq![]
    } else {
        let earlier = overrides_in(items, (n - 1) as nat);
        match override_of(items[n - 1]) {
            Some(o) => earlier.push(o),
            None => earlier,
        }
    }
}

pub open spec fn overrides_of(value: Option<Seq<char>>) -> Seq<(Seq<char>, bool)> {
    match value {
        Some(s) => overrides_in(text::split_of(s, ','), text::split_of(s, ',').len()),
        None => seq![],
    }
}

/// The argument behind the last occurrence of one of some flags.
pub open spec fn given(args: Seq<Seq<char>>, flags: Seq<Seq<char>>) -> Option<Seq<char>> {
    process::value_after(args, flags, args.len())
}

pub open spec fn plan_of(meta: Option<GgufView>, args: Seq<Seq<char>>) -> EstimateView {
    let layers = layers_in(meta);
    let ctx = number_or(
        given(args, seq!["-c"@, "--ctx-size"@]),
        match meta {
            Some(m) => or_default(m.context_length, 4096),
            None => 4096,
        },
    );
    let all = (layers + 1) as u64;
    let ncmoe = match given(args, seq!["-ncmoe"@, "--n-cpu-moe"@]) {
        Some(v) => if text::lower_of(v) == "all"@ || text::lower_of(v) == "max"@ {
            layers
        } else {
            least(number_or(Some(v), 0), layers)
        },
        None => 0,
    };
    let embedding = match meta {
        Some(m) => or_default(m.embedding_length, 4096),
        None => 4096,
    };
    let heads_given = match meta {
        Some(m) => or_default(m.attention_heads, 32),
        None => 32,
    };
    let heads = if heads_given == 0 {
        1
    } else {
        heads_given
    };
    let unified = args.contains("--kv-unified"@) || !args.contains("--no-kv-unified"@);
    let batch = least(
        least(ctx, number_or(given(args, seq!["-b"@, "--batch-size"@]), 512)),
        number_or(given(args, seq!["-ub"@, "--ubatch-size"@]), 512),
    );
    EstimateView {
        ctx,
        layers,
        ngl: number_or(given(args, seq!["-ngl"@, "--gpu-layers"@, "--n-gpu-layers"@]), all),
        ncmoe,
        overrides: overrides_of(given(args, seq!["-ot"@, "--override-tensor"@])),
        embedding,
        heads,
        key_sixteenths: sixteenths_of(given(args, seq!["-ctk"@, "--cache-type-k"@])),
        value_sixteenths: sixteenths_of(given(args, seq!["-ctv"@, "--cache-type-v"@])),
        multiplier: if unified {
            1
        } else {
            number_or(given(args, seq!["-np"@, "--parallel"@]), 1)
        },
        caches: Seq::new(
            layers as nat,
            |i: int| cache_of(meta, i, ctx, heads, (embedding as int / heads as int) as u64),
        ),
        batch: if batch == 0 {
            1
        } else {
            batch
        },
        flash: (given(args, seq!["--flash-attn"@]) matches Some(v) && v != "off"@)
            || !args.contains("--no-flash-attn"@),
        draft: given(args, seq!["-md"@, "--model-draft"@, "--spec-draft-model"@]),
    }
}

pub open spec fn meta_view(meta: Option<&GgufMetadata>) -> Option<GgufView> {
    match meta {
        Some(m) => Some(m@),
        None => None,
    }
}

fn value_of_two(args: &[String], a: &str, b: &str) -> (out: Option<String>)
    ensures
        text_view(out) == given(text::views(args@), seq![a@, b@]),
{
    let flags: [&str; 2] = [a, b];
    proof {
        assert(process::str_views(flags@) =~= seq![a@, b@]);
    }
    process::flag_value(args, &flags)
}

fn value_of_three(args: &[String], a: &str, b: &str, c: &str) -> (out: Option<String>)
    ensures
        text_view(out) == given(text::views(args@), seq![a@, b@, c@]),
{
    let flags: [&str; 3] = [a, b, c];
    proof {
        assert(process::str_views(flags@) =~= seq![a@, b@, c@]);
    }
    process::flag_value(args, &flags)
}

fn value_of_one(args: &[String], a: &str) -> (out: Option<String>)
    ensures
        text_view(out) == given(text::views(args@), seq![a@]),
{
    let flags: [&str; 1] = [a];
    proof {
        assert(process::str_views(flags@) =~= seq![a@]);
    }
    process::flag_value(args, &flags)
}

fn parsed_or(value: Option<String>, default: u64) -> (out: u64)
    ensures
        out == number_or(text_view(value), default),
{
    match value {
        Some(s) => match text::parse_u64(s.as_str()) {
            Some(n) => n,
            None => default,
        },
        None => default,
    }
}

fn sixteenths(kind: Option<String>) -> (out: u64)
    ensures
        out == sixteenths_of(text_view(kind)),
{
    match kind {
        Some(s) => if text::same(s.as_str(), "f32") {
            64
        } else if text::same(s.as_str(), "q8_0") {
            17
        } else if text::same(s.as_str(), "q5_1") {
            12
        } else if text::same(s.as_str(), "q5_0") {
            11
        } else if text::same(s.as_str(), "q4_1") {
            10
        } else if text::same(s.as_str(), "q4_0") || text::same(s.as_str(), "iq4_nl") {
            9
        } else {
            32
        },
        None => 32,
    }
}

fn parse_override(item: &str) -> (out: Option<(String, bool)>)
    ensures
        match (out, override_of(item@)) {
            (Some(o), Some(v)) => (o.0@, o.1) == v,
            (None, None) => true,
            _ => false,
        },
{
    let (pattern, buffer): (String, String) = match text::split_once(item, '=') {
        Some(pair) => pair,
        None => return None,
    };
    let pattern: String = text::trim(pattern.as_str());
    let none: String = String::new();
    proof {
        assert(none@ =~= seq![]);
    }
    if pattern::captures(pattern.as_str(), none.as_str()).is_none() {
        return None;
    }
    let buffer: String = text::to_lower(text::trim(buffer.as_str()).as_str());
    Some((pattern, text::starts_with(buffer.as_str(), "cpu")))
}

fn parse_overrides(value: Option<String>) -> (out: Vec<(String, bool)>)
    ensures
        override_views(out@) == overrides_of(text_view(value)),
{
    let mut out: Vec<(String, bool)> = Vec::new();
    proof {
        assert(override_views(out@) =~= seq![]);
    }
    match value {
        None => out,
        Some(s) => {
            let items: Vec<String> = text::split(s.as_str(), ',');
            let ghost all = text::views(items@);
            let mut i: usize = 0;
            while i < items.len()
                invariant
                    i <= items@.len(),
                    all == text::views(items@),
                    override_views(out@) == overrides_in(all, i as nat),
                decreases items@.len() - i,
            {
                proof {
                    assert(all[i as int] == items@[i as int]@);
                }
                match parse_override(items[i].as_str()) {
                    Some(o) => {
                        let ghost earlier = out@;
                        let ghost item = (o.0@, o.1);
                        out.push(o);
                        proof {
                            assert(override_views(out@) =~= override_views(earlier).push(item));
                        }
                    },
                    None => {},
                }
                i += 1;
            }
            out
        },
    }
}

fn pick(list: &Vec<u64>, i: usize, default: u64) -> (out: u64)
    ensures
        out == per_layer(list@, i as int, default),
{
    if i < list.len() {
        list[i]
    } else if list.len() > 0 {
        list[0]
    } else {
        default
    }
}

fn layer_cache(
    meta: Option<&GgufMetadata>,
    i: usize,
    ctx: u64,
    heads: u64,
    head_size: u64,
) -> (out: LayerCache)
    requires
        i < usize::MAX,
    ensures
        out == cache_of(meta_view(meta), i as int, ctx, heads, head_size),
{
    match meta {
        None => LayerCache { kv_heads: heads, key: head_size, value: head_size, context: ctx },
        Some(m) => {
            let context: u64 = match m.sliding_window {
                Some(window) => {
                    let slides: bool = if m.sliding_pattern.len() > 0 {
                        m.sliding_pattern[i % m.sliding_pattern.len()] != 0
                    } else {
                        (i + 1) % 6 != 0
                    };
                    if slides && window < ctx {
                        window
                    } else {
                        ctx
                    }
                },
                None => ctx,
            };
            LayerCache {
                kv_heads: pick(&m.kv_heads, i, heads),
                key: pick(&m.key_length, i, head_size),
                value: pick(&m.value_length, i, head_size),
                context,
            }
        },
    }
}

/// Whether the number of layers is one that can be reckoned with.
pub fn can_estimate(meta: Option<&GgufMetadata>) -> (yes: bool)
    ensures
        yes == (layers_in(meta_view(meta)) < usize::MAX),
{
    let layers: u64 = match meta {
        Some(m) => match m.block_count {
            Some(n) => n,
            None => 1,
        },
        None => 1,
    };
    layers < usize::MAX as u64
}

/// Works out the numbers that an estimate rests on, from the model's metadata and
/// the server's arguments.
pub fn estimate_plan(meta: Option<&GgufMetadata>, args: &[String]) -> (out: EstimatePlan)
    requires
        layers_in(meta_view(meta)) < usize::MAX,
    ensures
        out@ == plan_of(meta_view(meta), text::views(args@)),
{
    let ghost all_args = text::views(args@);
    let (layers, context_length, embedding, heads_given): (u64, u64, u64, u64) = match meta {
        Some(m) => (
            match m.block_count {
                Some(n) => n,
                None => 1,
            },
            match m.context_length {
                Some(n) => n,
                None => 4096,
            },
            match m.embedding_length {
                Some(n) => n,
                None => 4096,
            },
            match m.attention_heads {
                Some(n) => n,
                None => 32,
            },
        ),
        None => (1, 4096, 4096, 32),
    };
    let heads: u64 = if heads_given == 0 {
        1
    } else {
        heads_given
    };
    let ctx: u64 = parsed_or(value_of_two(args, "-c", "--ctx-size"), context_length);
    let ngl: u64 = parsed_or(value_of_three(args, "-ngl", "--gpu-layers", "--n-gpu-layers"), layers + 1);
    let moe_value: Option<String> = value_of_two(args, "-ncmoe", "--n-cpu-moe");
    let ncmoe: u64 = match moe_value {
        Some(v) => {
            let lowered: String = text::to_lower(v.as_str());
            if text::same(lowered.as_str(), "all") || text::same(lowered.as_str(), "max") {
                layers
            } else {
                let n: u64 = match text::parse_u64(v.as_str()) {
                    Some(n) => n,
                    None => 0,
                };
                if n < layers {
                    n
                } else {
                    layers
                }
            }
        },
        None => 0,
    };
    let overrides: Vec<(String, bool)> = parse_overrides(
        value_of_two(args, "-ot", "--override-tensor"),
    );
    let key_sixteenths: u64 = sixteenths(value_of_two(args, "-ctk", "--cache-type-k"));
    let value_sixteenths: u64 = sixteenths(value_of_two(args, "-ctv", "--cache-type-v"));
    let unified: bool = has_arg(args, "--kv-unified") || !has_arg(args, "--no-kv-unified");
    let multiplier: u64 = if unified {
        1
    } else {
        parsed_or(value_of_two(args, "-np", "--parallel"), 1)
    };
    let mut caches: Vec<LayerCache> = Vec::new();
    let head_size: u64 = embedding / heads;
    let ghost expected = Seq::new(
        layers as nat,
        |i: int| cache_of(meta_view(meta), i, ctx, heads, head_size),
    );
    let mut i: usize = 0;
    while i < layers as usize
        invariant
            i <= layers as usize,
            layers < usize::MAX,
            expected == Seq::new(
                layers as nat,
                |i: int| cache_of(meta_view(meta), i, ctx, heads, head_size),
            ),
            caches@ == expected.take(i as int),
        decreases layers - i,
    {
        caches.push(layer_cache(meta, i, ctx, heads, head_size));
        proof {
            assert(caches@ =~= expected.take(i + 1));
        }
        i += 1;
    }
    let eval_batch: u64 = parsed_or(value_of_two(args, "-b", "--batch-size"), 512);
    let phys_batch: u64 = parsed_or(value_of_two(args, "-ub", "--ubatch-size"), 512);
    let mut batch: u64 = ctx;
    if eval_batch < batch {
        batch = eval_batch;
    }
    if phys_batch < batch {
        batch = phys_batch;
    }
    if batch == 0 {
        batch = 1;
    }
    let flash_on: bool = match value_of_one(args, "--flash-attn") {
        Some(v) => !text::same(v.as_str(), "off"),
        None => false,
    };
    let flash: bool = flash_on || !has_arg(args, "--no-flash-attn");
    let draft: Option<String> = value_of_three(args, "-md", "--model-draft", "--spec-draft-model");
    proof {
        assert(expected.take(layers as int) =~= expected);
        assert(expected =~= plan_of(meta_view(meta), all_args).caches);
    }
    EstimatePlan {
        ctx,
        layers,
        ngl,
        ncmoe,
        overrides,
        embedding,
        heads,
        key_sixteenths,
        value_sixteenths,
        multiplier,
        caches,
        batch,
        flash,
        draft,
    }
}

/// Whether an argument is given.
pub fn has_arg(args: &[String], arg: &str) -> (yes: bool)
    ensures
        yes == text::views(args@).contains(arg@),
{
    let mut i: usize = 0;
    while i < args.len()
        invariant
            i <= args@.len(),
            forall|j: int| 0 <= j < i ==> #[trigger] text::views(args@)[j] != arg@,
        decreases args@.len() - i,
    {
        if text::same(args[i].as_str(), arg) {
            proof {
                assert(text::views(args@)[i as int] == arg@);
            }
            return true;
        }
        i += 1;
    }
    false
}

} // verus!
