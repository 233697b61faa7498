//! Laws of model files: what is read from where.
use vstd::arithmetic::power::*;
use vstd::prelude::*;
use vstd::utf8::*;

use crate::gguf;
use crate::metadata;
use crate::metadata::{Fault, GgufView, KeysView, MetaValueView};
use crate::text;

verus! {

/// The keys of a file with their values, in order.
pub type Values = Seq<(Seq<char>, MetaValueView)>;

/// Whether a value is the last that stands under a key.
pub open spec fn stands_under(values: Values, key: Seq<char>, v: MetaValueView) -> bool {
    exists|i: int|
        0 <= i < values.len() && #[trigger] values[i] == (key, v) && forall|j: int|
            i < j < values.len() ==> (#[trigger] values[j]).0 != key
}

/// Whether nothing stands under a key.
pub open spec fn lacks(values: Values, key: Seq<char>) -> bool {
    forall|i: int| 0 <= i < values.len() ==> (#[trigger] values[i]).0 != key
}

proof fn lemma_last_value(values: Values, key: Seq<char>)
    ensures
        match metadata::last_value(values, key) {
            Some(v) => stands_under(values, key, v) && !lacks(values, key),
            None => lacks(values, key),
        },
    decreases values.len(),
{
    if values.len() > 0 {
        let n = values.len() - 1;
        if values.last().0 == key {
            let v = values.last().1;
            assert(values[n] == (key, v));
        } else {
            let less = values.drop_last();
            lemma_last_value(less, key);
            match metadata::last_value(less, key) {
                Some(v) => {
                    let i = choose|i: int|
                        0 <= i < less.len() && #[trigger] less[i] == (key, v) && forall|j: int|
                            i < j < less.len() ==> (#[trigger] less[j]).0 != key;
                    assert(values[i] == (key, v));
                    assert forall|j: int| i < j < values.len() implies (#[trigger] values[j]).0 != key by {
                        if j < n {
                            assert(values[j] == less[j]);
                        }
                    }
                    assert(values[i].0 == key);
                },
                None => {
                    assert forall|i: int| 0 <= i < values.len() implies (#[trigger] values[i]).0
                        != key by {
                        if i < n {
                            assert(values[i] == less[i]);
                        }
                    }
                },
            }
        }
    }
}

proof fn lemma_unique(values: Values, key: Seq<char>, v: MetaValueView)
    requires
        stands_under(values, key, v),
    ensures
        metadata::last_value(values, key) == Some(v),
{
    lemma_last_value(values, key);
    let i = choose|i: int|
        0 <= i < values.len() && #[trigger] values[i] == (key, v) && forall|j: int|
            i < j < values.len() ==> (#[trigger] values[j]).0 != key;
    assert(values[i].0 == key);
    let w = metadata::last_value(values, key)->0;
    let k = choose|k: int|
        0 <= k < values.len() && #[trigger] values[k] == (key, w) && forall|j: int|
            k < j < values.len() ==> (#[trigger] values[j]).0 != key;
    assert(values[k].0 == key);
    assert(k == i);
}

/// Whether a fact is the number under a key, if one stands there.
pub open spec fn is_number(values: Values, key: Seq<char>, fact: Option<u64>) -> bool {
    &&& forall|n: u64| #[trigger] stands_under(values, key, MetaValueView::Number(n)) ==> fact == Some(n)
    &&& lacks(values, key) ==> fact is None
    &&& forall|s: Seq<char>| #[trigger] stands_under(values, key, MetaValueView::Text(s)) ==> fact is None
    &&& forall|l: Seq<u64>| #[trigger]
        stands_under(values, key, MetaValueView::Numbers(l)) ==> fact is None
}

/// Whether a fact says that the number under a key is not nought, if one stands there.
pub open spec fn is_flag(values: Values, key: Seq<char>, fact: Option<bool>) -> bool {
    &&& forall|n: u64| #[trigger]
        stands_under(values, key, MetaValueView::Number(n)) ==> fact == Some(n != 0)
    &&& lacks(values, key) ==> fact is None
    &&& forall|s: Seq<char>| #[trigger] stands_under(values, key, MetaValueView::Text(s)) ==> fact is None
    &&& forall|l: Seq<u64>| #[trigger]
        stands_under(values, key, MetaValueView::Numbers(l)) ==> fact is None
}

/// Whether facts are the numbers under a key, one or several.
pub open spec fn are_numbers(values: Values, key: Seq<char>, facts: Seq<u64>) -> bool {
    &&& forall|n: u64| #[trigger]
        stands_under(values, key, MetaValueView::Number(n)) ==> facts.len() == 1 && facts[0] == n
    &&& forall|l: Seq<u64>| #[trigger]
        stands_under(values, key, MetaValueView::Numbers(l)) ==> facts == l
    &&& lacks(values, key) ==> facts.len() == 0
    &&& forall|s: Seq<char>| #[trigger]
        stands_under(values, key, MetaValueView::Text(s)) ==> facts.len() == 0
}

proof fn lemma_number(values: Values, key: Seq<char>)
    ensures
        is_number(values, key, metadata::number_under(values, key)),
        is_flag(values, key, metadata::flag_under(values, key)),
        are_numbers(values, key, metadata::numbers_under(values, key)),
{
    lemma_last_value(values, key);
    assert forall|n: u64| #[trigger]
        stands_under(values, key, MetaValueView::Number(n)) implies metadata::last_value(values, key)
        == Some(MetaValueView::Number(n)) by {
        lemma_unique(values, key, MetaValueView::Number(n));
    }
    assert forall|l: Seq<u64>| #[trigger]
        stands_under(values, key, MetaValueView::Numbers(l)) implies metadata::last_value(
        values,
        key,
    ) == Some(MetaValueView::Numbers(l)) by {
        lemma_unique(values, key, MetaValueView::Numbers(l));
    }
    assert forall|s: Seq<char>| #[trigger]
        stands_under(values, key, MetaValueView::Text(s)) implies metadata::last_value(values, key)
        == Some(MetaValueView::Text(s)) by {
        lemma_unique(values, key, MetaValueView::Text(s));
    }
}

/// A key of an architecture: its name, a dot and the rest.
pub open spec fn key_of(a: Seq<char>, rest: Seq<char>) -> Seq<char> {
    a + seq!['.'] + rest
}

/// Whether each fact of a model's metadata is what stands under its own key, whatever stands
/// under the others.
pub open spec fn facts_of(values: Values, a: Seq<char>, m: GgufView) -> bool {
    &&& is_number(values, key_of(a, "context_length"@), m.context_length)
    &&& is_number(values, key_of(a, "block_count"@), m.block_count)
    &&& is_number(values, key_of(a, "embedding_length"@), m.embedding_length)
    &&& is_number(values, key_of(a, "attention.head_count"@), m.attention_heads)
    &&& are_numbers(values, key_of(a, "attention.head_count_kv"@), m.kv_heads)
    &&& are_numbers(values, key_of(a, "attention.key_length"@), m.key_length)
    &&& are_numbers(values, key_of(a, "attention.value_length"@), m.value_length)
    &&& is_number(values, key_of(a, "attention.sliding_window"@), m.sliding_window)
    &&& are_numbers(values, key_of(a, "attention.sliding_window_pattern"@), m.sliding_pattern)
    &&& is_number(values, key_of(a, "pooling_type"@), m.pooling_type)
    &&& is_number(values, key_of(a, "nextn_predict_layers"@), m.nextn_layers)
    &&& m.tokenizer matches Some(t) ==> {
        &&& is_number(values, "tokenizer.ggml.bos_token_id"@, t.bos_token_id)
        &&& is_number(values, "tokenizer.ggml.eos_token_id"@, t.eos_token_id)
        &&& is_flag(values, "tokenizer.ggml.add_bos_token"@, t.add_bos_token)
        &&& is_flag(values, "tokenizer.ggml.add_eos_token"@, t.add_eos_token)
    }
}

/// Each fact of a model's metadata is what stands under the file's own key for it. There is no
/// metadata exactly where no text stands under `general.architecture`.
pub proof fn facts_stand_under_their_own_keys(keys: KeysView, markers: Seq<Seq<char>>)
    ensures
        match metadata::metadata_from(keys, markers) {
            Ok(m) => {
                &&& exists|a: Seq<char>| #[trigger]
                    stands_under(keys.values, "general.architecture"@, MetaValueView::Text(a))
                        && facts_of(keys.values, a, m)
                &&& forall|a: Seq<char>| #[trigger]
                    stands_under(keys.values, "general.architecture"@, MetaValueView::Text(a))
                        ==> facts_of(keys.values, a, m)
                &&& m.mtp_markers == markers
                &&& (keys.tokenizer is None ==> m.tokenizer is None)
                &&& (keys.tokenizer matches Some(t) ==> m.tokenizer matches Some(u)
                    && u.token_count == t.token_count && u.prefix_hashes == t.prefix_hashes)
            },
            Err(e) => {
                &&& e == Fault::Malformed
                &&& forall|a: Seq<char>|
                    !#[trigger] stands_under(
                        keys.values,
                        "general.architecture"@,
                        MetaValueView::Text(a),
                    )
            },
        },
{
    let v = keys.values;
    let arch = "general.architecture"@;
    reveal_strlit(".");
    assert("."@ =~= seq!['.']);
    lemma_last_value(v, arch);
    assert forall|a: Seq<char>| #[trigger]
        stands_under(v, arch, MetaValueView::Text(a)) implies metadata::last_value(v, arch) == Some(
        MetaValueView::Text(a),
    ) by {
        lemma_unique(v, arch, MetaValueView::Text(a));
    }
    match metadata::last_value(v, arch) {
        Some(MetaValueView::Text(a)) => {
            lemma_number(v, metadata::arch_key(a, "context_length"@));
            lemma_number(v, metadata::arch_key(a, "block_count"@));
            lemma_number(v, metadata::arch_key(a, "embedding_length"@));
            lemma_number(v, metadata::arch_key(a, "attention.head_count"@));
            lemma_number(v, metadata::arch_key(a, "attention.head_count_kv"@));
            lemma_number(v, metadata::arch_key(a, "attention.key_length"@));
            lemma_number(v, metadata::arch_key(a, "attention.value_length"@));
            lemma_number(v, metadata::arch_key(a, "attention.sliding_window"@));
            lemma_number(v, metadata::arch_key(a, "attention.sliding_window_pattern"@));
            lemma_number(v, metadata::arch_key(a, "pooling_type"@));
            lemma_number(v, metadata::arch_key(a, "nextn_predict_layers"@));
            lemma_number(v, "tokenizer.ggml.bos_token_id"@);
            lemma_number(v, "tokenizer.ggml.eos_token_id"@);
            lemma_number(v, "tokenizer.ggml.add_bos_token"@);
            lemma_number(v, "tokenizer.ggml.add_eos_token"@);
            let m = metadata::metadata_from(keys, markers)->Ok_0;
            assert(facts_of(v, a, m));
        },
        _ => {},
    }
}

/// The bytes that a scalar of a type takes, by the number of the type.
pub open spec fn width_of(vt: nat) -> nat {
    if vt == 0 || vt == 1 || vt == 7 {
        1
    } else if vt == 2 || vt == 3 {
        2
    } else if vt == 4 || vt == 5 || vt == 6 {
        4
    } else if vt == 10 || vt == 11 || vt == 12 {
        8
    } else {
        0
    }
}

/// Numbers in so many bytes each, one behind the other.
pub open spec fn list_bytes(list: Seq<u64>, width: nat) -> Seq<u8>
    decreases list.len(),
{
    if list.len() == 0 {
        seq![]
    } else {
        list_bytes(list.drop_last(), width) + gguf::le_bytes(list.last() as nat, width)
    }
}

/// A value with its type, as it is written: a scalar as it is, a text behind its length in
/// bytes, a list behind the type and the number of its items.
pub open spec fn value_bytes(vt: nat, element: nat, v: MetaValueView) -> Seq<u8> {
    match v {
        MetaValueView::Number(n) => gguf::le_bytes(n as nat, width_of(vt)),
        MetaValueView::Text(s) => gguf::le_bytes(encode_utf8(s).len(), 8) + encode_utf8(s),
        MetaValueView::Numbers(list) => gguf::le_bytes(element, 4) + gguf::le_bytes(list.len(), 8)
            + list_bytes(list, width_of(element)),
    }
}

/// Whether a value can be written with a type.
pub open spec fn writable(vt: nat, element: nat, v: MetaValueView) -> bool {
    match v {
        MetaValueView::Number(n) => width_of(vt) > 0 && n < pow(256, width_of(vt)),
        MetaValueView::Text(s) => vt == 8 && encode_utf8(s).len() <= u64::MAX,
        MetaValueView::Numbers(list) => {
            &&& vt == 9
            &&& width_of(element) > 0
            &&& list.len() <= 4096
            &&& forall|i: int| 0 <= i < list.len() ==> #[trigger] list[i] < pow(256, width_of(element))
        },
    }
}

/// A key with its value as it is to be written: the type, and that of the items of a list.
pub ghost struct Entry {
    pub key: Seq<char>,
    pub vt: nat,
    pub element: nat,
    pub value: MetaValueView,
}

/// Whether an entry can be written; the tokens of a vocabulary are written otherwise.
pub open spec fn sound(e: Entry) -> bool {
    &&& encode_utf8(e.key).len() <= u64::MAX
    &&& writable(e.vt, e.element, e.value)
    &&& e.key != "tokenizer.ggml.tokens"@ || e.vt != 9
}

/// Entries as they are written, one behind the other.
pub open spec fn entries_bytes(list: Seq<Entry>) -> Seq<u8>
    decreases list.len(),
{
    if list.len() == 0 {
        seq![]
    } else {
        let e = list.last();
        entries_bytes(list.drop_last()) + (gguf::le_bytes(encode_utf8(e.key).len(), 8)
            + encode_utf8(e.key) + gguf::le_bytes(e.vt, 4) + value_bytes(e.vt, e.element, e.value))
    }
}

/// The keys and values of some entries.
pub open spec fn values_of(list: Seq<Entry>) -> Values {
    list.map_values(|e: Entry| (e.key, e.value))
}

/// Whether some bytes lie at a place.
pub open spec fn lies(data: Seq<u8>, pos: int, piece: Seq<u8>) -> bool {
    &&& 0 <= pos
    &&& pos + piece.len() <= data.len()
    &&& forall|i: int| 0 <= i < piece.len() ==> data[pos + i] == #[trigger] piece[i]
}

pub proof fn lemma_lies(data: Seq<u8>, pos: int, a: Seq<u8>, b: Seq<u8>)
    requires
        lies(data, pos, a + b),
    ensures
        lies(data, pos, a),
        lies(data, pos + a.len(), b),
{
    let all = a + b;
    assert forall|i: int| 0 <= i < a.len() implies data[pos + i] == #[trigger] a[i] by {
        assert(all[i] == a[i]);
    }
    assert forall|i: int| 0 <= i < b.len() implies data[pos + a.len() + i] == #[trigger] b[i] by {
        assert(all[a.len() + i] == b[i]);
    }
}

pub proof fn lemma_le(n: nat, width: nat)
    requires
        n < pow(256, width),
    ensures
        gguf::le_value(gguf::le_bytes(n, width)) == n,
        gguf::le_bytes(n, width).len() == width,
    decreases width,
{
    reveal(pow);
    gguf::lemma_le_bytes_len(n, width);
    if width == 0 {
        assert(pow(256, 0) == 1);
    } else {
        let w = (width - 1) as nat;
        assert(pow(256, width) == 256 * pow(256, w));
        assert(n / 256 < pow(256, w));
        lemma_le(n / 256, w);
        let all = gguf::le_bytes(n, width);
        assert(all.skip(1) =~= gguf::le_bytes(n / 256, w));
    }
}

pub proof fn lemma_powers()
    ensures
        pow(256, 1) == 0x100,
        pow(256, 2) == 0x1_0000,
        pow(256, 4) == 0x1_0000_0000,
        pow(256, 8) == 0x1_0000_0000_0000_0000,
{
    reveal_with_fuel(pow, 9);
    assert(pow(256, 0) == 1);
    assert(pow(256, 1) == 256);
    assert(pow(256, 2) == 0x1_0000);
    assert(pow(256, 3) == 0x100_0000);
    assert(pow(256, 4) == 0x1_0000_0000);
    assert(pow(256, 5) == 0x100_0000_0000);
    assert(pow(256, 6) == 0x1_0000_0000_0000);
    assert(pow(256, 7) == 0x100_0000_0000_0000);
}

pub proof fn lemma_uint(data: Seq<u8>, pos: int, n: nat, width: nat)
    requires
        lies(data, pos, gguf::le_bytes(n, width)),
        n < pow(256, width),
    ensures
        metadata::uint_at(data, pos, width) == Ok::<nat, Fault>(n),
{
    lemma_le(n, width);
    assert(gguf::bytes_at(data, pos, pos + width) =~= gguf::le_bytes(n, width));
}

pub proof fn lemma_string(data: Seq<u8>, pos: int, s: Seq<char>)
    requires
        lies(data, pos, gguf::le_bytes(encode_utf8(s).len(), 8) + encode_utf8(s)),
        encode_utf8(s).len() <= u64::MAX,
    ensures
        metadata::string_at(data, pos) == Ok::<(Seq<char>, int), Fault>(
            (s, pos + 8 + encode_utf8(s).len()),
        ),
{
    let bytes = encode_utf8(s);
    lemma_powers();
    lemma_le(bytes.len(), 8);
    lemma_lies(data, pos, gguf::le_bytes(bytes.len(), 8), bytes);
    lemma_uint(data, pos, bytes.len(), 8);
    assert(gguf::bytes_at(data, pos + 8, pos + 8 + bytes.len()) =~= bytes);
    encode_utf8_valid_utf8(s);
    encode_utf8_decode_utf8(s);
}

proof fn lemma_list(data: Seq<u8>, pos: int, list: Seq<u64>, width: nat)
    requires
        lies(data, pos, list_bytes(list, width)),
        width > 0,
        width <= 8,
        forall|i: int| 0 <= i < list.len() ==> #[trigger] list[i] < pow(256, width),
    ensures
        list_bytes(list, width).len() == list.len() * width,
        metadata::numbers_at(data, pos, width, list.len()) == list,
    decreases list.len(),
{
    let read = metadata::numbers_at(data, pos, width, list.len());
    if list.len() > 0 {
        let less = list.drop_last();
        let n = less.len();
        let last = list.last();
        assert(list[n as int] == last);
        assert forall|i: int| 0 <= i < less.len() implies #[trigger] less[i] < pow(256, width) by {
            assert(less[i] == list[i]);
        }
        lemma_le(last as nat, width);
        lemma_lies(data, pos, list_bytes(less, width), gguf::le_bytes(last as nat, width));
        lemma_list(data, pos, less, width);
        assert((n + 1) * width == n * width + width) by (nonlinear_arith);
        let at = pos + n * width;
        assert(gguf::bytes_at(data, at, at + width) =~= gguf::le_bytes(last as nat, width));
        let before = metadata::numbers_at(data, pos, width, n);
        assert(read =~= list) by {
            assert forall|i: int| 0 <= i < list.len() implies read[i] == list[i] by {
                if i < n {
                    assert(read[i] == before[i]);
                    assert(less[i] == list[i]);
                } else {
                    assert(i == n);
                    assert(i * width == n * width);
                    assert(read[i] == gguf::le_value(gguf::bytes_at(data, at, at + width)) as u64);
                }
            }
        }
    } else {
        assert(read =~= list);
        assert(list.len() * width == 0) by (nonlinear_arith)
            requires
                list.len() == 0,
        ;
    }
}

proof fn lemma_value(data: Seq<u8>, pos: int, vt: nat, element: nat, v: MetaValueView)
    requires
        lies(data, pos, value_bytes(vt, element, v)),
        writable(vt, element, v),
    ensures
        metadata::meta_value_at(data, pos, vt as u32) == Ok::<(MetaValueView, int), Fault>(
            (v, pos + value_bytes(vt, element, v).len()),
        ),
{
    lemma_powers();
    match v {
        MetaValueView::Number(n) => {
            let w = width_of(vt);
            lemma_le(n as nat, w);
            lemma_uint(data, pos, n as nat, w);
            assert(gguf::scalar_size_of(vt as u32) == Some(w));
        },
        MetaValueView::Text(s) => {
            lemma_string(data, pos, s);
            gguf::lemma_le_bytes_len(encode_utf8(s).len(), 8);
        },
        MetaValueView::Numbers(list) => {
            let w = width_of(element);
            let count = list.len();
            let items = list_bytes(list, w);
            lemma_le(element, 4);
            lemma_le(count, 8);
            let head = gguf::le_bytes(element, 4) + gguf::le_bytes(count, 8);
            lemma_lies(data, pos, head, items);
            lemma_lies(data, pos, gguf::le_bytes(element, 4), gguf::le_bytes(count, 8));
            lemma_uint(data, pos, element, 4);
            lemma_uint(data, pos + 4, count, 8);
            lemma_list(data, pos + 12, list, w);
            assert(gguf::scalar_size_of(element as u32) == Some(w));
            assert(value_bytes(vt, element, v).len() == 12 + count * w);
        },
    }
}

proof fn lemma_entries(data: Seq<u8>, pos: int, list: Seq<Entry>)
    requires
        lies(data, pos, entries_bytes(list)),
        forall|i: int| 0 <= i < list.len() ==> sound(#[trigger] list[i]),
    ensures
        metadata::keys_at(data, pos, list.len()) == Ok::<(KeysView, int), Fault>(
            (
                KeysView { values: values_of(list), tokenizer: None },
                pos + entries_bytes(list).len(),
            ),
        ),
    decreases list.len(),
{
    if list.len() > 0 {
        let less = list.drop_last();
        let e = list.last();
        assert(list[list.len() - 1] == e);
        let key = gguf::le_bytes(encode_utf8(e.key).len(), 8) + encode_utf8(e.key);
        let kind = gguf::le_bytes(e.vt, 4);
        let body = value_bytes(e.vt, e.element, e.value);
        lemma_powers();
        lemma_lies(data, pos, entries_bytes(less), key + kind + body);
        assert forall|i: int| 0 <= i < less.len() implies sound(#[trigger] less[i]) by {
            assert(less[i] == list[i]);
        }
        lemma_entries(data, pos, less);
        let at = pos + entries_bytes(less).len();
        lemma_lies(data, at, key + kind, body);
        lemma_lies(data, at, key, kind);
        lemma_string(data, at, e.key);
        gguf::lemma_le_bytes_len(encode_utf8(e.key).len(), 8);
        assert(e.vt <= 12);
        lemma_le(e.vt, 4);
        lemma_uint(data, at + key.len(), e.vt, 4);
        lemma_value(data, at + key.len() + 4, e.vt, e.element, e.value);
        assert(values_of(less).push((e.key, e.value)) =~= values_of(list));
    } else {
        assert(values_of(list) =~= seq![]);
    }
}

/// A file with so many tensors and some entries, as it is written: four letters, the version,
/// the two counts, the entries, and whatever follows.
pub open spec fn file_bytes(tensors: u64, list: Seq<Entry>, rest: Seq<u8>) -> Seq<u8> {
    seq![0x47u8, 0x47, 0x55, 0x46] + gguf::le_bytes(3, 4) + gguf::le_bytes(tensors as nat, 8)
        + gguf::le_bytes(list.len(), 8) + entries_bytes(list) + rest
}

/// From a file every fact of the metadata is read back that was written under its own key,
/// whatever else was written: the last, where there are several.
pub proof fn written_facts_are_read_back(
    tensors: u64,
    list: Seq<Entry>,
    rest: Seq<u8>,
    a: Seq<char>,
)
    requires
        list.len() <= u64::MAX,
        forall|i: int| 0 <= i < list.len() ==> sound(#[trigger] list[i]),
        stands_under(values_of(list), "general.architecture"@, MetaValueView::Text(a)),
    ensures
        match metadata::metadata_of(file_bytes(tensors, list, rest), false) {
            Ok(m) => facts_of(values_of(list), a, m) && m.mtp_markers.len() == 0,
            Err(_) => false,
        },
{
    let data = file_bytes(tensors, list, rest);
    let one = seq![0x47u8, 0x47, 0x55, 0x46];
    let two = gguf::le_bytes(3, 4);
    let three = gguf::le_bytes(tensors as nat, 8);
    let four = gguf::le_bytes(list.len(), 8);
    let five = entries_bytes(list);
    lemma_powers();
    lemma_le(3, 4);
    lemma_le(tensors as nat, 8);
    lemma_le(list.len(), 8);
    assert(lies(data, 0, one + two + three + four + five + rest));
    lemma_lies(data, 0, one + two + three + four + five, rest);
    lemma_lies(data, 0, one + two + three + four, five);
    lemma_lies(data, 0, one + two + three, four);
    lemma_lies(data, 0, one + two, three);
    lemma_lies(data, 0, one, two);
    assert(data.take(4) =~= gguf::magic());
    lemma_uint(data, 8, tensors as nat, 8);
    lemma_uint(data, 16, list.len(), 8);
    lemma_entries(data, 24, list);
    let keys = KeysView { values: values_of(list), tokenizer: None };
    facts_stand_under_their_own_keys(keys, seq![]);
}

/// The tensors that show that a model can draft for itself, and what each of them is called.
pub open spec fn shows(name: Seq<char>, marker: Seq<char>) -> bool {
    ||| marker == "eh_proj"@ && ends_in(name, ".nextn.eh_proj.weight"@)
    ||| marker == "enorm"@ && ends_in(name, ".nextn.enorm.weight"@)
    ||| marker == "hnorm"@ && ends_in(name, ".nextn.hnorm.weight"@)
}

/// Whether a text ends in another.
pub open spec fn ends_in(s: Seq<char>, end: Seq<char>) -> bool {
    s.len() >= end.len() && s.skip(s.len() - end.len()) == end
}

proof fn lemma_marked(list: Seq<Seq<char>>, name: Seq<char>, marker: Seq<char>)
    ensures
        metadata::marked_by(list, name).contains(marker) <==> list.contains(marker) || shows(
            name,
            marker,
        ),
{
    lemma_suffix(name, ".nextn.eh_proj.weight"@);
    lemma_suffix(name, ".nextn.enorm.weight"@);
    lemma_suffix(name, ".nextn.hnorm.weight"@);
    let one = metadata::marked(list, name, ".nextn.eh_proj.weight"@, "eh_proj"@);
    let two = metadata::marked(one, name, ".nextn.enorm.weight"@, "enorm"@);
    lemma_push_contains(list, "eh_proj"@, marker);
    lemma_push_contains(one, "enorm"@, marker);
    lemma_push_contains(two, "hnorm"@, marker);
}

pub proof fn lemma_suffix(s: Seq<char>, end: Seq<char>)
    ensures
        end.is_suffix_of(s) <==> ends_in(s, end),
{
    if end.is_suffix_of(s) {
        assert(s.skip(s.len() - end.len()) =~= end);
    }
    if ends_in(s, end) {
        assert(end =~= s.subrange(s.len() - end.len(), s.len() as int));
    }
}

proof fn lemma_push_contains(list: Seq<Seq<char>>, item: Seq<char>, other: Seq<char>)
    ensures
        list.push(item).contains(other) <==> list.contains(other) || item == other,
{
    let all = list.push(item);
    if list.contains(other) {
        let i = choose|i: int| 0 <= i < list.len() && list[i] == other;
        assert(all[i] == other);
    }
    if item == other {
        assert(all[list.len() as int] == other);
    }
    if all.contains(other) {
        let i = choose|i: int| 0 <= i < all.len() && all[i] == other;
        if i < list.len() {
            assert(list[i] == other);
        }
    }
}

/// A marker is found exactly where the name of one of the tensors ends in the way that shows
/// it; the names are those that stand in the file, one tensor behind the other.
pub proof fn markers_are_shown_by_tensors(data: Seq<u8>, pos: int, n: nat) -> (r: (
    Seq<Seq<char>>,
    Seq<int>,
))
    requires
        metadata::markers_at(data, pos, n) is Ok,
    ensures
        ({
            let (names, places) = r;
            let (list, end) = metadata::markers_at(data, pos, n)->Ok_0;
            &&& names.len() == n
            &&& places.len() == n + 1
            &&& places[0] == pos
            &&& places[n as int] == end
            &&& forall|k: int|
                0 <= k < n ==> {
                    &&& metadata::string_at(data, #[trigger] places[k]) matches Ok((s, next))
                    &&& s == names[k]
                    &&& metadata::uint_at(data, next, 4) matches Ok(dims)
                    &&& places[k + 1] == next + 4 + dims * 8 + 12
                }
            &&& forall|marker: Seq<char>| #[trigger]
                list.contains(marker) <==> exists|k: int|
                    0 <= k < n && shows(#[trigger] names[k], marker)
        }),
    decreases n,
{
    if n == 0 {
        let list = metadata::markers_at(data, pos, n)->Ok_0.0;
        let none = Seq::<Seq<char>>::empty();
        assert(list =~= none);
        assert forall|marker: Seq<char>| #[trigger] list.contains(marker) <==> exists|k: int|
            0 <= k < n && shows(#[trigger] none[k], marker) by {
            assert(!list.contains(marker));
        }
        (none, seq![pos])
    } else {
        let (names, places) = markers_are_shown_by_tensors(data, pos, (n - 1) as nat);
        let (less, at) = metadata::markers_at(data, pos, (n - 1) as nat)->Ok_0;
        let (list, end) = metadata::markers_at(data, pos, n)->Ok_0;
        let (name, next) = metadata::string_at(data, at)->Ok_0;
        let all = names.push(name);
        let then = places.push(end);
        assert forall|marker: Seq<char>| #[trigger] list.contains(marker) <==> exists|k: int|
            0 <= k < n && shows(#[trigger] all[k], marker) by {
            lemma_marked(less, name, marker);
            assert(list.contains(marker) <==> less.contains(marker) || shows(name, marker));
            if less.contains(marker) {
                let k = choose|k: int| 0 <= k < n - 1 && shows(#[trigger] names[k], marker);
                assert(all[k] == names[k]);
            }
            if shows(name, marker) {
                assert(shows(all[n - 1], marker));
            }
            if exists|k: int| 0 <= k < n && shows(#[trigger] all[k], marker) {
                let k = choose|k: int| 0 <= k < n && shows(#[trigger] all[k], marker);
                if k < n - 1 {
                    assert(shows(names[k], marker));
                }
            }
        }
        assert forall|k: int| 0 <= k < n implies {
            &&& metadata::string_at(data, #[trigger] then[k]) matches Ok((s, next))
            &&& s == all[k]
            &&& metadata::uint_at(data, next, 4) matches Ok(dims)
            &&& then[k + 1] == next + 4 + dims * 8 + 12
        } by {
            if k < n - 1 {
                assert(then[k] == places[k]);
                assert(then[k + 1] == places[k + 1]);
                assert(all[k] == names[k]);
            }
        }
        (all, then)
    }
}

/// Texts as they are written, each behind its length.
pub open spec fn strings_bytes(list: Seq<Seq<char>>) -> Seq<u8>
    decreases list.len(),
{
    if list.len() == 0 {
        seq![]
    } else {
        strings_bytes(list.drop_last()) + (gguf::le_bytes(encode_utf8(list.last()).len(), 8)
            + encode_utf8(list.last()))
    }
}

/// What is hashed of the tokens of a vocabulary: of each but the first five its number, its
/// length and its text; an empty one goes by its number.
pub open spec fn hashed(tokens: Seq<Seq<char>>) -> Seq<u8>
    decreases tokens.len(),
{
    if tokens.len() <= 5 {
        seq![]
    } else {
        let id = (tokens.len() - 1) as nat;
        let shown = if tokens.last().len() == 0 {
            "[EMPTY_"@ + text::decimal_of(id) + "]"@
        } else {
            tokens.last()
        };
        let bytes = encode_utf8(shown);
        hashed(tokens.drop_last()) + (gguf::le_bytes(id % 0x1_0000_0000, 4) + gguf::le_bytes(
            bytes.len() % 0x1_0000_0000,
            4,
        ) + bytes)
    }
}

proof fn lemma_tokens(data: Seq<u8>, pos: int, tokens: Seq<Seq<char>>)
    requires
        lies(data, pos, strings_bytes(tokens)),
        forall|i: int| 0 <= i < tokens.len() ==> encode_utf8(#[trigger] tokens[i]).len() <= u64::MAX,
    ensures
        metadata::tokens_at(data, pos, tokens.len()) == Ok::<(Seq<u8>, int), Fault>(
            (hashed(tokens), pos + strings_bytes(tokens).len()),
        ),
    decreases tokens.len(),
{
    if tokens.len() > 0 {
        let less = tokens.drop_last();
        let s = tokens.last();
        assert(tokens[tokens.len() - 1] == s);
        let piece = gguf::le_bytes(encode_utf8(s).len(), 8) + encode_utf8(s);
        lemma_lies(data, pos, strings_bytes(less), piece);
        assert forall|i: int| 0 <= i < less.len() implies encode_utf8(#[trigger] less[i]).len()
            <= u64::MAX by {
            assert(less[i] == tokens[i]);
        }
        lemma_tokens(data, pos, less);
        gguf::lemma_le_bytes_len(encode_utf8(s).len(), 8);
        lemma_string(data, pos + strings_bytes(less).len(), s);
        if tokens.len() > 5 {
            assert(hashed(tokens) == hashed(less) + metadata::token_bytes(
                (tokens.len() - 1) as nat,
                s,
            ));
        }
    }
}

proof fn lemma_strings_front(tokens: Seq<Seq<char>>, n: int)
    requires
        0 <= n <= tokens.len(),
    ensures
        exists|rest: Seq<u8>|
            strings_bytes(tokens) == #[trigger] (strings_bytes(tokens.take(n)) + rest),
    decreases tokens.len() - n,
{
    if n == tokens.len() {
        assert(tokens.take(n) =~= tokens);
        assert(strings_bytes(tokens) =~= strings_bytes(tokens.take(n)) + Seq::<u8>::empty());
    } else {
        lemma_strings_front(tokens, n + 1);
        let rest = choose|rest: Seq<u8>|
            strings_bytes(tokens) == #[trigger] (strings_bytes(tokens.take(n + 1)) + rest);
        let more = tokens.take(n + 1);
        assert(more.drop_last() =~= tokens.take(n));
        let piece = gguf::le_bytes(encode_utf8(more.last()).len(), 8) + encode_utf8(more.last());
        assert(strings_bytes(tokens) =~= strings_bytes(tokens.take(n)) + (piece + rest));
    }
}

proof fn lemma_hashes(data: Seq<u8>, pos: int, tokens: Seq<Seq<char>>, from: nat, n: nat)
    requires
        lies(data, pos, strings_bytes(tokens)),
        forall|i: int| 0 <= i < tokens.len() ==> encode_utf8(#[trigger] tokens[i]).len() <= u64::MAX,
        5 <= from,
        5 <= n <= tokens.len(),
        tokens.len() <= u64::MAX,
    ensures
        metadata::prefix_hashes_at(data, pos, from, n) == Seq::new(
            if n >= from {
                (n - from + 1) as nat
            } else {
                0
            },
            |i: int| ((from + i) as u64, metadata::digest(hashed(tokens.take(from + i)))),
        ),
    decreases n,
{
    let out = metadata::prefix_hashes_at(data, pos, from, n);
    let goal = Seq::new(
        if n >= from {
            (n - from + 1) as nat
        } else {
            0
        },
        |i: int| ((from + i) as u64, metadata::digest(hashed(tokens.take(from + i)))),
    );
    if n == 5 {
        assert(hashed(tokens.take(5)) =~= seq![]);
        assert(out =~= goal);
    } else {
        lemma_hashes(data, pos, tokens, from, (n - 1) as nat);
        let part = tokens.take(n as int);
        lemma_strings_front(tokens, n as int);
        let rest = choose|rest: Seq<u8>|
            strings_bytes(tokens) == #[trigger] (strings_bytes(part) + rest);
        lemma_lies(data, pos, strings_bytes(part), rest);
        assert forall|i: int| 0 <= i < part.len() implies encode_utf8(#[trigger] part[i]).len()
            <= u64::MAX by {
            assert(part[i] == tokens[i]);
        }
        lemma_tokens(data, pos, part);
        assert(out =~= goal);
    }
}

/// A vocabulary that was written is read back with the number of its tokens. For each of the
/// last counts, 128 below the number of tokens and more but never under five, it keeps the
/// digest of as many tokens; so two files whose first tokens are the same keep the same digest
/// of them.
pub proof fn written_vocabularies_are_read_back(data: Seq<u8>, pos: int, tokens: Seq<Seq<char>>)
    requires
        lies(
            data,
            pos,
            gguf::le_bytes(8, 4) + gguf::le_bytes(tokens.len(), 8) + strings_bytes(tokens),
        ),
        forall|i: int| 0 <= i < tokens.len() ==> encode_utf8(#[trigger] tokens[i]).len() <= u64::MAX,
        5 <= tokens.len() <= u64::MAX,
    ensures
        ({
            let n = tokens.len();
            let from = if n > 133 {
                (n - 128) as nat
            } else {
                5
            };
            match metadata::vocabulary_at(data, pos) {
                Ok((t, end)) => {
                    &&& end == pos + 12 + strings_bytes(tokens).len()
                    &&& t.token_count == n
                    &&& t.prefix_hashes.len() == n - from + 1
                    &&& forall|i: int|
                        0 <= i < t.prefix_hashes.len() ==> #[trigger] t.prefix_hashes[i] == (
                            (from + i) as u64,
                            metadata::digest(hashed(tokens.take(from + i))),
                        )
                    &&& t.bos_token_id is None && t.eos_token_id is None && t.add_bos_token is None
                        && t.add_eos_token is None
                },
                Err(_) => false,
            }
        }),
{
    let n = tokens.len();
    let a = gguf::le_bytes(8, 4);
    let b = gguf::le_bytes(n, 8);
    lemma_powers();
    lemma_le(8, 4);
    lemma_le(n, 8);
    lemma_lies(data, pos, a + b, strings_bytes(tokens));
    lemma_lies(data, pos, a, b);
    lemma_uint(data, pos, 8, 4);
    lemma_uint(data, pos + 4, n, 8);
    lemma_tokens(data, pos + 12, tokens);
    lemma_hashes(data, pos + 12, tokens, metadata::hash_from(n), n);
}

/// Two lists of tokens that differ, other than in the first five, are hashed over different
/// bytes where they are equally many and none is empty.
pub proof fn other_tokens_are_hashed_otherwise(a: Seq<Seq<char>>, b: Seq<Seq<char>>)
    requires
        a.len() == b.len(),
        forall|i: int|
            0 <= i < a.len() ==> (#[trigger] a[i]).len() > 0 && encode_utf8(a[i]).len() <= u32::MAX,
        forall|i: int|
            0 <= i < b.len() ==> (#[trigger] b[i]).len() > 0 && encode_utf8(b[i]).len() <= u32::MAX,
        hashed(a) == hashed(b),
    ensures
        forall|i: int| 5 <= i < a.len() ==> #[trigger] a[i] == b[i],
    decreases a.len(),
{
    if a.len() > 5 {
        lemma_hashed_front(a, b);
        lemma_records(a, b, 5, hashed_from(a, 5), hashed_from(b, 5));
    }
}

/// What is hashed of the tokens from a place on.
spec fn hashed_from(tokens: Seq<Seq<char>>, at: int) -> Seq<u8>
    decreases tokens.len() - at,
{
    if at >= tokens.len() || at < 0 {
        seq![]
    } else {
        metadata::token_bytes(at as nat, tokens[at]) + hashed_from(tokens, at + 1)
    }
}

proof fn lemma_hashed_split(tokens: Seq<Seq<char>>, at: int)
    requires
        5 <= at <= tokens.len(),
    ensures
        hashed(tokens) == hashed(tokens.take(at)) + hashed_from(tokens, at),
    decreases tokens.len() - at,
{
    if at == tokens.len() {
        assert(tokens.take(at) =~= tokens);
        assert(hashed(tokens) + Seq::<u8>::empty() =~= hashed(tokens));
    } else {
        lemma_hashed_split(tokens, at + 1);
        let more = tokens.take(at + 1);
        assert(more.drop_last() =~= tokens.take(at));
        let record = metadata::token_bytes(at as nat, tokens[at]);
        assert(hashed(more) == hashed(tokens.take(at)) + record);
        assert(hashed(tokens) =~= hashed(tokens.take(at)) + (record + hashed_from(tokens, at + 1)));
    }
}

proof fn lemma_hashed_front(a: Seq<Seq<char>>, b: Seq<Seq<char>>)
    requires
        a.len() == b.len(),
        a.len() > 5,
        hashed(a) == hashed(b),
    ensures
        hashed_from(a, 5) == hashed_from(b, 5),
{
    lemma_hashed_split(a, 5);
    lemma_hashed_split(b, 5);
    assert(hashed(a.take(5)) =~= seq![]);
    assert(hashed(b.take(5)) =~= seq![]);
    assert(hashed(a) =~= hashed_from(a, 5));
    assert(hashed(b) =~= hashed_from(b, 5));
}

proof fn lemma_records(a: Seq<Seq<char>>, b: Seq<Seq<char>>, at: int, s: Seq<u8>, t: Seq<u8>)
    requires
        5 <= at <= a.len(),
        a.len() == b.len(),
        forall|i: int|
            0 <= i < a.len() ==> (#[trigger] a[i]).len() > 0 && encode_utf8(a[i]).len() <= u32::MAX,
        forall|i: int|
            0 <= i < b.len() ==> (#[trigger] b[i]).len() > 0 && encode_utf8(b[i]).len() <= u32::MAX,
        s == hashed_from(a, at),
        t == hashed_from(b, at),
        s == t,
    ensures
        forall|i: int| at <= i < a.len() ==> #[trigger] a[i] == b[i],
    decreases a.len() - at,
{
    if at < a.len() {
        let x = encode_utf8(a[at]);
        let y = encode_utf8(b[at]);
        let id = gguf::le_bytes(at as nat % 0x1_0000_0000, 4);
        let m = gguf::le_bytes(x.len() % 0x1_0000_0000, 4);
        let n = gguf::le_bytes(y.len() % 0x1_0000_0000, 4);
        lemma_powers();
        lemma_le(at as nat % 0x1_0000_0000, 4);
        lemma_le(x.len(), 4);
        lemma_le(y.len(), 4);
        assert(x.len() % 0x1_0000_0000 == x.len());
        assert(y.len() % 0x1_0000_0000 == y.len());
        assert(s == id + m + x + hashed_from(a, at + 1));
        assert(t == id + n + y + hashed_from(b, at + 1));
        assert(m =~= s.subrange(4, 8));
        assert(n =~= t.subrange(4, 8));
        assert(x.len() == y.len());
        assert(x =~= s.subrange(8, 8 + x.len() as int));
        assert(y =~= t.subrange(8, 8 + y.len() as int));
        encode_utf8_decode_utf8(a[at]);
        encode_utf8_decode_utf8(b[at]);
        let end = 8 + x.len() as int;
        assert(hashed_from(a, at + 1) =~= s.skip(end));
        assert(hashed_from(b, at + 1) =~= t.skip(end));
        lemma_records(a, b, at + 1, s.skip(end), t.skip(end));
    }
}

/// Whether the architecture and the number of blocks of a model are told by its first entries:
/// the architecture by the only one of that key, the blocks by the first of the architecture's
/// own key behind it.
pub open spec fn shape_told(
    list: Seq<Entry>,
    n: int,
    architecture: Option<Seq<char>>,
    blocks: Option<u64>,
) -> bool {
    match architecture {
        None => blocks is None && forall|i: int|
            0 <= i < n ==> (#[trigger] list[i]).key != "general.architecture"@,
        Some(a) => exists|i: int|
            0 <= i < n && (#[trigger] list[i]).key == "general.architecture"@ && list[i].value
                == MetaValueView::Text(a) && match blocks {
                None => forall|j: int|
                    i < j < n ==> (#[trigger] list[j]).key != key_of(a, "block_count"@),
                Some(b) => exists|j: int|
                    i < j < n && (#[trigger] list[j]).key == key_of(a, "block_count"@)
                        && list[j].value == MetaValueView::Number(b) && forall|k: int|
                        i < k < j ==> (#[trigger] list[k]).key != key_of(a, "block_count"@),
            },
    }
}

/// The architecture of a written file is read back, and the number of its blocks where one was
/// written behind it.
pub proof fn written_shapes_are_read_back(data: Seq<u8>, pos: int, list: Seq<Entry>, n: nat)
    requires
        lies(data, pos, entries_bytes(list)),
        n <= list.len(),
        forall|i: int| 0 <= i < list.len() ==> sound(#[trigger] list[i]),
        forall|i: int, j: int|
            0 <= i < j < list.len() ==> (#[trigger] list[i]).key != (#[trigger] list[j]).key,
        forall|i: int|
            0 <= i < list.len() && (#[trigger] list[i]).key == "general.architecture"@
                ==> list[i].value is Text,
        forall|i: int, a: Seq<char>|
            0 <= i < list.len() && (#[trigger] list[i]).key == #[trigger] key_of(a, "block_count"@)
                ==> list[i].value is Number,
    ensures
        match metadata::shape_at(data, pos, n) {
            Ok((s, at)) => {
                &&& shape_told(list, n as int, s.architecture, s.block_count)
                &&& s.architecture is None || s.block_count is None ==> at == pos + entries_bytes(
                    list.take(n as int),
                ).len()
            },
            Err(_) => false,
        },
    decreases n,
{
    if n == 0 {
        assert(list.take(0) =~= seq![]);
    } else {
        let m = n - 1;
        written_shapes_are_read_back(data, pos, list, m as nat);
        let (s, at) = metadata::shape_at(data, pos, m as nat)->Ok_0;
        let arch = "general.architecture"@;
        reveal_strlit(".");
        assert("."@ =~= seq!['.']);
        if s.architecture is Some && s.block_count is Some {
            let a = s.architecture->0;
            let b = s.block_count->0;
            let i = choose|i: int|
                0 <= i < m && (#[trigger] list[i]).key == arch && list[i].value
                    == MetaValueView::Text(a) && exists|j: int|
                    i < j < m && (#[trigger] list[j]).key == key_of(a, "block_count"@)
                        && list[j].value == MetaValueView::Number(b) && forall|k: int|
                        i < k < j ==> (#[trigger] list[k]).key != key_of(a, "block_count"@);
            let j = choose|j: int|
                i < j < m && (#[trigger] list[j]).key == key_of(a, "block_count"@) && list[j].value
                    == MetaValueView::Number(b) && forall|k: int|
                    i < k < j ==> (#[trigger] list[k]).key != key_of(a, "block_count"@);
            assert(list[i].key == arch && list[j].key == key_of(a, "block_count"@));
            assert(shape_told(list, n as int, Some(a), Some(b)));
        } else {
            let e = list[m];
            assert(sound(e));
            lemma_entry_at(data, pos, list, m);
            let next = at + 8 + encode_utf8(e.key).len();
            let new = metadata::shaped(s, e.key, e.value);
            if e.key == arch {
                assert(list[m].key == arch);
                if s.architecture is Some {
                    let a = s.architecture->0;
                    let i = choose|i: int|
                        0 <= i < m && (#[trigger] list[i]).key == arch && list[i].value
                            == MetaValueView::Text(a) && forall|j: int|
                            i < j < m ==> (#[trigger] list[j]).key != key_of(a, "block_count"@);
                    assert(list[i].key != list[m].key);
                }
                assert(shape_told(list, n as int, new.architecture, new.block_count));
            } else {
                match s.architecture {
                    None => {
                        assert(shape_told(list, n as int, new.architecture, new.block_count));
                    },
                    Some(a) => {
                        let i = choose|i: int|
                            0 <= i < m && (#[trigger] list[i]).key == arch && list[i].value
                                == MetaValueView::Text(a) && forall|j: int|
                                i < j < m ==> (#[trigger] list[j]).key != key_of(a, "block_count"@);
                        assert(list[i].key == arch);
                        if e.key == key_of(a, "block_count"@) {
                            assert(list[m].key == key_of(a, "block_count"@));
                            assert(list[m].value is Number);
                            assert(new.block_count is Some);
                            assert(shape_told(list, n as int, new.architecture, new.block_count));
                        } else {
                            assert(new == s);
                            assert(shape_told(list, n as int, new.architecture, new.block_count));
                        }
                    },
                }
            }
        }
    }
}

/// The entry at a place in a list lies behind those in front of it, and is read there.
proof fn lemma_entry_at(data: Seq<u8>, pos: int, list: Seq<Entry>, m: int)
    requires
        lies(data, pos, entries_bytes(list)),
        0 <= m < list.len(),
        sound(list[m]),
    ensures
        ({
            let e = list[m];
            let at = pos + entries_bytes(list.take(m)).len();
            let next = at + 8 + encode_utf8(e.key).len();
            &&& metadata::string_at(data, at) == Ok::<(Seq<char>, int), Fault>((e.key, next))
            &&& metadata::uint_at(data, next, 4) == Ok::<nat, Fault>(e.vt)
            &&& metadata::meta_value_at(data, next + 4, e.vt as u32) == Ok::<
                (MetaValueView, int),
                Fault,
            >((e.value, pos + entries_bytes(list.take(m + 1)).len()))
        }),
{
    let e = list[m];
    let more = list.take(m + 1);
    lemma_entries_front(data, pos, list, m + 1);
    assert(more.drop_last() =~= list.take(m));
    assert(more.last() == e);
    let key = gguf::le_bytes(encode_utf8(e.key).len(), 8) + encode_utf8(e.key);
    let kind = gguf::le_bytes(e.vt, 4);
    let body = value_bytes(e.vt, e.element, e.value);
    lemma_powers();
    lemma_lies(data, pos, entries_bytes(list.take(m)), key + kind + body);
    let at = pos + entries_bytes(list.take(m)).len();
    lemma_lies(data, at, key + kind, body);
    lemma_lies(data, at, key, kind);
    lemma_string(data, at, e.key);
    gguf::lemma_le_bytes_len(encode_utf8(e.key).len(), 8);
    assert(e.vt <= 12);
    lemma_le(e.vt, 4);
    lemma_uint(data, at + key.len(), e.vt, 4);
    lemma_value(data, at + key.len() + 4, e.vt, e.element, e.value);
}

proof fn lemma_entries_front(data: Seq<u8>, pos: int, list: Seq<Entry>, n: int)
    requires
        lies(data, pos, entries_bytes(list)),
        0 <= n <= list.len(),
    ensures
        lies(data, pos, entries_bytes(list.take(n))),
    decreases list.len() - n,
{
    if n == list.len() {
        assert(list.take(n) =~= list);
    } else {
        lemma_entries_front(data, pos, list, n + 1);
        let more = list.take(n + 1);
        assert(more.drop_last() =~= list.take(n));
        let e = more.last();
        lemma_lies(
            data,
            pos,
            entries_bytes(list.take(n)),
            gguf::le_bytes(encode_utf8(e.key).len(), 8) + encode_utf8(e.key) + gguf::le_bytes(
                e.vt,
                4,
            ) + value_bytes(e.vt, e.element, e.value),
        );
    }
}

} // verus!
