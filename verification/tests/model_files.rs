//! Model files: the header, the metadata, the graft and the library of models.
use llamactl::gguf::{
    can_place, capture_value, graft_header, graft_mtp, graft_text, graft_total, is_ascending, meta_string,
    meta_u64, on_disk_sizes, parse_entries, parse_header, place, read_exact_n, read_string,
    read_u32, read_u64, scalar_size, select_graft, write_string, write_u32, write_u64, GgufError,
    GraftError, Header, MetaEntry, MetaError, Reader, TensorEntry, GGUF_ARRAY, GGUF_BOOL,
    GGUF_FLOAT64, GGUF_INT16, GGUF_STRING, GGUF_UINT32, GGUF_UINT64, GGUF_UINT8,
};
use llamactl::metadata::{
    architecture_and_block_count, can_estimate, estimate_plan, ggml_type_size, has_arg,
    read_gguf_metadata, read_meta_value, sizes_fit, skip_bytes, tensor_placement, tensor_sizes,
    Fault, GgufMetadata, MetaValue, TokenizerMetadata,
};
use llamactl::models::{
    canonical_stem, context_limit, delete, draft_compatibility, draft_tokenizer_compatibility,
    extension, file_name, file_stem, has_mtp, is_draft, leads_with, model_args, model_name,
    models_fingerprint, projector_name, resolve, sanitize_id, scan, serving_mode, shard_names, shard_names_with,
    wanted_query, weights_name, DeleteError, DraftCompatibility, Found, Model, ModelKind,
    Resolved, ResolveError,
};
use sha2::{Digest, Sha256};
use std::path::Path;

fn capture_bytes(vt: u32, input: &[u8]) -> Result<Vec<u8>, GgufError> {
    let mut reader = Reader::new(input);
    capture_value(&mut reader, vt)
}

#[test]
fn capture_value_round_trips_scalars() {
    let u32v = 42u32.to_le_bytes().to_vec();
    assert_eq!(capture_bytes(GGUF_UINT32, &u32v).unwrap(), u32v);

    let i16v = (-1234i16).to_le_bytes().to_vec();
    assert_eq!(capture_bytes(GGUF_INT16, &i16v).unwrap(), i16v);

    let f64v = 2.718281828459045f64.to_le_bytes().to_vec();
    assert_eq!(capture_bytes(GGUF_FLOAT64, &f64v).unwrap(), f64v);
}

#[test]
fn capture_value_round_trips_string() {
    let mut input = Vec::new();
    input.extend_from_slice(&3u64.to_le_bytes());
    input.extend_from_slice(b"abc");
    assert_eq!(capture_bytes(GGUF_STRING, &input).unwrap(), input);
}

#[test]
fn capture_value_round_trips_arrays() {
    let mut arr = Vec::new();
    arr.extend_from_slice(&GGUF_UINT32.to_le_bytes());
    arr.extend_from_slice(&3u64.to_le_bytes());
    for v in [1u32, 2, 3] {
        arr.extend_from_slice(&v.to_le_bytes());
    }
    assert_eq!(capture_bytes(GGUF_ARRAY, &arr).unwrap(), arr);

    let mut sarr = Vec::new();
    sarr.extend_from_slice(&GGUF_STRING.to_le_bytes());
    sarr.extend_from_slice(&2u64.to_le_bytes());
    for s in ["a", "bb"] {
        sarr.extend_from_slice(&(s.len() as u64).to_le_bytes());
        sarr.extend_from_slice(s.as_bytes());
    }
    assert_eq!(capture_bytes(GGUF_ARRAY, &sarr).unwrap(), sarr);
}

#[test]
fn capture_leaves_what_follows() {
    let mut input = vec![9u8];
    input.extend_from_slice(b"rest");
    let mut reader = Reader::new(&input);
    assert_eq!(capture_value(&mut reader, GGUF_UINT8).unwrap(), vec![9u8]);
    assert_eq!(reader.pos, 1);
    assert_eq!(read_exact_n(&mut reader, 4).unwrap(), b"rest".to_vec());
}

#[test]
fn capture_refuses_what_it_cannot_hold() {
    assert_eq!(capture_bytes(99, &[0; 8]), Err(GgufError::ScalarType(99)));
    assert_eq!(capture_bytes(GGUF_UINT64, &[0; 7]), Err(GgufError::Truncated));
    let mut long = Vec::new();
    write_u64(&mut long, 67_108_865);
    assert_eq!(capture_bytes(GGUF_STRING, &long), Err(GgufError::StringLength(67_108_865)));
    let mut many = Vec::new();
    write_u32(&mut many, GGUF_UINT8);
    write_u64(&mut many, 268_435_457);
    assert_eq!(capture_bytes(GGUF_ARRAY, &many), Err(GgufError::ArrayCount(268_435_457)));
}

#[test]
fn scalars_have_fixed_sizes() {
    assert_eq!(scalar_size(GGUF_UINT8), Ok(1));
    assert_eq!(scalar_size(GGUF_BOOL), Ok(1));
    assert_eq!(scalar_size(GGUF_INT16), Ok(2));
    assert_eq!(scalar_size(GGUF_UINT32), Ok(4));
    assert_eq!(scalar_size(GGUF_FLOAT64), Ok(8));
    assert_eq!(scalar_size(GGUF_STRING), Err(GgufError::ScalarType(8)));
}

#[test]
fn numbers_and_strings_read_back() {
    let mut w = Vec::new();
    write_u32(&mut w, 0x0102_0304);
    write_u64(&mut w, 0x0102_0304_0506_0708);
    write_string(&mut w, "général");
    assert_eq!(&w[..4], &[4, 3, 2, 1]);
    let mut r = Reader::new(&w);
    assert_eq!(read_u32(&mut r), Ok(0x0102_0304));
    assert_eq!(read_u64(&mut r), Ok(0x0102_0304_0506_0708));
    assert_eq!(read_string(&mut r), Ok("général".to_string()));
    assert_eq!(read_u32(&mut r), Err(GgufError::Truncated));
}

fn text_entry(key: &str, value: &str) -> MetaEntry {
    let mut raw = Vec::new();
    write_string(&mut raw, value);
    MetaEntry { key: key.into(), vtype: GGUF_STRING, raw }
}

fn number_entry(key: &str, value: u32) -> MetaEntry {
    MetaEntry { key: key.into(), vtype: GGUF_UINT32, raw: value.to_le_bytes().to_vec() }
}

fn tensor(name: &str, offset: u64) -> TensorEntry {
    TensorEntry { name: name.into(), dims: vec![4, 2], ggml_type: 0, offset }
}

fn file_bytes(meta: &[MetaEntry], tensors: &[TensorEntry]) -> Vec<u8> {
    let mut w = b"GGUF".to_vec();
    write_u32(&mut w, 3);
    write_u64(&mut w, tensors.len() as u64);
    write_u64(&mut w, meta.len() as u64);
    for m in meta {
        write_string(&mut w, &m.key);
        write_u32(&mut w, m.vtype);
        w.extend_from_slice(&m.raw);
    }
    for t in tensors {
        write_string(&mut w, &t.name);
        write_u32(&mut w, t.dims.len() as u32);
        for d in &t.dims {
            write_u64(&mut w, *d);
        }
        write_u32(&mut w, t.ggml_type);
        write_u64(&mut w, t.offset);
    }
    w
}

fn header(meta: &[MetaEntry], tensors: &[TensorEntry], data: u64) -> Header {
    let bytes = file_bytes(meta, tensors);
    let entries = parse_entries(&bytes).unwrap();
    assert!(can_place(&entries));
    let start = (bytes.len() as u64).div_ceil(32) * 32;
    place(entries, start + data)
}

fn target() -> Header {
    header(
        &[
            text_entry("general.architecture", "llama"),
            number_entry("llama.block_count", 2),
            text_entry("general.name", "target"),
        ],
        &[tensor("blk.0.attn_q.weight", 0), tensor("blk.1.attn_q.weight", 32)],
        64,
    )
}

fn donor() -> Header {
    header(
        &[
            text_entry("general.architecture", "llama"),
            number_entry("llama.block_count", 3),
            number_entry("llama.nextn_predict_layers", 1),
        ],
        &[
            tensor("blk.0.attn_q.weight", 0),
            tensor("blk.2.nextn.eh_proj.weight", 64),
            tensor("blk.2.attn_q.weight", 128),
        ],
        160,
    )
}

#[test]
fn headers_are_read_and_placed() {
    let bytes = file_bytes(&[number_entry("general.alignment", 64)], &[tensor("a", 0)]);
    let h = parse_header(&bytes, 10_000).unwrap();
    assert_eq!(h.alignment, 64);
    assert_eq!(h.data_start % 64, 0);
    assert!(h.data_start >= bytes.len() as u64 && h.data_start < bytes.len() as u64 + 64);
    assert_eq!(h.tensors.len(), 1);
    assert_eq!(h.tensors[0].name, "a");
    assert_eq!(h.tensors[0].dims, vec![4, 2]);
    assert_eq!(h.file_size, 10_000);
    assert!(matches!(parse_entries(b"GGU"), Err(GgufError::Truncated)));
    assert!(matches!(parse_entries(b"GGML0000"), Err(GgufError::Magic)));
    let mut old = b"GGUF".to_vec();
    write_u32(&mut old, 1);
    assert!(matches!(parse_entries(&old), Err(GgufError::Version(1))));
    let mut huge = b"GGUF".to_vec();
    write_u32(&mut huge, 3);
    write_u64(&mut huge, 1_048_577);
    write_u64(&mut huge, 1);
    assert!(matches!(parse_entries(&huge), Err(GgufError::Implausible(1_048_577, 1))));
    let flat = TensorEntry { name: "t".into(), dims: vec![1; 17], ggml_type: 0, offset: 0 };
    assert!(matches!(parse_entries(&file_bytes(&[], &[flat])), Err(GgufError::Dimensions(17))));
}

#[test]
fn keys_of_a_header_are_looked_up() {
    let h = target();
    assert_eq!(meta_string(&h, "general.architecture"), Ok("llama".to_string()));
    assert_eq!(meta_u64(&h, "llama.block_count"), Ok(2));
    assert_eq!(meta_u64(&h, "missing"), Err(MetaError::Missing));
    assert_eq!(meta_string(&h, "llama.block_count"), Err(MetaError::NotString));
    assert_eq!(meta_u64(&h, "general.name"), Err(MetaError::NotUnsigned));
}

#[test]
fn sizes_on_disk_reach_to_the_next_tensor() {
    let d = donor();
    assert!(is_ascending(&d));
    assert_eq!(on_disk_sizes(&d), vec![64, 64, 32]);
}

#[test]
fn a_graft_takes_the_block_of_the_donor() {
    let (t, d) = (target(), donor());
    let g = select_graft(&t, &d).ok().unwrap();
    assert_eq!(g.grafted_tensors, 2);
    assert_eq!(graft_total(&g), Some(32 + 32 + 64 + 32));
    let plan = graft_mtp(&t, &d).ok().unwrap();
    assert_eq!(plan.report.grafted_tensors, 2);
    assert_eq!(plan.report.total_tensors, 4);
    assert_eq!(plan.report.block_count, 3);
    assert_eq!(plan.report.nextn_layers, 1);
    assert_eq!(plan.report.output_bytes, 160);
    assert_eq!(plan.header, graft_header(&g, 32));
    assert_eq!(plan.header.len() % 32, 0);

    let again = parse_header(&plan.header, plan.header.len() as u64 + 160).unwrap();
    let names: Vec<&str> = again.tensors.iter().map(|x| x.name.as_str()).collect();
    assert_eq!(
        names,
        vec![
            "blk.0.attn_q.weight",
            "blk.1.attn_q.weight",
            "blk.2.nextn.eh_proj.weight",
            "blk.2.attn_q.weight",
        ]
    );
    let offsets: Vec<u64> = again.tensors.iter().map(|x| x.offset).collect();
    assert_eq!(offsets, vec![0, 32, 64, 128]);
    assert_eq!(again.data_start, plan.header.len() as u64);
    assert_eq!(meta_u64(&again, "llama.block_count"), Ok(3));
    assert_eq!(meta_u64(&again, "llama.nextn_predict_layers"), Ok(1));
    assert_eq!(meta_string(&again, "general.name"), Ok("target".to_string()));
    assert!(!plan.parts[0].from_donor);
    assert_eq!(plan.parts[0].start, t.data_start);
    assert!(plan.parts[2].from_donor);
    assert_eq!(plan.parts[2].start, d.data_start + 64);
    assert_eq!(plan.parts[3].size, 32);
}

#[test]
fn a_graft_is_refused_for_a_reason() {
    let arch = text_entry("general.architecture", "llama");
    let blocks = |n: u32| number_entry("llama.block_count", n);
    let nextn = |n: u32| number_entry("llama.nextn_predict_layers", n);
    let refused = |t: &Header, d: &Header| select_graft(t, d).err().unwrap();
    let bare = header(&[], &[], 0);
    assert_eq!(refused(&bare, &donor()), GraftError::TargetArchitecture(MetaError::Missing));
    assert_eq!(refused(&target(), &bare), GraftError::DonorArchitecture(MetaError::Missing));
    let other = header(&[text_entry("general.architecture", "qwen")], &[], 0);
    assert_eq!(refused(&target(), &other), GraftError::ArchitectureMismatch);
    let no_blocks = header(&[arch.copy()], &[], 0);
    assert_eq!(refused(&no_blocks, &donor()), GraftError::TargetBlocks(MetaError::Missing));
    assert_eq!(refused(&target(), &no_blocks), GraftError::DonorBlocks(MetaError::Missing));
    let plain = header(&[arch.copy(), blocks(3)], &[], 0);
    assert_eq!(refused(&target(), &plain), GraftError::DonorNextn(MetaError::Missing));
    let none = header(&[arch.copy(), blocks(3), nextn(0)], &[], 0);
    assert_eq!(refused(&target(), &none), GraftError::NoNextn);
    let empty = header(&[arch.copy(), blocks(3), nextn(1)], &[tensor("blk.0.x", 0)], 32);
    assert_eq!(refused(&target(), &empty), GraftError::NoTensors);
    let dull = header(&[arch.copy(), blocks(3), nextn(1)], &[tensor("blk.2.x", 0)], 32);
    assert_eq!(refused(&target(), &dull), GraftError::NotMtp);
    let full = header(&[arch.copy(), blocks(2)], &[tensor("blk.2.nextn.eh_proj.weight", 0)], 32);
    assert_eq!(refused(&full, &donor()), GraftError::Present(1));
    let said = |t: &Header, d: &Header| graft_text(&refused(t, d), t, d);
    assert_eq!(said(&bare, &donor()), "missing metadata key 'general.architecture'");
    assert_eq!(said(&target(), &other), "architecture mismatch: target is llama, donor is qwen");
    assert_eq!(said(&no_blocks, &donor()), "missing metadata key 'llama.block_count'");
    assert_eq!(said(&target(), &plain), "missing metadata key 'llama.nextn_predict_layers'");
    assert_eq!(said(&target(), &none), "donor declares no nextn_predict_layers");
    assert_eq!(
        said(&target(), &empty),
        "donor has no tensors with prefix 'blk.2.' (donor block_count 3, target 2)"
    );
    assert_eq!(
        said(&target(), &dull),
        "donor tensors with prefix 'blk.2.' are not an MTP block (no .nextn. tensors)"
    );
    assert_eq!(
        said(&full, &donor()),
        "target already contains tensor 'blk.2.nextn.eh_proj.weight'"
    );
}

#[test]
fn metadata_of_a_file() {
    let mut meta = vec![
        text_entry("general.architecture", "llama"),
        number_entry("llama.context_length", 8192),
        number_entry("llama.block_count", 2),
        number_entry("llama.embedding_length", 512),
        number_entry("llama.attention.head_count", 8),
        number_entry("llama.attention.head_count_kv", 4),
    ];
    let mut tokens = Vec::new();
    write_u32(&mut tokens, GGUF_STRING);
    write_u64(&mut tokens, 6);
    for token in ["a", "b", "", "c", "d", "e"] {
        write_string(&mut tokens, token);
    }
    meta.push(MetaEntry {
        key: "tokenizer.ggml.tokens".into(),
        vtype: GGUF_ARRAY,
        raw: tokens,
    });
    meta.push(number_entry("tokenizer.ggml.eos_token_id", 2));
    let bytes = file_bytes(
        &meta,
        &[tensor("blk.1.nextn.eh_proj.weight", 0), tensor("blk.1.nextn.enorm.weight", 32)],
    );
    let m = read_gguf_metadata(&bytes, true).unwrap_or_else(|_| panic!("unreadable"));
    assert_eq!(m.context_length, Some(8192));
    assert_eq!(m.block_count, Some(2));
    assert_eq!(m.kv_heads, vec![4]);
    assert_eq!(m.mtp_markers, vec!["eh_proj", "enorm"]);
    let vocabulary = m.tokenizer.as_ref().unwrap();
    assert_eq!(vocabulary.token_count, 6);
    assert_eq!(vocabulary.eos_token_id, Some(2));
    assert_eq!(vocabulary.bos_token_id, None);
    let counts: Vec<u64> = vocabulary.prefix_hashes.iter().map(|pair| pair.0).collect();
    assert_eq!(counts, vec![5, 6]);
    assert_eq!(vocabulary.prefix_hashes[0].1.len(), 64);
    assert_eq!(context_limit(Some(&m)), Some(8192));
    let plain = read_gguf_metadata(&bytes, false).unwrap_or_else(|_| panic!("unreadable"));
    assert!(plain.mtp_markers.is_empty());
    assert!(matches!(read_gguf_metadata(b"GGUF", false), Err(Fault::Truncated)));
    assert!(matches!(read_gguf_metadata(b"NOPE", false), Err(Fault::Malformed)));
    let shape = architecture_and_block_count(&bytes).unwrap_or_else(|_| panic!("unreadable"));
    assert_eq!(shape, ("llama".to_string(), Some(2)));
}

#[test]
fn the_digest_of_the_last_tokens_is_that_of_sha256() {
    let names = ["a", "b", "c", "d", "e", "f"];
    let mut tokens = Vec::new();
    write_u32(&mut tokens, GGUF_STRING);
    write_u64(&mut tokens, names.len() as u64);
    for token in names {
        write_string(&mut tokens, token);
    }
    let meta = vec![
        text_entry("general.architecture", "llama"),
        MetaEntry { key: "tokenizer.ggml.tokens".into(), vtype: GGUF_ARRAY, raw: tokens },
    ];
    let m = read_gguf_metadata(&file_bytes(&meta, &[]), false)
        .unwrap_or_else(|_| panic!("unreadable"));
    let vocabulary = m.tokenizer.unwrap();
    let mut hasher = Sha256::new();
    hasher.update(5u32.to_le_bytes());
    hasher.update(1u32.to_le_bytes());
    hasher.update(b"f");
    let digest: Vec<String> = hasher.finalize().iter().map(|b| format!("{b:02x}")).collect();
    assert_eq!(vocabulary.prefix_hashes.len(), 2);
    assert_eq!(vocabulary.prefix_hashes[1], (6, digest.concat()));
}

#[test]
fn metadata_values_are_read_by_their_type() {
    let mut raw = Vec::new();
    write_u32(&mut raw, 4);
    write_u64(&mut raw, 2);
    write_u32(&mut raw, 7);
    write_u32(&mut raw, 8);
    let mut r = Reader::new(&raw);
    match read_meta_value(&mut r, GGUF_ARRAY) {
        Ok(MetaValue::Numbers(list)) => assert_eq!(list, vec![7, 8]),
        _ => panic!("no numbers"),
    }
    assert_eq!(MetaValue::Number(3).boolean(), Some(true));
    assert_eq!(MetaValue::Number(0).boolean(), Some(false));
    assert_eq!(MetaValue::Text("x".into()).string(), Some("x"));
    assert_eq!(MetaValue::Number(3).numbers(), vec![3]);
    let mut r = Reader::new(&raw);
    assert!(skip_bytes(&mut r, raw.len() as u64).is_ok());
    assert!(skip_bytes(&mut r, 1).is_err());
}

#[test]
fn tensor_sizes_follow_the_block_sizes() {
    assert_eq!(ggml_type_size(8), Some((32, 34)));
    assert_eq!(ggml_type_size(36), None);
    let q8 = TensorEntry { name: "blk.3.ffn.weight".into(), dims: vec![64, 2], ggml_type: 8, offset: 0 };
    let odd = TensorEntry { name: "output.weight".into(), dims: vec![10], ggml_type: 99, offset: 0 };
    let sizes = tensor_sizes(&file_bytes(&[], &[q8, odd])).unwrap_or_else(|_| panic!("unreadable"));
    assert_eq!(
        sizes,
        vec![
            ("blk.3.ffn.weight".to_string(), Some(3), 136),
            ("output.weight".to_string(), None, 0),
        ]
    );
}

#[test]
fn tensors_are_placed_by_layer_expert_and_override() {
    let list = vec![
        ("token_embd.weight".to_string(), None, 10),
        ("blk.0.attn_q.weight".to_string(), Some(0), 100),
        ("blk.0.ffn_up_exps.weight".to_string(), Some(0), 1000),
        ("blk.1.attn_q.weight".to_string(), Some(1), 100),
    ];
    assert!(sizes_fit(&list));
    let p = tensor_placement(&list, 2, 3, 0, &vec![]).unwrap();
    assert_eq!((p.gpu, p.total), (1210, 1210));
    assert_eq!(p.layer_gpu, vec![true, true]);
    let p = tensor_placement(&list, 2, 1, 0, &vec![]).unwrap();
    assert_eq!(p.gpu, 1100);
    assert_eq!(p.layer_gpu, vec![true, false]);
    let p = tensor_placement(&list, 2, 3, 1, &vec![]).unwrap();
    assert_eq!(p.gpu, 210);
    let p = tensor_placement(&list, 2, 3, 0, &vec![("blk\\.1\\..*".to_string(), true)]).unwrap();
    assert_eq!(p.gpu, 1110);
    assert_eq!(p.layer_gpu, vec![true, false]);
    assert!(tensor_placement(&[], 2, 3, 0, &vec![]).is_none());
    assert!(tensor_placement(&list, 0, 3, 0, &vec![]).is_none());
}

fn metadata() -> GgufMetadata {
    GgufMetadata {
        context_length: Some(4096),
        block_count: Some(2),
        embedding_length: Some(64),
        attention_heads: Some(4),
        kv_heads: vec![2],
        key_length: vec![],
        value_length: vec![],
        sliding_window: Some(512),
        sliding_pattern: vec![1, 0],
        pooling_type: None,
        nextn_layers: None,
        mtp_markers: vec![],
        tokenizer: None,
    }
}

fn words(list: &[&str]) -> Vec<String> {
    list.iter().map(|s| s.to_string()).collect()
}

#[test]
fn an_estimate_is_planned_from_flags_and_metadata() {
    let m = metadata();
    assert!(can_estimate(Some(&m)));
    let plan = estimate_plan(
        Some(&m),
        &words(&[
            "-c", "2048", "-np", "2", "--no-kv-unified", "-ctk", "q8_0", "-ub", "256", "-ot",
            "exps=CPU,attn=gpu0", "-ncmoe", "all", "--no-flash-attn",
        ]),
    );
    assert_eq!(plan.ctx, 2048);
    assert_eq!(plan.layers, 2);
    assert_eq!(plan.ngl, 3);
    assert_eq!(plan.ncmoe, 2);
    assert_eq!(plan.overrides, vec![("exps".to_string(), true), ("attn".to_string(), false)]);
    assert_eq!((plan.key_sixteenths, plan.value_sixteenths), (17, 32));
    assert_eq!(plan.multiplier, 2);
    assert_eq!(plan.batch, 256);
    assert!(!plan.flash);
    assert_eq!(plan.caches.len(), 2);
    assert_eq!(
        (plan.caches[0].kv_heads, plan.caches[0].key, plan.caches[0].value, plan.caches[0].context),
        (2, 16, 16, 512)
    );
    assert_eq!(plan.caches[1].context, 2048);
    assert!(has_arg(&words(&["--kv-unified"]), "--kv-unified"));
    let bare = estimate_plan(None, &[]);
    assert_eq!((bare.ctx, bare.layers, bare.embedding, bare.heads), (4096, 1, 4096, 32));
    assert_eq!((bare.batch, bare.multiplier, bare.flash), (512, 1, true));
}

#[test]
fn split_shard_suffix_is_removed_from_id() {
    assert_eq!(
        sanitize_id(&canonical_stem("deepseek-v4-IQ2-00001-of-00003.gguf")),
        "deepseek-v4-iq2"
    );
}

#[test]
fn model_id_is_api_safe() {
    assert_eq!(
        sanitize_id("Publisher/Model Name (Q8)"),
        "publisher-model-name--q8-"
    );
}

#[test]
fn fingerprint_changes_when_a_model_changes() {
    let before = models_fingerprint(&[11]);
    assert_ne!(before, models_fingerprint(&[12]));
    assert_eq!(models_fingerprint(&[]), 0);
    assert_eq!(models_fingerprint(&[5]), 5 ^ 0x9e37_79b9_7f4a_7c15);
}

#[test]
fn fingerprints_do_not_depend_on_the_order() {
    assert_eq!(models_fingerprint(&[1, 2]), models_fingerprint(&[2, 1]));
    assert_eq!(
        models_fingerprint(&[u64::MAX, 7, 11]),
        models_fingerprint(&[11, u64::MAX, 7])
    );
    assert_ne!(models_fingerprint(&[1, 2]), models_fingerprint(&[1, 3]));
    assert_ne!(models_fingerprint(&[3]), models_fingerprint(&[1, 2]));
    assert_eq!(
        models_fingerprint(&[u64::MAX, 3]),
        2 ^ 2u64.wrapping_mul(0x9e37_79b9_7f4a_7c15)
    );
}

fn test_vocab(eos: u64, add_eos: bool) -> TokenizerMetadata {
    TokenizerMetadata {
        token_count: 10,
        prefix_hashes: vec![(10, "same-vocabulary".into())],
        bos_token_id: None,
        eos_token_id: Some(eos),
        add_bos_token: None,
        add_eos_token: Some(add_eos),
    }
}

#[test]
fn draft_allows_unused_eos_ids_to_differ() {
    let main = test_vocab(106, false);
    let draft = test_vocab(1, false);
    assert_eq!(
        draft_tokenizer_compatibility(&main, &draft),
        DraftCompatibility::Compatible
    );
}

#[test]
fn draft_rejects_different_eos_id_when_eos_is_added() {
    let main = test_vocab(106, true);
    let draft = test_vocab(1, true);
    assert!(matches!(
        draft_tokenizer_compatibility(&main, &draft),
        DraftCompatibility::Incompatible(reason) if reason.contains("EOS")
    ));
}

#[test]
fn draft_rejects_different_special_token_add_settings() {
    let main = test_vocab(1, true);
    let draft = test_vocab(1, false);
    assert!(matches!(
        draft_tokenizer_compatibility(&main, &draft),
        DraftCompatibility::Incompatible(reason) if reason.contains("EOS")
    ));
}

#[test]
fn drafts_need_vocabularies_that_agree() {
    let mut other = test_vocab(1, false);
    other.prefix_hashes = vec![(10, "another".into())];
    assert!(matches!(
        draft_tokenizer_compatibility(&test_vocab(1, false), &other),
        DraftCompatibility::Incompatible(_)
    ));
    let mut main = metadata();
    main.tokenizer = Some(test_vocab(1, false));
    let mut draft = metadata();
    assert!(matches!(
        draft_compatibility("/m/main.gguf", "/m/draft.gguf", Some(&main), Some(&draft)),
        DraftCompatibility::Unknown(_)
    ));
    draft.tokenizer = Some(test_vocab(2, false));
    assert_eq!(
        draft_compatibility("/m/main.gguf", "/m/draft.gguf", Some(&main), Some(&draft)),
        DraftCompatibility::Compatible
    );
}

/// The front of what is written to it.
struct Front {
    bytes: Vec<u8>,
    most: usize,
}

impl std::io::Write for Front {
    fn write(&mut self, data: &[u8]) -> std::io::Result<usize> {
        let room = self.most - self.bytes.len();
        if room == 0 {
            return Err(std::io::Error::other("full"));
        }
        let n = room.min(data.len());
        self.bytes.extend_from_slice(&data[..n]);
        Ok(n)
    }

    fn flush(&mut self) -> std::io::Result<()> {
        Ok(())
    }
}

/// The first bytes of a file, taken out of an archive that holds it.
fn front_of(path: &Path) -> Vec<u8> {
    let mut archive = tar::Builder::new(Front { bytes: Vec::new(), most: 64 << 20 });
    let _ = archive.append_path_with_name(path, "model.gguf");
    archive.get_ref().bytes[512..].to_vec()
}

#[test]
fn classifies_real_model_files() {
    let cases = [
        (
            "/home/popstarts/.lmstudio/models/HauhauCS/Gemma4-12B-QAT-Uncensored-HauhauCS-Balanced/mtp-gemma-4-12B-it.gguf",
            true,
            "gemma4-assistant draft",
        ),
        (
            "/home/popstarts/.lmstudio/models/HauhauCS/Gemma4-31B-QAT-Uncensored-HauhauCS-Balanced-MTP/mtp-gemma-4-31B-it.gguf",
            true,
            "gemma4-assistant draft",
        ),
        (
            "/home/popstarts/.lmstudio/models/HauhauCS/Gemma4-12B-QAT-Uncensored-HauhauCS-Balanced/Gemma4-12B-QAT-Uncensored-HauhauCS-Balanced-Q4_K_M.gguf",
            false,
            "main model",
        ),
        (
            "/home/popstarts/.lmstudio/models/AIOpsInSpace/Qwen3.6-27B-Uncensored-HauhauCS-Aggressive-MTP/Qwen3.6-27B-Uncensored-HauhauCS-Aggressive-MTP-Q8_K_P.gguf",
            false,
            "MTP-enabled main (must NOT be draft)",
        ),
        (
            "/home/popstarts/.lmstudio/models/morikomorizz/Qwen3.6-35B-A3B-Uncensored-HauhauCS-MTP/Qwen3.6-35B-A3B-Uncensored-HauhauCS-MTP-Q8_K_P.gguf",
            false,
            "MTP-enabled main (must NOT be draft)",
        ),
        (
            "/home/popstarts/.lmstudio/models/HauhauCS/Gemma4-31B-QAT-Uncensored-HauhauCS-Balanced-MTP/Gemma4-31B-QAT-Uncensored-HauhauCS-Balanced-Q4_K_M.gguf",
            false,
            "main model",
        ),
        (
            "/home/popstarts/.lmstudio/models/Blackfrost-Research/Muse-Glimmer-30B-Abliterated-GGUF/dflash-Muse-Glimmer-30B-Abliterated-F16.gguf",
            true,
            "dflash draft (dflash arch)",
        ),
        (
            "/home/popstarts/.lmstudio/models/Blackfrost-Research/Muse-Glimmer-30B-Abliterated-GGUF/dflash-Muse-Glimmer-30B-kquant.gguf",
            true,
            "dflash draft (dflash arch)",
        ),
        (
            "/home/popstarts/.lmstudio/models/Myric/Laguna-S-2.1-APEX-GGUF/laguna-s-2.1-DFlash-Q8_0.gguf",
            true,
            "laguna dflash draft (dflash arch)",
        ),
        (
            "/home/popstarts/.lmstudio/models/unsloth/DeepSeek-V4-Flash-0731-GGUF/dspark-DeepSeek-V4-Flash-0731-BF16.gguf",
            true,
            "dspark draft (dflash arch)",
        ),
        (
            "/home/popstarts/.lmstudio/models/Blackfrost-Research/Muse-Glimmer-30B-Abliterated-GGUF/Muse-Glimmer-30B-Abliterated-Q8_0.gguf",
            false,
            "muse main (muse-glimmer arch)",
        ),
        (
            "/home/popstarts/.lmstudio/models/Myric/Laguna-S-2.1-APEX-GGUF/Laguna-S-2.1-APEX-i-quality.gguf",
            false,
            "laguna main (laguna arch)",
        ),
    ];
    for (path, expected, label) in cases {
        let path = Path::new(path);
        if !path.is_file() {
            println!("SKIP (missing): {label} -> {path:?}");
            continue;
        }
        assert_eq!(
            is_draft(&front_of(path)),
            Ok(expected),
            "{label}: {path:?} misclassified"
        );
    }
}

#[test]
fn drafts_are_told_by_their_header() {
    let kind = |architecture: &str, blocks: u32, names: &[&str]| {
        let key = format!("{architecture}.block_count");
        let tensors: Vec<TensorEntry> = names.iter().map(|n| tensor(n, 0)).collect();
        is_draft(&file_bytes(
            &[text_entry("general.architecture", architecture), number_entry(&key, blocks)],
            &tensors,
        ))
    };
    assert_eq!(kind("gemma4-assistant", 4, &[]), Ok(true));
    assert_eq!(kind("dflash", 4, &[]), Ok(true));
    assert_eq!(kind("llama", 1, &["blk.0.nextn.hnorm.weight"]), Ok(true));
    assert_eq!(kind("llama", 1, &["blk.0.attn_q.weight"]), Ok(false));
    assert_eq!(kind("llama", 2, &["blk.1.nextn.hnorm.weight"]), Ok(false));
    assert_eq!(is_draft(b"nope"), Ok(false));
    assert_eq!(is_draft(b"GG"), Err(Fault::Truncated));
}

#[test]
fn names_of_files_are_taken_apart() {
    assert_eq!(file_name("/a/b.gguf").as_deref(), Some("b.gguf"));
    assert_eq!(file_name("/a/b/").as_deref(), Some("b"));
    assert_eq!(file_name("/"), None);
    assert_eq!(file_name("a/.."), None);
    assert_eq!(file_stem("b.tar.gz"), "b.tar");
    assert_eq!(file_stem(".hidden"), ".hidden");
    assert_eq!(extension("model.GGUF").as_deref(), Some("GGUF"));
    assert_eq!(extension(".hidden"), None);
    assert_eq!(
        shard_names("m-00002-of-00003.gguf"),
        words(&["m-00001-of-00003.gguf", "m-00002-of-00003.gguf", "m-00003-of-00003.gguf"])
    );
    assert_eq!(shard_names("m.gguf"), words(&["m.gguf"]));
    assert!(weights_name("m.gguf") && model_name("m.gguf"));
    assert!(!model_name("m-00002-of-00003.gguf"));
    assert!(model_name("m-00001-of-00003.gguf"));
    assert!(projector_name("mmproj-F16.gguf"));
    assert!(!model_name("mmproj-F16.gguf"));
    let second = Some(vec![vec![
        Some("-00002-of-00003.gguf".to_string()),
        Some("00002".to_string()),
        Some("00003".to_string()),
    ]]);
    assert_eq!(
        shard_names_with("m-00002-of-00003.gguf", &second),
        words(&["m-00001-of-00003.gguf", "m-00002-of-00003.gguf", "m-00003-of-00003.gguf"])
    );
    assert!(!leads_with(&second));
    assert!(leads_with(&Some(vec![])) && leads_with(&None));
}

fn found(path: &str, relative: &str, draft: bool) -> Found {
    Found { path: path.into(), relative: relative.into(), bytes: 60_000_000, vision: false, draft }
}

#[test]
fn a_library_has_distinct_ids() {
    let models = scan(&vec![
        found("/m/a/Model.gguf", "a/Model.gguf", false),
        found("/m/b/Model.gguf", "b/Model.gguf", false),
        found("/m/z-draft.gguf", "z-draft.gguf", true),
    ]);
    let ids: Vec<&str> = models.iter().map(|m| m.id.as_str()).collect();
    assert_eq!(models.len(), 3);
    for (i, id) in ids.iter().enumerate() {
        assert!(!ids[..i].contains(id), "{id} twice");
    }
    assert!(models.iter().any(|m| m.kind == ModelKind::Draft));
}

fn model(id: &str, relative: &str) -> Model {
    Model {
        id: id.into(),
        relative: relative.into(),
        path: format!("/m/{relative}"),
        bytes: 1,
        vision: false,
        kind: ModelKind::Main,
    }
}

#[test]
fn queries_are_resolved() {
    let models = vec![model("alpha", "a/Alpha.gguf"), model("alphabet", "b/Alphabet.gguf")];
    assert!(matches!(resolve(&models, "alpha", false), Ok(Resolved::Library(0))));
    assert!(matches!(resolve(&models, "abet", false), Ok(Resolved::Library(1))));
    assert!(matches!(
        resolve(&models, "alp", false),
        Err(ResolveError::Ambiguous(list)) if list == vec![0, 1]
    ));
    assert!(matches!(resolve(&models, "nothing", false), Err(ResolveError::Unmatched)));
    assert!(matches!(resolve(&models, "", false), Err(ResolveError::NoModel)));
    assert!(matches!(
        resolve(&models, "/x/y.gguf", true),
        Ok(Resolved::File(id)) if id == "y"
    ));
    assert_eq!(wanted_query(None, "standard"), "standard");
    assert_eq!(wanted_query(Some("other"), "standard"), "other");
}

#[test]
fn deleting_spares_pinned_models() {
    let models = vec![model("alpha", "a"), model("beta", "b")];
    assert_eq!(delete(&models, &vec![], "beta"), Ok(1));
    assert_eq!(delete(&models, &vec![], "gamma"), Err(DeleteError::Unknown));
    assert_eq!(delete(&models, &words(&["beta"]), "beta"), Err(DeleteError::Pinned));
}

#[test]
fn serving_follows_the_pooling() {
    let mut m = metadata();
    assert_eq!(serving_mode(Some(&m)), None);
    m.pooling_type = Some(4);
    assert_eq!(serving_mode(Some(&m)), Some("rerank"));
    m.pooling_type = Some(1);
    assert_eq!(serving_mode(Some(&m)), Some("embed"));
    assert_eq!(serving_mode(None), None);
    assert!(!has_mtp(Some(&m)));
    m.mtp_markers = words(&["eh_proj", "enorm", "hnorm"]);
    m.nextn_layers = Some(1);
    assert!(has_mtp(Some(&m)));
    assert_eq!(model_args("/m/a.gguf", None), words(&["-m", "/m/a.gguf"]));
    assert_eq!(
        model_args("/m/a.gguf", Some("/m/p.gguf")),
        words(&["-m", "/m/a.gguf", "--mmproj", "/m/p.gguf"])
    );
}
