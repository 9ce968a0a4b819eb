use logan_qwen4::config::{cfg_numbers, cfg_of, load_cfg, Cfg, CfgFault, CfgFloats, Number, OutputGate};
use logan_qwen4::json::{read_json, Json};
use logan_qwen4::model::{cdim_total, memory_fits, ple_metadata, records_fit, slots_of_layer, Layer, Model, RecordFault, Records, Slot};
use logan_qwen4::safetensors::{
    header_end, is_ple_ngram_weight, StError, StFault, StFile, MAX_RESIDENT_PLE_NGRAM_BYTES,
};
use logan_qwen4::settings::Settings;
use logan_qwen4::weights::WtBytes;

const FLOATS: CfgFloats = CfgFloats {
    theta: 0x4b18_9680,
    eps: 0x3586_37bd,
    rotary_dim: 2,
};

fn document() -> String {
    concat_parts(&[
        "{\"text_config\": {\"hidden_size\": 4, \"num_hidden_layers\": 2,",
        "\"num_attention_heads\": 2, \"num_key_value_heads\": 1, \"head_dim\": 4,",
        "\"num_experts\": 2, \"num_experts_per_tok\": 1, \"moe_intermediate_size\": 3,",
        "\"shared_expert_intermediate_size\": 2, \"linear_num_key_heads\": 1,",
        "\"linear_key_head_dim\": 2, \"linear_num_value_heads\": 2,",
        "\"linear_value_head_dim\": 2, \"linear_conv_kernel_dim\": 3,",
        "\"max_position_embeddings\": 64, \"vocab_size\": 8, \"hc_count\": 2,",
        "\"hc_lowrank\": 1, \"output_gate_type\": \"sigmoid\", \"eos_token_id\": 7,",
        "\"rms_norm_eps\": 0.000001, \"rope_theta\": 10000,",
        "\"layer_types\": [\"linear_attention\", \"full_attention\"]}}",
    ])
}

fn concat_parts(parts: &[&str]) -> String {
    let mut s = String::new();
    for p in parts {
        s.push_str(p);
    }
    s
}

fn config() -> Cfg {
    load_cfg(document().as_bytes(), &Settings::empty(), FLOATS).unwrap()
}

fn tensor_file(tensors: &[(String, Vec<u64>, u32)]) -> Vec<u8> {
    let mut header = String::from("{\"__metadata__\": {\"format\": \"pt\"}");
    let mut data = Vec::new();
    for (name, shape, fill) in tensors {
        let n: u64 = shape.iter().product();
        let begin = data.len();
        for _ in 0..n {
            data.extend_from_slice(&fill.to_le_bytes());
        }
        let dims: Vec<String> = shape.iter().map(|d| d.to_string()).collect();
        header.push_str(&format!(
            ", \"{name}\": {{\"dtype\": \"F32\", \"shape\": [{}], \"data_offsets\": [{begin}, {}]}}",
            dims.join(", "),
            data.len()
        ));
    }
    header.push('}');
    let mut file = (header.len() as u64).to_le_bytes().to_vec();
    file.extend_from_slice(header.as_bytes());
    file.extend_from_slice(&data);
    file
}

fn open_file(file: &[u8]) -> Result<StFile, StError> {
    let end = header_end(file).map_or(file.len(), |n| (n as usize).min(file.len()));
    StFile::open(&file[..end], file.len())
}

fn read_slots(st: &mut StFile, file: &[u8], slots: &[Slot]) {
    for slot in slots {
        let (name, shape) = match slot {
            Slot::Absent => continue,
            Slot::Vector { name, n } => (name, vec![*n as u64]),
            Slot::Matrix { name, o, i } => (name, vec![*o as u64, *i as u64]),
        };
        if let Ok((offset, len)) = st.range(name, &shape) {
            st.put(name, file[offset..offset + len].to_vec());
        }
    }
}

#[test]
fn a_model_loads_once_every_tensor_has_its_shape() {
    let mut tensors: Vec<(String, Vec<u64>, u32)> = Vec::new();
    let mut loaded = None;
    for round in 0..500u32 {
        let bytes = tensor_file(&tensors);
        let mut st = open_file(&bytes).unwrap();
        read_slots(&mut st, &bytes, &Model::needs(&config()));
        match Model::load(&st, config()) {
            Ok(m) => {
                loaded = Some(m);
                break;
            }
            Err(e) => match e.fault {
                StFault::NoTensor => tensors.push((e.tensor.clone(), vec![1, 1, 1, 1], round)),
                StFault::Mismatch { ref expect, .. } => {
                    let t = tensors.iter_mut().find(|t| t.0 == e.tensor).unwrap();
                    t.1 = expect.clone();
                }
                other => panic!("{other:?}"),
            },
        }
    }
    let m = loaded.expect("a model");
    assert_eq!(m.layers.len(), 2);
    assert!(m.layers[0].is_gdn && !m.layers[1].is_gdn);
    assert_eq!(m.experts.len(), 2);
    assert_eq!(m.experts[1].len(), 2);
    assert_eq!(m.experts[0][0].gate.f.len(), 3 * 4);
    assert_eq!(m.experts[0][0].up.o, 3);
    assert_eq!((m.embed.o, m.embed.i), (8, 4));
    assert_eq!(m.layers[0].gdn_in_qkv.o, cdim_total(&m.cfg));
    assert_eq!(m.layers[1].attn_q.o, 2 * 2 * 4);
    assert!(m.layers[1].gdn_norm.is_empty());
    let want = tensors
        .iter()
        .find(|t| t.0 == "model.embed_tokens.weight")
        .unwrap();
    assert!(m.embed.f.iter().all(|&b| b == want.2));
}

#[test]
fn a_package_loads_once_every_record_has_its_length() {
    let mut records = Records {
        entries: vec![],
        names: vec![],
    };
    let mut loaded = None;
    for _ in 0..500 {
        match Model::load_coli(&records, config()) {
            Ok(m) => {
                loaded = Some(m);
                break;
            }
            Err(e) => match e.fault {
                RecordFault::Missing => records.entries.push((e.name.clone(), vec![])),
                RecordFault::Length { o, i, .. } => {
                    let r = records.entries.iter_mut().find(|r| r.0 == e.name).unwrap();
                    r.1 = vec![0x3f; o * i * 2];
                }
                other => panic!("{other:?}"),
            },
        }
    }
    let m = loaded.expect("a model");
    assert!(m.experts.is_empty() || m.experts.iter().all(|l| l.is_empty()));
    assert!(matches!(m.embed.bytes, Some(WtBytes::Bf16 { .. })));
    assert_eq!(m.layers[0].gdn_a_log, vec![0x3f3f_0000; 2]);
    assert_eq!(m.cfg.ple_layer, -1);
}

fn config_with_memory() -> Cfg {
    let more = concat_parts(&[
        "\"ple_layer_ids\": [1], \"ngram_size\": 3, \"heads_per_ngram\": 2, \"seed\": 5,",
        "\"ple_embed_dim\": 8, \"ple_conv_kernel_size\": 2, \"ngram_vocab_size_base\": 10,",
        "\"make_ngram_vocab_size_divisible_by\": 8, \"layer_types\"",
    ]);
    let text = document().replace("\"layer_types\"", &more);
    load_cfg(text.as_bytes(), &Settings::empty(), FLOATS).unwrap()
}

#[test]
fn the_table_of_a_file_has_a_row_for_every_remainder() {
    let c = config_with_memory();
    assert!(memory_fits(&c));
    let mut tensors: Vec<(String, Vec<u64>, u32)> = Vec::new();
    let mut loaded = None;
    for round in 0..500u32 {
        let bytes = tensor_file(&tensors);
        let mut st = open_file(&bytes).unwrap();
        read_slots(&mut st, &bytes, &Model::needs(&c));
        match Model::load(&st, config_with_memory()) {
            Ok(m) => {
                loaded = Some(m);
                break;
            }
            Err(e) => match e.fault {
                StFault::NoTensor => tensors.push((e.tensor.clone(), vec![1, 1, 1, 1], round)),
                StFault::Mismatch { ref expect, .. } => {
                    let t = tensors.iter_mut().find(|t| t.0 == e.tensor).unwrap();
                    t.1 = expect.clone();
                }
                other => panic!("{other:?}"),
            },
        }
    }
    // A tensor that no model needs is listed and never read.
    tensors.push(("spare".to_string(), vec![3], 1));
    let bytes = tensor_file(&tensors);
    let mut st = open_file(&bytes).unwrap();
    read_slots(&mut st, &bytes, &Model::needs(&c));
    assert_eq!(st.parts.iter().filter(|p| p.is_none()).count(), 1);
    assert!(Model::load(&st, config_with_memory()).is_ok());
    let m = loaded.expect("a model");
    assert_eq!(m.ple_sizes, vec![11, 13, 17, 19]);
    assert_eq!(m.ple_offsets, vec![0, 11, 24, 41]);
    assert_eq!((m.ple_ngram.o, m.ple_ngram.i), (64, 2));
    assert_eq!(m.ple_mult.len(), 3);
}

#[test]
fn a_package_names_its_memory_and_its_table() {
    let mut records = Records {
        entries: vec![],
        names: vec![None, Some("layers.0.ple.key_proj.weight".to_string())],
    };
    assert!(records_fit(&records, &config_with_memory()));
    let mut loaded = None;
    for _ in 0..500 {
        match Model::load_coli(&records, config_with_memory()) {
            Ok(m) => {
                loaded = Some(m);
                break;
            }
            Err(e) => match e.fault {
                RecordFault::Missing => {
                    let bytes = match e.name.as_str() {
                        "layers.0.ple.ple_embedding.ngram_heads_offsets" => {
                            7i64.to_le_bytes().to_vec()
                        }
                        "layers.0.ple.ple_embedding.layer_multipliers" => vec![1; 7],
                        _ => vec![],
                    };
                    records.entries.push((e.name.clone(), bytes));
                }
                RecordFault::Length { o, i, .. } => {
                    let r = records.entries.iter_mut().find(|r| r.0 == e.name).unwrap();
                    r.1 = vec![0x3f; o * i * 2];
                }
                RecordFault::NotAligned { bytes } => {
                    assert_eq!(bytes, 7);
                    let r = records.entries.iter_mut().find(|r| r.0 == e.name).unwrap();
                    r.1 = (-1i64).to_le_bytes().to_vec();
                }
            },
        }
    }
    let m = loaded.expect("a model");
    assert_eq!(m.cfg.ple_layer, 0);
    assert_eq!(m.ple_sizes, vec![11, 13, 17, 19]);
    assert_eq!(m.ple_offsets, vec![7, 0, 11, 24, 41]);
    assert_eq!(m.ple_mult, vec![u64::MAX]);
    assert_eq!((m.ple_key_proj.o, m.ple_key_proj.i), (8, 8));
}

#[test]
fn a_layer_has_the_tensors_of_its_kind() {
    let c = config();
    let slots = slots_of_layer(&c, "layers.", 1);
    assert_eq!(slots.len(), 32);
    assert!(matches!(slots[1], Slot::Absent));
    match &slots[10] {
        Slot::Matrix { name, o, i } => {
            assert_eq!(name, "layers.1.self_attn.q_proj.weight");
            assert_eq!((*o, *i), (16, 4));
        }
        _ => panic!("attention has queries"),
    }
    let empty = Layer::empty();
    assert!(!empty.is_gdn && empty.attn_q.o == 0 && empty.in_ln.is_empty());
    let none = Records {
        entries: vec![],
        names: vec![],
    };
    assert!(none.rec("x").is_none());
    assert!(memory_fits(&c) && records_fit(&none, &c));
    let e = ple_metadata(&none, 1).unwrap_err();
    assert_eq!(
        (e.fault, e.name.as_str()),
        (
            RecordFault::Missing,
            "layers.1.ple.ple_embedding.ngram_heads_vocab_sizes"
        )
    );
}

#[test]
fn giant_ple_ngram_safetensor_is_refused_without_reading_payload() {
    let name = "model.ple.ple_embedding.ngram_embedding.weight";
    let payload_len = MAX_RESIDENT_PLE_NGRAM_BYTES + 4;
    let elems = payload_len / 4;
    let header = format!(
        "{{\"{name}\":{{\"dtype\":\"F32\",\"shape\":[{elems}],\"data_offsets\":[0,{payload_len}]}}}}"
    );
    let mut file = (header.len() as u64).to_le_bytes().to_vec();
    file.extend_from_slice(header.as_bytes());
    let st = StFile::open(&file, file.len() + payload_len).unwrap();
    assert!(st.range(name, &vec![elems as u64]).is_err());
    let err = st.f32_bits(name, &vec![elems as u64]).unwrap_err().message();
    assert!(err.contains("refusing to materialize"), "{err}");
    assert!(is_ple_ngram_weight(name));
    assert!(!is_ple_ngram_weight("lm_head.weight"));
}

fn open_fault(header: &str, data: usize) -> StFault {
    let mut file = (header.len() as u64).to_le_bytes().to_vec();
    file.extend_from_slice(header.as_bytes());
    file.resize(file.len() + data, 0);
    let fault = open_file(&file).err().unwrap();
    assert!(!fault.message().is_empty());
    fault.fault
}

#[test]
fn every_fault_of_a_header_is_told_apart() {
    assert!(matches!(open_file(&[0; 4]).err().unwrap().fault, StFault::Short));
    let mut big = vec![0xff; 8];
    big.extend_from_slice(b"{}");
    assert!(matches!(
        open_file(&big).err().unwrap().fault,
        StFault::HeaderOverflow | StFault::HeaderPastEnd { .. }
    ));
    let mut past = 9u64.to_le_bytes().to_vec();
    past.extend_from_slice(b"{}");
    assert!(matches!(
        open_file(&past).err().unwrap().fault,
        StFault::HeaderPastEnd { start: 17, file: 10 }
    ));
    let mut cut = 9u64.to_le_bytes().to_vec();
    cut.extend_from_slice(b"{}");
    assert!(matches!(StFile::open(&cut, 100).err().unwrap().fault, StFault::Short));
    assert!(matches!(open_fault("{", 0), StFault::NotJson));
    assert!(matches!(open_fault("[]", 0), StFault::NotAnObject));
    assert!(matches!(open_fault("{\"a\":{}}", 0), StFault::MissingDtype));
    assert!(matches!(
        open_fault("{\"a\":{\"dtype\":\"F32\"}}", 0),
        StFault::MissingShape
    ));
    assert!(matches!(
        open_fault("{\"a\":{\"dtype\":\"F32\",\"shape\":[-1]}}", 0),
        StFault::InvalidShape
    ));
    assert!(matches!(
        open_fault("{\"a\":{\"dtype\":\"F32\",\"shape\":[1]}}", 0),
        StFault::MissingOffsets
    ));
    assert!(matches!(
        open_fault("{\"a\":{\"dtype\":\"F32\",\"shape\":[1],\"data_offsets\":[0]}}", 0),
        StFault::InvalidOffsets
    ));
    assert!(matches!(
        open_fault("{\"a\":{\"dtype\":\"F32\",\"shape\":[1],\"data_offsets\":[-1,4]}}", 0),
        StFault::InvalidStart
    ));
    assert!(matches!(
        open_fault("{\"a\":{\"dtype\":\"F32\",\"shape\":[1],\"data_offsets\":[0,-4]}}", 0),
        StFault::InvalidEnd
    ));
    assert!(matches!(
        open_fault("{\"a\":{\"dtype\":\"F32\",\"shape\":[1],\"data_offsets\":[0,4]}}", 3),
        StFault::OutsideTheFile
    ));
    assert!(matches!(
        open_fault("{\"a\":{\"dtype\":\"F16\",\"shape\":[1],\"data_offsets\":[0,4]}}", 4),
        StFault::NotSingle { .. }
    ));
}

#[test]
fn a_tensor_is_given_where_its_shape_is_as_expected() {
    let file = tensor_file(&[("a".to_string(), vec![2, 2], 5)]);
    let mut st = open_file(&file).unwrap();
    let (offset, len) = st.range("a", &vec![2, 2]).unwrap();
    assert_eq!((offset, len), (file.len() - 16, 16));
    assert!(matches!(
        st.f32_bits("a", &vec![2, 2]).err().unwrap().fault,
        StFault::NotRead
    ));
    st.put("a", vec![0; 15]);
    let cut = st.f32_bits("a", &vec![2, 2]).err().unwrap();
    assert_eq!(cut.message(), "a: failed to fill whole buffer");
    st.put("b", vec![0; 16]);
    st.put("a", file[offset..].to_vec());
    assert_eq!(st.f32_bits("a", &vec![2, 2]).unwrap(), vec![5; 4]);
    assert!(matches!(
        st.f32_bits("a", &vec![4, 2]).err().unwrap().fault,
        StFault::Mismatch { .. }
    ));
    assert!(matches!(
        st.f32_bits("b", &vec![1]).err().unwrap().fault,
        StFault::NoTensor
    ));
}

#[test]
fn a_configuration_says_what_its_document_says() {
    let c = config();
    assert_eq!((c.hidden, c.layers, c.heads, c.head_dim), (4, 2, 2, 4));
    assert_eq!(c.gdn_layers, vec![true, false]);
    assert_eq!(c.qsa_layers, vec![false, false]);
    assert_eq!(c.output_gate, OutputGate::Sigmoid);
    assert_eq!(c.output_gate.gdn_metal_code(), 1);
    assert_eq!(OutputGate::Silu.gdn_metal_code(), 0);
    assert_eq!((c.max_t, c.eos, c.ple_layer), (64, 7, -1));
    assert_eq!((c.theta, c.eps, c.rotary_dim), (FLOATS.theta, FLOATS.eps, 2));
    let short = Settings {
        entries: vec![("CTX".to_string(), "16".to_string())],
    };
    let c = load_cfg(document().as_bytes(), &short, FLOATS).unwrap();
    assert_eq!(c.max_t, 16);
    let n = cfg_numbers(&read_json(document().as_bytes()).unwrap());
    assert_eq!(n.flat_rope_theta, Some(Number::Whole(10000)));
    assert_eq!(n.rms_norm_eps, Some(Number::Double(0.000001f64.to_bits())));
    assert_eq!(n.rope_theta, None);
    assert_eq!(n.head_dim, 4);
}

#[test]
fn a_configuration_that_cannot_be_used_is_refused() {
    let none = Settings::empty();
    assert!(matches!(load_cfg(b"{", &none, FLOATS), Err(CfgFault::NotJson)));
    let gate = document().replace("sigmoid", "tanh");
    assert!(matches!(
        load_cfg(gate.as_bytes(), &none, FLOATS),
        Err(CfgFault::Gate { name }) if name == "tanh"
    ));
    let kinds = document().replace("\"num_hidden_layers\": 2", "\"num_hidden_layers\": 3");
    assert!(matches!(
        load_cfg(kinds.as_bytes(), &none, FLOATS),
        Err(CfgFault::LayerTypes { listed: 2, layers: 3 })
    ));
    let heads = document().replace(
        "\"hc_count\": 2",
        "\"hc_count\": 2, \"ngram_size\": 9999999999, \"heads_per_ngram\": 9999999999999",
    );
    assert!(matches!(
        load_cfg(heads.as_bytes(), &none, FLOATS),
        Err(CfgFault::NgramHeads)
    ));
    let flat = read_json(b"{\"hidden_act\": \"silu\"}").unwrap();
    assert!(matches!(OutputGate::from_config(&flat), Ok(OutputGate::Silu)));
    assert!(cfg_of(&flat, &none, FLOATS).is_ok());
}

#[test]
fn a_document_is_read_value_by_value() {
    let doc = read_json(
        "{\"n\": 18446744073709551615, \"i\": -5, \"d\": 1.5, \"s\": \"x\", \"a\": [1, 2], \"b\": true, \"z\": null}"
            .as_bytes(),
    )
    .unwrap();
    assert_eq!(doc.get_u64("n"), Some(u64::MAX));
    assert_eq!(doc.get_i64("n"), None);
    assert_eq!(doc.get_i64("i"), Some(-5));
    assert_eq!(doc.get_u64("i"), None);
    assert!(matches!(doc.get("d"), Some(Json::Double(d)) if *d == 1.5f64.to_bits()));
    assert_eq!(doc.get_str("s"), Some("x"));
    assert_eq!(doc.get_array("a").unwrap().len(), 2);
    assert_eq!(doc.get_array("a").unwrap()[1].as_u64(), Some(2));
    assert_eq!(doc.get_array("a").unwrap()[1].as_i64(), Some(2));
    assert!(matches!(doc.get("b"), Some(Json::Bool(true))));
    assert!(matches!(doc.get("z"), Some(Json::Null)));
    assert!(doc.get("q").is_none());
    assert!(doc.get("s").unwrap().as_array().is_none());
    assert!(doc.get("a").unwrap().as_str().is_none());
    assert!(read_json(b"nothing").is_none());
    assert!(read_json(b"").is_none());
}
