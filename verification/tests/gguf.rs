use logan_qwen4::ggml::{decode_row, dot_row, q4k_scale_min, GridScale, IqTables, RowFault, Term};
use logan_qwen4::gguf::{
    align_up, meta_u64, parse_gguf_file, scalar_width, GgmlType, GgufError, GgufFault,
    MetadataValue, ParsedGguf, GGUF_MAGIC,
};
use logan_qwen4::ggufsource::{slice, split_sibling_path, GgufSource, OpenFault, ReadFault, RowReadFault};
use logan_qwen4::floatbits::f16_to_f32;
use logan_qwen4::weights::{Wt, WtBytes, WtRow};

fn tables() -> IqTables {
    IqTables {
        iq2xxs: vec![0; 256],
        iq2xs: vec![0; 512],
        iq2s: vec![0; 1024],
        iq3xxs: vec![0; 256],
        iq3s: vec![0; 512],
        ksigns: vec![0; 128],
        kmask: vec![1, 2, 4, 8, 16, 32, 64, 128],
    }
}

fn parse_all(file: &[u8], shard: usize) -> Result<ParsedGguf, GgufError> {
    parse_gguf_file(file, file.len() as u64, shard)
}

fn half(bits: u16) -> f32 {
    f32::from_bits(f16_to_f32(bits))
}

fn value(t: &Term) -> f32 {
    match *t {
        Term::Bits(b) => f32::from_bits(b),
        Term::Scaled { d, q } => half(d) * q as f32,
        Term::Affine { d, m, scale, min, q } => {
            (half(d) * scale as f32) * q as f32 - half(m) * min as f32
        }
        Term::Grouped { d, scale, q } => (half(d) * scale as f32) * q as f32,
        Term::Grid { d, scale, s, g, negative } => {
            let f = match scale {
                GridScale::Quarter => (0.5 + s as f32) * 0.25,
                GridScale::Half => (0.5 + s as f32) * 0.5,
                GridScale::Odd => 1.0 + 2.0 * s as f32,
            };
            let v = (half(d) * f) * g as f32;
            if negative {
                -v
            } else {
                v
            }
        }
    }
}

fn push_string(out: &mut Vec<u8>, value: &str) {
    out.extend_from_slice(&(value.len() as u64).to_le_bytes());
    out.extend_from_slice(value.as_bytes());
}

#[test]
fn ggml_block_sizes_match_q4km_checkpoint_formats() {
    assert_eq!(GgmlType::Q4K.stored_bytes(256).unwrap(), 144);
    assert_eq!(GgmlType::Q5_0.stored_bytes(32).unwrap(), 22);
    assert_eq!(GgmlType::Q6K.stored_bytes(256).unwrap(), 210);
    assert_eq!(GgmlType::Q8_0.stored_bytes(32).unwrap(), 34);
    assert_eq!(GgmlType::Bf16.stored_bytes(7).unwrap(), 14);
    assert!(GgmlType::Q4K.stored_bytes(255).is_err());
}

fn deterministic_block(dtype: GgmlType, elements: usize, scale_bytes: usize) -> Vec<u8> {
    let bytes = dtype.stored_bytes(elements as u64).unwrap() as usize;
    let mut raw = (0..bytes)
        .map(|i| (((i * 73 + 19) ^ ((i * 11) >> 1)) & 0xff) as u8)
        .collect::<Vec<_>>();
    raw[0] = 0x00;
    raw[1] = 0x3c;
    if scale_bytes >= 4 {
        raw[2] = 0x00;
        raw[3] = 0x38;
    }
    raw
}

fn assert_reference_bits(
    dtype: GgmlType,
    elements: usize,
    scale_bytes: usize,
    expected: &[(usize, u32)],
) {
    let raw = deterministic_block(dtype, elements, scale_bytes);
    let decoded = decode_row(dtype, &raw, elements, &tables()).unwrap();
    for &(index, bits) in expected {
        assert_eq!(
            value(&decoded[index]).to_bits(),
            bits,
            "{} index {index}",
            dtype.name()
        );
    }
}

#[test]
fn mixed_iq_checkpoint_formats_match_upstream_reference_vectors() {
    assert_reference_bits(
        GgmlType::Q2_0,
        64,
        2,
        &[
            (0, 0x3f800000),
            (7, 0x40000000),
            (31, 0x3f800000),
            (63, 0x3f800000),
        ],
    );
    assert_reference_bits(
        GgmlType::Q5K,
        256,
        4,
        &[
            (0, 0x4457e000),
            (15, 0xc1dc0000),
            (128, 0x43aac000),
            (255, 0x41c00000),
        ],
    );
    assert_reference_bits(
        GgmlType::Iq4Nl,
        32,
        2,
        &[
            (0, 0x42b20000),
            (15, 0xc2d00000),
            (16, 0x41c80000),
            (31, 0x42180000),
        ],
    );
    assert_reference_bits(
        GgmlType::Iq4Xs,
        256,
        2,
        &[
            (0, 0xc1200000),
            (15, 0x42540000),
            (128, 0xc2a00000),
            (255, 0xc33e0000),
        ],
    );
}

fn split_fixture(shard_no: u64, include_arch: bool, tensor_name: &str, fill: u8) -> Vec<u8> {
    let mut bytes = Vec::new();
    bytes.extend_from_slice(&GGUF_MAGIC.to_le_bytes());
    bytes.extend_from_slice(&3_u32.to_le_bytes());
    bytes.extend_from_slice(&1_u64.to_le_bytes());
    let kv_count = if include_arch { 4_u64 } else { 2_u64 };
    bytes.extend_from_slice(&kv_count.to_le_bytes());
    if include_arch {
        push_string(&mut bytes, "general.architecture");
        bytes.extend_from_slice(&8_u32.to_le_bytes());
        push_string(&mut bytes, "qwen4exp");
    }
    push_string(&mut bytes, "split.no");
    bytes.extend_from_slice(&10_u32.to_le_bytes());
    bytes.extend_from_slice(&shard_no.to_le_bytes());
    push_string(&mut bytes, "split.count");
    bytes.extend_from_slice(&10_u32.to_le_bytes());
    bytes.extend_from_slice(&2_u64.to_le_bytes());
    if include_arch {
        push_string(&mut bytes, "split.tensors.count");
        bytes.extend_from_slice(&10_u32.to_le_bytes());
        bytes.extend_from_slice(&2_u64.to_le_bytes());
    }
    push_string(&mut bytes, tensor_name);
    bytes.extend_from_slice(&1_u32.to_le_bytes());
    bytes.extend_from_slice(&32_u64.to_le_bytes());
    bytes.extend_from_slice(&8_u32.to_le_bytes());
    bytes.extend_from_slice(&0_u64.to_le_bytes());
    while bytes.len() % 32 != 0 {
        bytes.push(0);
    }
    bytes.extend_from_slice(&[fill; 34]);
    bytes
}

fn tensor_bytes<'a>(src: &GgufSource, files: &'a [Vec<u8>], name: &str) -> &'a [u8] {
    let at = src.read_tensor(name).unwrap();
    slice(&files[at.shard], at.offset, at.bytes).unwrap()
}

#[test]
fn split_gguf_merges_tensors_and_reads_from_owning_shard() {
    let first = "model-00001-of-00002.gguf";
    assert_eq!(
        split_sibling_path(first, 1, 2).unwrap(),
        "model-00002-of-00002.gguf"
    );
    let files = [
        split_fixture(0, true, "first.weight", 0x11),
        split_fixture(1, false, "second.weight", 0x22),
    ];
    let mut src = GgufSource::open(parse_all(&files[0], 0).unwrap()).unwrap();
    assert_eq!(
        src.next_file(first).unwrap(),
        Some("model-00002-of-00002.gguf".to_string())
    );
    assert!(src.next_file("model.gguf").is_err());
    src.join(parse_all(&files[1], 1).unwrap()).unwrap();
    assert_eq!(src.next_file(first).unwrap(), None);
    src.check_complete().unwrap();
    let names: Vec<&str> = src.tensors().iter().map(|t| t.name.as_str()).collect();
    assert!(names.windows(2).all(|w| w[0] < w[1]));
    assert_eq!(src.shard_count(), 2);
    assert_eq!(src.tensors().len(), 2);
    assert_eq!(src.tensor("first.weight").unwrap().shard, 0);
    assert_eq!(src.tensor("second.weight").unwrap().shard, 1);
    assert_eq!(tensor_bytes(&src, &files, "first.weight"), vec![0x11; 34]);
    assert_eq!(tensor_bytes(&src, &files, "second.weight"), vec![0x22; 34]);
    let maps = vec![Some(files[0].clone()), Some(files[1].clone())];
    assert_eq!(src.mapped_tensor(&maps, "first.weight").unwrap(), &[0x11; 34]);
    assert_eq!(src.mapped_tensor(&maps, "second.weight").unwrap(), &[0x22; 34]);
    let wt = Wt {
        f: vec![],
        bytes: Some(WtBytes::Gguf {
            weights: src.mapped_tensor(&maps, "second.weight").unwrap().to_vec(),
            dtype: GgmlType::Q8_0,
        }),
        o: 1,
        i: 32,
    };
    let row = src.mapped_tensor(&maps, "second.weight").unwrap();
    let x = vec![1.0_f32; 32];
    let y: f32 = match wt.row(0, &tables()) {
        WtRow::Terms(terms) => terms
            .iter()
            .enumerate()
            .fold(0.0, |acc, (i, t)| acc + value(t) * x[i]),
        WtRow::Parts(_) => panic!("quantized rows have terms"),
    };
    let expected: f32 = dot_row(GgmlType::Q8_0, row, 32, &tables())
        .unwrap()
        .iter()
        .fold(0.0, |acc, (i, t)| acc + value(t) * x[*i]);
    assert_eq!(y.to_bits(), expected.to_bits());
}

fn single_fixture() -> (Vec<u8>, usize) {
    experts_fixture(1)
}

/// A file with one tensor of as many experts, each filled with its number.
fn experts_fixture(experts: u64) -> (Vec<u8>, usize) {
    let mut bytes = Vec::new();
    bytes.extend_from_slice(&GGUF_MAGIC.to_le_bytes());
    bytes.extend_from_slice(&3_u32.to_le_bytes());
    bytes.extend_from_slice(&1_u64.to_le_bytes());
    bytes.extend_from_slice(&3_u64.to_le_bytes());
    push_string(&mut bytes, "general.architecture");
    bytes.extend_from_slice(&8_u32.to_le_bytes());
    push_string(&mut bytes, "qwen4exp");
    push_string(&mut bytes, "general.alignment");
    bytes.extend_from_slice(&4_u32.to_le_bytes());
    bytes.extend_from_slice(&32_u32.to_le_bytes());
    push_string(&mut bytes, "tokenizer.ggml.tokens");
    bytes.extend_from_slice(&9_u32.to_le_bytes());
    bytes.extend_from_slice(&8_u32.to_le_bytes());
    bytes.extend_from_slice(&2_u64.to_le_bytes());
    push_string(&mut bytes, "a");
    push_string(&mut bytes, "bc");
    push_string(&mut bytes, "weight");
    bytes.extend_from_slice(&2_u32.to_le_bytes());
    bytes.extend_from_slice(&32_u64.to_le_bytes());
    bytes.extend_from_slice(&experts.to_le_bytes());
    bytes.extend_from_slice(&8_u32.to_le_bytes());
    bytes.extend_from_slice(&0_u64.to_le_bytes());
    while bytes.len() % 32 != 0 {
        bytes.push(0);
    }
    let data_start = bytes.len();
    for expert in 0..experts {
        bytes.extend_from_slice(&[expert as u8; 34]);
    }
    (bytes, data_start)
}

#[test]
fn parses_v3_tensor_offsets_without_materializing_tokenizer_arrays() {
    let (bytes, data_start) = single_fixture();
    let src = GgufSource::open(parse_all(&bytes, 0).unwrap()).unwrap();
    assert_eq!(src.data_start(), data_start as u64);
    assert_eq!(src.string("general.architecture"), Some("qwen4exp"));
    assert!(matches!(
        src.metadata("tokenizer.ggml.tokens"),
        Some(MetadataValue::IgnoredArray(2))
    ));
    let t = src.tensor("weight").unwrap();
    assert_eq!(t.dtype, GgmlType::Q8_0);
    assert_eq!(t.stored_bytes, 34);
    let at = src.read_tensor("weight").unwrap();
    assert_eq!(slice(&bytes, at.offset, at.bytes).unwrap().len(), 34);
}

#[test]
fn rows_ranges_and_experts_of_a_tensor_are_found() {
    let (bytes, data_start) = single_fixture();
    let src = GgufSource::open(parse_all(&bytes, 0).unwrap()).unwrap();
    assert_eq!(src.row_stored_bytes("weight").unwrap(), 34);
    let row = src.read_row("weight", 0).unwrap();
    assert_eq!((row.offset, row.bytes), (data_start as u64, 34));
    assert_eq!(
        src.read_row("weight", 1).err(),
        Some(ReadFault::Row { row: 1, rows: 1 })
    );
    assert_eq!(src.read_row("none", 0).err(), Some(ReadFault::Missing));
    let part = src.read_tensor_range("weight", 4, 10).unwrap();
    assert_eq!((part.offset, part.bytes), (data_start as u64 + 4, 10));
    assert_eq!(
        src.read_tensor_range("weight", 30, 10).err(),
        Some(ReadFault::Range {
            offset: 30,
            end: 40,
            stored: 34
        })
    );
    assert!(src.has_tensor("weight"));
    assert_eq!(src.alignment(), 32);
    assert_eq!(src.u64("general.alignment"), Some(32));
    assert_eq!(src.i64("general.alignment"), Some(32));
    assert!(src.u64_array("general.alignment").is_none());
    assert!(src.i64_array("general.alignment").is_none());
    assert!(slice(&bytes, bytes.len() as u64, 1).is_none());
    let expert = src.read_expert_slice("weight", 0).unwrap();
    assert_eq!((expert.offset, expert.bytes), (data_start as u64, 34));
    assert_eq!(
        src.read_expert_slice("weight", 1).err(),
        Some(ReadFault::Expert {
            expert: 1,
            experts: 1
        })
    );
    assert_eq!(
        src.read_expert_slice("none", 0).err(),
        Some(ReadFault::Missing)
    );
    let at = src.read_absolute(8, 3);
    assert_eq!((at.shard, at.offset, at.bytes), (0, 8, 3));
    assert!(matches!(
        src.float("general.alignment"),
        Some(MetadataValue::U64(32))
    ));
    assert!(src.float("general.architecture").is_none());
    let maps = vec![Some(bytes.clone())];
    assert_eq!(src.mapped_tensor(&maps, "weight").unwrap().len(), 34);
    assert!(src.mapped_tensor(&maps, "none").is_none());
    assert!(src.mapped_tensor(&vec![None], "weight").is_none());
    let files = vec![bytes];
    let terms = src.read_row_f32(&files, "weight", 0, &tables()).unwrap();
    assert_eq!(terms.len(), 32);
    assert!(terms.iter().all(|t| value(t) == 0.0));
    assert_eq!(
        src.read_row_f32(&files, "weight", 1, &tables()).err(),
        Some(RowReadFault::Read(ReadFault::Row { row: 1, rows: 1 }))
    );
    assert_eq!(
        src.read_row_f32(&vec![], "weight", 0, &tables()).err(),
        Some(RowReadFault::File(row))
    );
}

fn fault_of(bytes: &[u8]) -> GgufFault {
    parse_all(bytes, 0).err().unwrap().fault
}

#[test]
fn a_file_that_is_not_whole_is_refused() {
    let (bytes, data_start) = single_fixture();
    assert_eq!(fault_of(&bytes[..10]), GgufFault::Eof);
    let mut other = bytes.clone();
    other[0] = b'X';
    assert_eq!(fault_of(&other), GgufFault::NotGguf);
    let mut other = bytes.clone();
    other[4] = 9;
    assert_eq!(fault_of(&other), GgufFault::Version(9));
    let mut other = bytes.clone();
    other[15] = 0xff;
    assert_eq!(fault_of(&other), GgufFault::Counts);
    assert_eq!(fault_of(&bytes[..data_start + 33]), GgufFault::BeyondEnd);
}

#[test]
fn a_split_model_is_refused_unless_all_of_it_is_there() {
    let first = split_fixture(0, true, "first.weight", 1);
    let second = split_fixture(1, false, "second.weight", 2);
    let same = split_fixture(1, false, "first.weight", 2);
    let alone = GgufSource::open(parse_all(&first, 0).unwrap()).unwrap();
    assert!(matches!(
        alone.check_complete().err().map(|e| e.fault),
        Some(OpenFault::TensorCount {
            announced: 2,
            found: 1
        })
    ));
    assert!(matches!(
        GgufSource::open(parse_all(&second, 0).unwrap())
            .err()
            .map(|e| e.fault),
        Some(OpenFault::Architecture)
    ));
    let mut src = GgufSource::open(parse_all(&first, 0).unwrap()).unwrap();
    assert!(matches!(
        src.join(parse_all(&same, 1).unwrap())
            .err()
            .map(|e| e.fault),
        Some(OpenFault::Duplicate)
    ));
    let late = split_fixture(1, true, "late.weight", 3);
    assert!(matches!(
        GgufSource::open(parse_all(&late, 0).unwrap())
            .err()
            .map(|e| e.fault),
        Some(OpenFault::NotFirst(1))
    ));
    assert!(split_sibling_path("model.gguf", 1, 2).is_err());
}

#[test]
fn types_are_known_by_their_number_and_keep_it() {
    for id in 0..64u32 {
        match GgmlType::from_id(id) {
            Ok(t) => assert_eq!(t.id(), id),
            Err(f) => assert_eq!(f, GgufFault::TensorType(id)),
        }
    }
    assert_eq!(GgmlType::Q8_0.name(), "Q8_0");
    assert_eq!(GgmlType::Q4K.block_geometry(), (256, 144));
    assert!(GgmlType::F32.stored_bytes(u64::MAX).is_err());
}

#[test]
fn small_numbers_of_the_format() {
    assert_eq!(scalar_width(0), Some(1));
    assert_eq!(scalar_width(12), Some(8));
    assert_eq!(scalar_width(8), None);
    assert_eq!(align_up(33, 32).unwrap(), 64);
    assert_eq!(align_up(64, 32).unwrap(), 64);
    assert!(align_up(u64::MAX, 32).is_err());
    assert_eq!(meta_u64(&MetadataValue::U64(4)), Some(4));
    assert_eq!(meta_u64(&MetadataValue::I64(-4)), None);
    assert_eq!(meta_u64(&MetadataValue::Bool(true)), None);
    let q: Vec<u8> = (0..12).map(|i| (i * 17 + 3) as u8).collect();
    assert_eq!(q4k_scale_min(0, &q), (q[0] & 63, q[4] & 63));
    assert_eq!(
        q4k_scale_min(5, &q),
        ((q[9] & 15) | ((q[1] >> 6) << 4), (q[9] >> 4) | ((q[5] >> 6) << 4))
    );
}

#[test]
fn a_row_of_another_length_is_refused() {
    let row = vec![0u8; 33];
    assert!(decode_row(GgmlType::Q8_0, &row, 32, &tables()).is_err());
    assert!(matches!(
        decode_row(GgmlType::Q8_0, &row, 31, &tables()),
        Err(RowFault::Layout(_))
    ));
    assert!(dot_row(GgmlType::Q8_0, &row, 32, &tables()).is_err());
}

#[test]
fn plain_rows_hold_their_patterns() {
    let mut row = Vec::new();
    for v in [1.5f32, -2.0] {
        row.extend_from_slice(&v.to_bits().to_le_bytes());
    }
    let terms = decode_row(GgmlType::F32, &row, 2, &tables()).unwrap();
    assert_eq!(value(&terms[0]), 1.5);
    assert_eq!(value(&terms[1]), -2.0);
    let terms = decode_row(GgmlType::F16, &[0x00, 0x3c, 0x00, 0xc0], 2, &tables()).unwrap();
    assert_eq!(value(&terms[1]), -2.0);
    let terms = decode_row(GgmlType::Bf16, &[0x80, 0x3f], 1, &tables()).unwrap();
    assert_eq!(value(&terms[0]), 1.0);
    let dot = dot_row(GgmlType::Q4K, &deterministic_block(GgmlType::Q4K, 256, 4), 256, &tables())
        .unwrap();
    let mut seen: Vec<usize> = dot.iter().map(|d| d.0).collect();
    seen.sort_unstable();
    assert_eq!(seen, (0..256).collect::<Vec<_>>());
}

#[test]
fn a_header_is_read_without_the_rest_of_its_file() {
    let (bytes, data_start) = single_fixture();
    let whole = parse_all(&bytes, 0).unwrap();
    let head = parse_gguf_file(&bytes[..data_start], bytes.len() as u64, 0).unwrap();
    assert_eq!(head.data_start, whole.data_start);
    assert_eq!(head.tensors.len(), whole.tensors.len());
    assert_eq!(head.tensors[0].offset, whole.tensors[0].offset);
    assert!(matches!(
        parse_gguf_file(&bytes[..40], bytes.len() as u64, 0).err().unwrap().fault,
        GgufFault::Eof
    ));
    assert!(GgmlType::Iq3S.uses_grid() && !GgmlType::Q8_0.uses_grid());
}

#[test]
fn a_dot_product_meets_the_terms_of_the_decoded_row() {
    for dtype in [GgmlType::Q5_0, GgmlType::Q5K, GgmlType::Q6K, GgmlType::Iq4Xs, GgmlType::Q8_0] {
        let n = if dtype == GgmlType::Q5_0 || dtype == GgmlType::Q8_0 { 64 } else { 256 };
        let row = deterministic_block(dtype, n, 2);
        let decoded = decode_row(dtype, &row, n, &tables()).unwrap();
        let dot = dot_row(dtype, &row, n, &tables()).unwrap();
        for column in 0..n {
            let met: Vec<&Term> = dot.iter().filter(|d| d.0 == column).map(|d| &d.1).collect();
            assert_eq!(met, vec![&decoded[column]]);
        }
        let short = &row[1..];
        assert_eq!(
            decode_row(dtype, short, n, &tables()).err(),
            dot_row(dtype, short, n, &tables()).err()
        );
    }
}

#[test]
fn the_slices_of_all_experts_join_to_the_tensor() {
    let (bytes, _) = experts_fixture(3);
    let src = GgufSource::open(parse_all(&bytes, 0).unwrap()).unwrap();
    let files = [bytes];
    let mut joined = vec![];
    for expert in 0..3 {
        let at = src.read_expert_slice("weight", expert).unwrap();
        let held = slice(&files[at.shard], at.offset, at.bytes).unwrap();
        assert_eq!(held, vec![expert as u8; 34]);
        joined.extend_from_slice(held);
    }
    assert_eq!(tensor_bytes(&src, &files, "weight"), joined);
    assert_eq!(
        src.read_expert_slice("weight", 3).err(),
        Some(ReadFault::Expert { expert: 3, experts: 3 })
    );
}
