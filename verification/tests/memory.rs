use logan_qwen4::colisource::{
    expert_desc, expert_matrices, expert_matrix, expert_matrix_at, expert_tile, holds_scales,
    is_expert_record, ExpertFault, i64_tensor, embedding_tensor, ple_layer, ple_ngram_row_f8,
    record_names, vec_payload, wt_payload, MatrixCodec, MatrixDesc, MatrixFault,
    NgramFault, RecordEntry, SlotExpert, TILE_FORMAT,
};
use logan_qwen4::model::{ple_ngram_scale, RecordFault, Records};
use logan_qwen4::ple::{
    causal_samples, ngram_rows, nth_prime_after, pad_rows, ple_layout, ple_multipliers, ple_splitmix64,
    push_history, push_ple_ring,
};

fn causal_conv1d_sample(current: f32, history: &[f32], weights: &[f32], dilation: usize) -> f32 {
    causal_samples(current, history, weights.len(), dilation)
        .iter()
        .zip(weights)
        .map(|(s, w)| s * w)
        .sum()
}

#[test]
fn ple_causal_conv_uses_standard_tap_order() {
    let history = [4.0_f32, 3.0, 2.0];
    let weights = [1.0_f32, 10.0, 100.0];
    assert_eq!(causal_conv1d_sample(5.0, &history, &weights, 1), 543.0);
}

#[test]
fn primes_are_counted_from_the_next_number_on() {
    assert_eq!(nth_prime_after(10, 1), Some(11));
    assert_eq!(nth_prime_after(10, 3), Some(17));
    assert_eq!(nth_prime_after(11, 1), Some(13));
    assert_eq!(nth_prime_after(0, 1), Some(2));
}

#[test]
fn heads_lie_one_behind_the_other() {
    let l = ple_layout(10, 3).unwrap();
    assert_eq!(l.sizes, vec![11, 13, 17]);
    assert_eq!(l.offsets, vec![0, 11, 24]);
    assert_eq!(l.total, 41);
    assert!(ple_layout(i64::MIN, 1).is_none());
    for (total, div) in [(41i64, 8i64), (40, 8), (41, 1), (41, -8), (2, -50)] {
        assert_eq!(pad_rows(total, div), (total + div - 1) / div * div);
    }
    assert_eq!(pad_rows(41, 8), 48);
}

#[test]
fn hashing_follows_the_reference_constants() {
    assert_eq!(ple_splitmix64(0), 0xe220_a839_7b1d_cdaf);
    let m = ple_multipliers(1000, 7, 2, 3);
    assert_eq!(m.len(), 3);
    assert!(m.iter().all(|x| x % 2 == 1));
}

#[test]
fn the_ring_holds_the_last_tokens_and_rows_stay_in_their_head() {
    let mut ring = vec![9i64; 3];
    push_ple_ring(&mut ring, 3, 4);
    push_ple_ring(&mut ring, 3, 5);
    assert_eq!(ring, vec![9, 4, 5]);
    push_ple_ring(&mut ring, 0, 6);
    assert_eq!(ring, vec![9, 4, 5]);
    let (sizes, offsets) = (vec![11i64, 13], vec![0i64, 11]);
    let rows = ngram_rows(&ring, 9, 3, 1, &vec![3, 5, 7], &sizes, &offsets);
    assert_eq!(rows.len(), 2);
    for (h, r) in rows.iter().enumerate() {
        assert!(*r >= offsets[h] as u64 && *r < (offsets[h] + sizes[h]) as u64);
    }
}

#[test]
fn a_history_remembers_the_newest_sample() {
    let mut state = vec![1, 2, 3, 7, 8, 9];
    push_history(&mut state, 3, 1, 5);
    assert_eq!(state, vec![1, 2, 3, 5, 7, 8]);
}

#[test]
fn payloads_of_another_length_are_refused() {
    assert_eq!(vec_payload(vec![1, 2, 3, 4], 2).unwrap(), vec![1, 2, 3, 4]);
    let fault = vec_payload(vec![1, 2], 2).err().unwrap();
    assert_eq!((fault.bytes, fault.expected), (2, 4));
    let w = wt_payload(vec![0; 12], 2, 3).unwrap();
    assert_eq!((w.o, w.i, w.bytes.len()), (2, 3, 12));
    assert!(wt_payload(vec![0; 11], 2, 3).is_err());
    assert_eq!(
        i64_tensor(&[1, 0, 0, 0, 0, 0, 0, 0, 0xff, 0xff, 0xff, 0xff, 0xff, 0xff, 0xff, 0xff]),
        Some(vec![1, -1])
    );
    assert_eq!(i64_tensor(&[1, 2]), None);
}

#[test]
fn the_scale_of_the_table_is_one_brain_float() {
    let name = "layers.3.ple.ple_embedding.ngram_embedding.weight_scale";
    let mut records = Records {
        entries: vec![],
        names: vec![],
    };
    let e = ple_ngram_scale(&records, 3).unwrap_err();
    assert_eq!((e.fault, e.name.as_str()), (RecordFault::Missing, name));
    records.entries.push((name.to_string(), vec![1]));
    assert_eq!(
        ple_ngram_scale(&records, 3).unwrap_err().fault,
        RecordFault::Length {
            bytes: 1,
            o: 1,
            i: 1
        }
    );
    let longer = format!("model.language_model.{name}");
    records.entries.push((longer, vec![0xc0, 0x3f]));
    assert_eq!(ple_ngram_scale(&records, 3).unwrap(), 1.5f32.to_bits());
    assert_eq!(
        embedding_tensor(-2, "layer_multipliers"),
        "layers.-2.ple.ple_embedding.layer_multipliers"
    );
}

#[test]
fn names_of_records_and_layers() {
    let (a, b) = record_names("layers.3.mlp.gate.weight");
    assert_eq!(a, "model.language_model.layers.3.mlp.gate.weight");
    assert_eq!(b, "layers.3.mlp.gate.weight");
    assert_eq!(ple_layer(&vec![None, Some("embed.weight".to_string())]), None);
    assert_eq!(
        ple_layer(&vec![Some("layers.5.ple.norm.weight".to_string())]),
        Some(5)
    );
}

#[test]
fn a_row_of_the_table_is_found_in_its_shard() {
    let entry = |kind: u32, layer: usize, rest: &str, decoded: u64| RecordEntry {
        kind,
        name: Some(format!(
            "layers.{layer}.ple.ple_embedding.ngram_embedding.{rest}"
        )),
        decoded,
    };
    let nameless = RecordEntry {
        kind: 1,
        name: None,
        decoded: 8,
    };
    let records = vec![
        nameless,
        entry(1, 3, "weight_scale", 2),
        entry(2, 3, "shard_0", 8),
        entry(1, 3, "shard_0", 40),
        entry(1, 13, "shard_0", 80),
        entry(1, 3, "shard_1", 24),
    ];
    let row = |r: u64| ple_ngram_row_f8(&records, 3, r, 8).map(|at| (at.record, at.offset, at.bytes));
    assert_eq!(row(0), Ok((3, 0, 8)));
    assert_eq!(row(4), Ok((3, 32, 8)));
    assert_eq!(row(5), Ok((5, 0, 8)));
    assert_eq!(row(9), Ok((5, 32, 8)));
    assert_eq!(row(10), Err(NgramFault::OutOfRange { shards: 2 }));
    assert_eq!(
        ple_ngram_row_f8(&records, 1, 0, 8),
        Err(NgramFault::NoShards)
    );
    assert_eq!(
        ple_ngram_row_f8(&records, 1, 0, 0),
        Err(NgramFault::NoShards)
    );
}

#[test]
fn a_resident_expert_is_seen_without_being_taken() {
    let mut e = SlotExpert {
        slot: 3,
        gate_bytes: 10,
        up_offset: 16,
        up_bytes: 10,
        down_offset: 32,
        down_bytes: 12,
        address: 77,
        pending: 5,
        unpacked: None,
        rows: [1, 2, 3],
        cols: [4, 5, 6],
    };
    let v = e.ref_view();
    assert_eq!((v.slot, v.up_offset, v.down_bytes, v.address), (3, 16, 12, 77));
    assert_eq!((v.rows, v.cols), ([1, 2, 3], [4, 5, 6]));
    assert_eq!(e.release(), Some(3));
    assert_eq!(e.release(), None);
}

fn put(raw: &mut Vec<u8>, at: usize, bytes: &[u8]) {
    raw[at..at + bytes.len()].copy_from_slice(bytes);
}

fn expert_bytes() -> Vec<u8> {
    let mut raw = vec![0u8; 64 + 3 * 88 + 24];
    put(&mut raw, 0, b"COLIEXPT");
    put(&mut raw, 28, &88u32.to_le_bytes());
    for i in 0..3usize {
        let d = 64 + i * 88;
        put(&mut raw, d, &(i as u16).to_le_bytes());
        put(&mut raw, d + 4, &0x20u16.to_le_bytes());
        put(&mut raw, d + 6, &4u16.to_le_bytes());
        put(&mut raw, d + 8, &(if i == 2 { 5u16 } else { 0 }).to_le_bytes());
        put(&mut raw, d + 16, &2u64.to_le_bytes());
        put(&mut raw, d + 24, &3u64.to_le_bytes());
        put(&mut raw, d + 48, &((64 + 3 * 88 + i * 8) as u64).to_le_bytes());
        put(&mut raw, d + 56, &6u64.to_le_bytes());
        put(&mut raw, d + 64, &6u64.to_le_bytes());
        put(&mut raw, d + 72, &((64 + 3 * 88 + i * 8 + 6) as u64).to_le_bytes());
        put(&mut raw, d + 80, &2u64.to_le_bytes());
    }
    for i in 0..24usize {
        raw[64 + 3 * 88 + i] = i as u8;
    }
    raw
}

#[test]
fn an_expert_is_described_matrix_by_matrix() {
    let raw = expert_bytes();
    assert!(is_expert_record(&raw));
    let m = expert_matrices(&raw, (1, 2), 5).unwrap();
    let d = [m[0].0, m[1].0, m[2].0];
    assert_eq!((d[1].role, d[1].rows, d[1].cols), (1, 2, 3));
    assert_eq!(
        [m[0].1, m[1].1, m[2].1],
        [MatrixCodec::Tiles, MatrixCodec::Tiles, MatrixCodec::PackedTiles]
    );
    assert_eq!(expert_desc(&raw, 2), Some(d[2]));
    assert_eq!(expert_matrix(&d[2], (0x20, 4), 5), Ok(MatrixCodec::Int4));
    let short = MatrixDesc { w_decoded: 7, ..d[0] };
    assert_eq!(expert_matrix(&short, (1, 2), 5), Err(MatrixFault::TileSize));
    let brain = MatrixDesc { math: 3, scale: 0, ..d[0] };
    assert_eq!(expert_matrix(&brain, (1, 2), 5), Ok(MatrixCodec::Brain));
    let other = MatrixDesc { math: 9, scale: 9, ..d[0] };
    assert_eq!(
        expert_matrix(&other, (1, 2), 5),
        Err(MatrixFault::Unsupported { math: 9, scale: 9 })
    );
    assert!(holds_scales(&d[1], raw.len()) && !holds_scales(&d[2], raw.len() - 1));
    let tile = expert_tile(&raw, &d[1], 5, None).unwrap();
    assert_eq!(tile.tiles, vec![8, 9, 10, 11, 12, 13]);
    assert_eq!(tile.scales, vec![14, 15]);
    assert_eq!((tile.rows, tile.cols, tile.fmt), (2, 3, TILE_FORMAT));
    let tile = expert_tile(&raw, &d[2], 5, Some(vec![1, 1])).unwrap();
    assert_eq!(tile.tiles, vec![1, 1]);
    assert!(expert_tile(&raw, &other, 5, None).is_err());
}

#[test]
fn scales_are_asked_for_only_where_they_are_read() {
    // Brain floats of no size, with scales named far behind the end of the record.
    let mut raw = vec![0u8; 64 + 3 * 88];
    put(&mut raw, 0, b"COLIEXPT");
    put(&mut raw, 28, &88u32.to_le_bytes());
    for i in 0..3usize {
        let d = 64 + i * 88;
        put(&mut raw, d + 4, &3u16.to_le_bytes());
        put(&mut raw, d + 72, &4096u64.to_le_bytes());
        put(&mut raw, d + 80, &16u64.to_le_bytes());
    }
    assert_eq!(raw.len(), 328);
    let m = expert_matrices(&raw, (1, 2), 5).unwrap();
    assert!(m.iter().all(|x| x.1 == MatrixCodec::Brain));
    // A matrix of 4-bit groups in the same record lacks its scales.
    put(&mut raw, 64 + 88 + 4, &1u16.to_le_bytes());
    put(&mut raw, 64 + 88 + 6, &2u16.to_le_bytes());
    assert_eq!(
        expert_matrices(&raw, (1, 2), 5).map(|_| ()),
        Err(ExpertFault::Outside { matrix: 1 })
    );
}

#[test]
fn the_first_matrix_that_cannot_be_loaded_is_named() {
    let mut raw = expert_bytes();
    put(&mut raw, 64 + 4, &9u16.to_le_bytes());
    // The weights of the last matrix lie outside as well: the first matrix is still the one named.
    put(&mut raw, 64 + 2 * 88 + 48, &4096u64.to_le_bytes());
    assert_eq!(
        expert_matrices(&raw, (1, 2), 5).map(|_| ()),
        Err(ExpertFault::Matrix {
            matrix: 0,
            fault: MatrixFault::Unsupported { math: 9, scale: 4 }
        })
    );
    put(&mut raw, 64 + 4, &0x20u16.to_le_bytes());
    assert_eq!(
        expert_matrices(&raw, (1, 2), 5).map(|_| ()),
        Err(ExpertFault::Outside { matrix: 2 })
    );
    assert_eq!(expert_matrix_at(&raw, 1, (1, 2), 5).map(|m| m.1), Ok(MatrixCodec::Tiles));
}

#[test]
fn a_record_that_is_no_expert_is_refused() {
    let raw = expert_bytes();
    assert_eq!(
        expert_matrices(&raw[..64 + 3 * 88 - 1], (1, 2), 5).map(|_| ()),
        Err(ExpertFault::Outside { matrix: 0 })
    );
    let mut other = raw.clone();
    other[0] = 0;
    assert_eq!(expert_matrices(&other, (1, 2), 5).map(|_| ()), Err(ExpertFault::NotAnExpert));
    assert_eq!(expert_matrices(&[0; 8], (1, 2), 5).map(|_| ()), Err(ExpertFault::NotAnExpert));
}
