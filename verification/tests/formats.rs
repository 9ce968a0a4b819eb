use logan_qwen4::bytes::{copy_range, push_le, read_le};
use logan_qwen4::floatbits::{
    bf16_bytes, bf16_to_f32, e4m3_decode, f16_to_f32, f32_to_bf16, f32_to_f16_bits, number_key,
    order_key,
};
use logan_qwen4::fp8::{block_max, block_maxima, e4m3_positive, nearest_codes, nearest_e4m3};
use logan_qwen4::ggml::IqTables;
use logan_qwen4::gguf::GgmlType;
use logan_qwen4::mxfp4::{
    choose_scale_of_single, mxfp4_choose_scale, mxfp4_quantize_value, mxfp4_storage_fmt, pack_codes,
    quantize_bf16_to_mxfp4, quantize_bf16_to_mxfp4x2, quantize_bf16_to_mxfp4x3,
};
use logan_qwen4::settings::Settings;
use logan_qwen4::weights::{
    bf16_plan, device_format, full_formats, matmul_plan, multi_formats, q8_append_residual1,
    candidate_scales, mse_radius, other_scales, quantize_wt_bf16_to_mxfp4, quantize_wt_bf16_to_q8_block, count_layers, Packed, Part, Rule, Wt, WtBytes,
    WtRow,
};

fn set(list: &[(&str, &str)]) -> Settings {
    Settings {
        entries: list
            .iter()
            .map(|&(n, v)| (n.to_string(), v.to_string()))
            .collect(),
    }
}

fn brain(values: &[f32]) -> Vec<u8> {
    let mut out = Vec::new();
    for v in values {
        out.extend_from_slice(&((v.to_bits() >> 16) as u16).to_le_bytes());
    }
    out
}

#[test]
fn runtime_mxfp4_quantizer_matches_canonical_nibble_order() {
    let values = [
        0.0f32, 0.5, 1.0, 1.5, 2.0, 3.0, 4.0, 6.0, -0.0, -0.5, -1.0, -1.5, -2.0, -3.0, -4.0, -6.0,
    ];
    let mut bf16 = Vec::with_capacity(values.len() * 2);
    for value in values {
        bf16.extend_from_slice(&((value.to_bits() >> 16) as u16).to_le_bytes());
    }
    let (weights, scales) = quantize_bf16_to_mxfp4(&bf16, 1, values.len()).unwrap();
    assert_eq!(scales, vec![127]);
    assert_eq!(
        weights,
        vec![0x10, 0x32, 0x54, 0x76, 0x98, 0xba, 0xdc, 0xfe]
    );
}

#[test]
fn a_scale_is_the_least_that_holds_the_largest_weight() {
    let half = |v: f32| (v.to_bits() >> 16) as u16;
    assert_eq!(mxfp4_choose_scale(half(6.0)), 127);
    assert_eq!(mxfp4_choose_scale(half(7.0)), 128);
    assert_eq!(mxfp4_choose_scale(half(3.0)), 126);
    assert_eq!(choose_scale_of_single(6.0f32.to_bits()), 127);
    assert_eq!(choose_scale_of_single(6.000001f32.to_bits()), 128);
    assert_eq!(choose_scale_of_single(f32::MAX.to_bits()), 253);
    assert_eq!(choose_scale_of_single(f32::INFINITY.to_bits()), 254);
    assert_eq!(choose_scale_of_single(1), 1);
    assert_eq!(choose_scale_of_single(0), 127);
    assert_eq!(mxfp4_quantize_value(half(5.1), 127), 7);
    assert_eq!(mxfp4_quantize_value(half(-4.9), 127), 14);
    assert_eq!(mxfp4_quantize_value(half(0.2), 127), 0);
}

const MAGNITUDES: [f32; 8] = [0.0, 0.5, 1.0, 1.5, 2.0, 3.0, 4.0, 6.0];

fn nearest_magnitude(value: f32, scale: f32) -> u8 {
    let m = (value.abs() / scale).min(6.0);
    let (mut best, mut least) = (0u8, f32::INFINITY);
    for (code, c) in MAGNITUDES.iter().copied().enumerate() {
        let error = (m - c).abs();
        if error < least || (error == least && code & 1 == 0 && best & 1 != 0) {
            least = error;
            best = code as u8;
        }
    }
    best | if value.is_sign_negative() { 8 } else { 0 }
}

fn leftover(value: f32, code: u8, scale: f32) -> f32 {
    let m = MAGNITUDES[(code & 7) as usize];
    let kept = (if code & 8 != 0 { -m } else { m }) * scale;
    let bits = (value - kept).to_bits();
    let rounded = (bits + 0x7fff + ((bits >> 16) & 1)) >> 16;
    f32::from_bits(rounded << 16)
}

#[test]
fn codes_and_what_they_leave_agree_with_single_arithmetic() {
    let mut seed = 12345u32;
    for round in 0..40u32 {
        let mut values = vec![];
        for _ in 0..32 {
            seed = seed.wrapping_mul(1664525).wrapping_add(1013904223);
            let spread = 1 + round * 6;
            let exponent = (seed >> 8) % spread + (127u32).saturating_sub(spread / 2);
            let bits = (seed & 0x8000_0000) | (exponent << 23) | (seed & 0x7f_0000);
            values.push(f32::from_bits(bits));
        }
        let w = brain(&values);
        let (codes, scales) = quantize_bf16_to_mxfp4x2(&w, 1, 32).unwrap();
        for layer in 0..2 {
            let scale = f32::from_bits((scales[layer] as u32) << 23);
            for (col, v) in values.iter_mut().enumerate() {
                let byte = codes[layer * 16 + col / 2];
                let code = if col % 2 == 0 { byte & 15 } else { byte >> 4 };
                assert_eq!(code, nearest_magnitude(*v, scale), "{v} {scale}");
                *v = leftover(*v, code, scale);
            }
        }
    }
}

#[test]
fn residuals_of_exact_weights_are_nothing() {
    let w = brain(&[0.5, -1.0, 6.0, 3.0]);
    let (q, s) = quantize_bf16_to_mxfp4(&w, 1, 4).unwrap();
    let (q2, s2) = quantize_bf16_to_mxfp4x2(&w, 1, 4).unwrap();
    assert_eq!((&q2[..2], s2[0]), (&q[..], s[0]));
    assert!(q2[2..].iter().all(|b| b & 0x77 == 0));
    let w = brain(&[5.0, 1.25, -0.3, 0.1]);
    let (q1, s1) = quantize_bf16_to_mxfp4(&w, 1, 4).unwrap();
    let (q2, s2) = quantize_bf16_to_mxfp4x2(&w, 1, 4).unwrap();
    let (q3, s3) = quantize_bf16_to_mxfp4x3(&w, 1, 4).unwrap();
    assert_eq!((q2.len(), s2.len()), (2 * q1.len(), 2 * s1.len()));
    assert_eq!((q3.len(), s3.len()), (3 * q1.len(), 3 * s1.len()));
    assert_eq!(q2[..q1.len()], q1[..]);
    assert_eq!(q3[..q2.len()], q2[..]);
    assert_eq!(pack_codes(&w, 1, 4, &s1), q1);
}

#[test]
fn a_matrix_of_another_size_is_not_quantized() {
    assert!(quantize_bf16_to_mxfp4(&[0; 6], 1, 4).is_none());
    assert!(quantize_bf16_to_mxfp4x2(&[0; 6], 1, 4).is_none());
    assert!(quantize_bf16_to_mxfp4x3(&[0; 6], 1, 4).is_none());
    let one = mxfp4_storage_fmt(&[0; 32], &[0; 2], 1, 64);
    let two = mxfp4_storage_fmt(&[0; 64], &[0; 4], 1, 64);
    let three = mxfp4_storage_fmt(&[0; 96], &[0; 6], 1, 64);
    assert!(one != two && two != three && one != three);
}

#[test]
fn halves_round_to_even_and_widen_exactly() {
    let one = 1.0f32;
    let tie_even = f32::from_bits(one.to_bits() + 0x1000);
    let tie_odd = f32::from_bits(one.to_bits() + 0x3000);
    assert_eq!(f32_to_f16_bits(tie_even.to_bits()), 0x3c00);
    assert_eq!(f32_to_f16_bits(tie_odd.to_bits()), 0x3c02);
    assert_eq!(f32_to_f16_bits(65520.0f32.to_bits()), 0x7c00);
    assert_eq!(f32_to_f16_bits(f32::INFINITY.to_bits()), 0x7c00);
    assert_eq!(f32_to_f16_bits(2.0f32.powi(-24).to_bits()), 1);
    assert_eq!(f32_to_f16_bits(2.0f32.powi(-25).to_bits()), 0);
    assert_eq!(f32_to_f16_bits(f32::NAN.to_bits()) & 0x7c00, 0x7c00);
    assert_eq!(f32::from_bits(f16_to_f32(0x0001)), 2.0f32.powi(-24));
    assert_eq!(f32::from_bits(f16_to_f32(0x03ff)), 1023.0 * 2.0f32.powi(-24));
    assert_eq!(f32::from_bits(f16_to_f32(0xfbff)), -65504.0);
    for bits in (0..0x7c00u16).step_by(37) {
        assert_eq!(f32_to_f16_bits(f16_to_f32(bits)), bits);
    }
}

#[test]
fn brain_floats_round_to_even() {
    assert_eq!(f32_to_bf16(1.0f32.to_bits()), 0x3f80);
    assert_eq!(f32_to_bf16(0x3f80_8000), 0x3f80);
    assert_eq!(f32_to_bf16(0x3f81_8000), 0x3f82);
    assert_eq!(bf16_bytes(0x3f80_0000), [0x80, 0x3f]);
    assert_eq!(bf16_to_f32(0xc040), (-3.0f32).to_bits());
}

#[test]
fn eight_bit_floats_have_their_values() {
    assert_eq!(f32::from_bits(e4m3_decode(0x38)), 1.0);
    assert_eq!(f32::from_bits(e4m3_decode(0x01)), 2.0f32.powi(-9));
    assert_eq!(f32::from_bits(e4m3_decode(0xb8)), -1.0);
    assert_eq!(f32::from_bits(e4m3_positive(0x7e)), 448.0);
    assert_eq!(f32::from_bits(e4m3_positive(0x07)), 7.0 * 2.0f32.powi(-9));
}

fn nearest_by_search(value: f32) -> u8 {
    let a = value.abs().min(448.0);
    let mut best = 0u8;
    for c in 0..=0x7eu8 {
        let d = |c: u8| (f32::from_bits(e4m3_positive(c)) - a).abs();
        if d(c) < d(best) {
            best = c;
        }
    }
    best | if value.is_sign_negative() { 0x80 } else { 0 }
}

#[test]
fn the_nearest_eight_bit_float_is_found() {
    for v in [
        0.0f32, -0.0, 1.0, -1.0, 448.0, 1000.0, -1e9, 0.0009, 0.001, 0.00097656, 0.3, 17.5, 2.0625,
        239.9, 240.1, 464.0, 1e-30,
    ] {
        assert_eq!(nearest_e4m3(v.to_bits()), nearest_by_search(v), "{v}");
    }
    assert_eq!(nearest_e4m3(f32::INFINITY.to_bits()), 0x7e);
    assert_eq!(nearest_e4m3(f32::NAN.to_bits()) & 0x7f, 0x7e);
    for c in 0..=0x7eu8 {
        assert_eq!(nearest_e4m3(e4m3_positive(c)), c);
    }
    let tie = (f32::from_bits(e4m3_positive(0x38)) + f32::from_bits(e4m3_positive(0x39))) / 2.0;
    assert_eq!(nearest_e4m3(tie.to_bits()), 0x38);
    assert_eq!(
        nearest_codes(&vec![1.0f32.to_bits(), (-448.0f32).to_bits()]),
        vec![0x38, 0xfe]
    );
}

#[test]
fn blocks_have_their_largest_magnitude() {
    let (rows, cols) = (130usize, 129usize);
    let mut values = vec![0.25f32; rows * cols];
    values[3 * cols + 7] = -9.0;
    values[129 * cols + 128] = 4.0;
    values[5 * cols + 128] = f32::NAN;
    let w = brain(&values);
    let m = block_maxima(&w, rows, cols);
    assert_eq!(m.len(), 4);
    assert_eq!(f32::from_bits(m[0]), 9.0);
    assert_eq!(f32::from_bits(m[1]), 0.25);
    assert_eq!(f32::from_bits(m[3]), 4.0);
    assert_eq!(block_max(&w, rows, cols, 0, 0), m[0]);
}

#[test]
fn keys_order_patterns_and_numbers() {
    assert!(order_key((-0.0f32).to_bits()) < order_key(0.0f32.to_bits()));
    assert_eq!(number_key((-0.0f32).to_bits()), number_key(0.0f32.to_bits()));
    assert!(number_key((-2.0f32).to_bits()) < number_key((-1.0f32).to_bits()));
    assert!(order_key(1.0f32.to_bits()) < order_key(2.0f32.to_bits()));
}

#[test]
fn little_endian_numbers_go_out_and_come_back() {
    let mut out = vec![9u8];
    push_le(&mut out, 0x0102_0304, 4);
    assert_eq!(out, vec![9, 4, 3, 2, 1]);
    assert_eq!(read_le(&out, 1, 4), 0x0102_0304);
    assert_eq!(read_le(&out, 0, 0), 0);
    assert_eq!(copy_range(&out, 1, 2), vec![4, 3]);
}

fn bf16_wt(values: &[f32], o: usize, i: usize) -> Wt {
    Wt {
        f: vec![],
        bytes: Some(WtBytes::Bf16 {
            weights: brain(values),
            metal_tensor: 0,
        }),
        o,
        i,
    }
}

fn codes_wt(o: usize, i: usize, code: u8) -> Wt {
    Wt {
        f: vec![],
        bytes: Some(WtBytes::Mxfp4 {
            weights: vec![code; o * i / 2],
            scales: vec![127; o * i / 32],
            metal_tensor: 0,
        }),
        o,
        i,
    }
}

#[test]
fn four_projections_of_codes_share_a_call_and_mixed_ones_do_not() {
    let ws = [
        codes_wt(64, 64, 0x22),
        codes_wt(32, 64, 0x44),
        codes_wt(32, 64, 0xaa),
        codes_wt(16, 64, 0xcc),
    ];
    let all: Vec<&Wt> = ws.iter().collect();
    let formats = multi_formats(&all).unwrap();
    assert_eq!(formats.len(), 4);
    assert!(formats.iter().all(|&f| f == formats[0]));
    let plain = bf16_wt(&vec![0.0; 16 * 64], 16, 64);
    assert!(multi_formats(&vec![&ws[0], &ws[1], &ws[2], &plain]).is_none());
    assert_eq!(full_formats(&vec![&ws[0], &plain]).unwrap(), vec![formats[0], 5]);
    let floats = Wt { f: vec![0; 4], bytes: None, o: 2, i: 2 };
    assert!(full_formats(&vec![&ws[0], &floats]).is_none());
}

fn tables() -> IqTables {
    IqTables {
        iq2xxs: vec![0; 256],
        iq2xs: vec![0; 512],
        iq2s: vec![0; 1024],
        iq3xxs: vec![0; 256],
        iq3s: vec![0; 512],
        ksigns: vec![0; 128],
        kmask: vec![0; 8],
    }
}

#[test]
fn a_row_is_read_in_the_form_it_is_held_in() {
    let w = bf16_wt(&[1.0, 2.0, -3.0, 4.0], 2, 2);
    match w.row(1, &tables()) {
        WtRow::Parts(parts) => {
            assert_eq!(parts.len(), 2);
            assert_eq!(parts[0], vec![Part::Brain(0xc040)]);
        }
        WtRow::Terms(_) => panic!("brain floats are parts"),
    }
    let f = Wt {
        f: vec![1, 2, 3, 4],
        bytes: None,
        o: 2,
        i: 2,
    };
    match f.row(1, &tables()) {
        WtRow::Parts(parts) => assert_eq!(parts[1], vec![Part::Single(4)]),
        WtRow::Terms(_) => panic!("singles are parts"),
    }
    let g = Wt {
        f: vec![],
        bytes: Some(WtBytes::Gguf {
            weights: vec![0x80, 0x3f],
            dtype: GgmlType::Bf16,
        }),
        o: 1,
        i: 1,
    };
    assert!(matches!(g.row(0, &tables()), WtRow::Terms(_)));
}

type Packer = fn(&Vec<u8>, usize, usize) -> Option<Packed>;

#[test]
fn weights_become_codes_where_they_are_brain_floats() {
    let none = Settings::empty();
    let mut w = bf16_wt(&[6.0; 64], 2, 32);
    let by_largest = Rule::<Packer>::Largest(&none);
    assert!(quantize_wt_bf16_to_mxfp4(&mut w, &by_largest));
    assert!(matches!(w.bytes, Some(WtBytes::Mxfp4 { .. })));
    assert!(w.bf16_bytes().is_none());
    let mut f = Wt {
        f: vec![0; 4],
        bytes: None,
        o: 2,
        i: 2,
    };
    assert!(!quantize_wt_bf16_to_mxfp4(&mut f, &by_largest));
    let mut w = bf16_wt(&[6.0; 64], 2, 32);
    let never: Packer = |_, _, _| None;
    assert!(!quantize_wt_bf16_to_mxfp4(&mut w, &Rule::Layers(&none, &never)));
    assert!(w.bf16_bytes().is_some());
    let ours: Packer = |w, o, i| {
        Some(Packed {
            codes: vec![w[0]; o],
            scales: vec![1; i],
            left: vec![w[0] + 1; w.len()],
        })
    };
    let three = Settings {
        entries: vec![("QWEN_GDN_RUNTIME_MXFP4_RESIDUAL3".into(), "1".into())],
    };
    assert_eq!((count_layers(&none), count_layers(&three)), (1, 3));
    let mut v = bf16_wt(&[6.0; 64], 2, 32);
    assert!(quantize_wt_bf16_to_mxfp4(&mut v, &Rule::Layers(&three, &ours)));
    match v.bytes {
        Some(WtBytes::Mxfp4 { weights, scales, .. }) => {
            let first = weights[0];
            assert_eq!(weights, vec![first, first, first + 1, first + 1, first + 2, first + 2]);
            assert_eq!(scales, vec![1; 96]);
        }
        _ => panic!("three layers, each of what the one before it leaves"),
    }
    let short: Packer = |_, _, _| {
        Some(Packed {
            codes: vec![],
            scales: vec![],
            left: vec![0],
        })
    };
    let mut v = bf16_wt(&[6.0; 64], 2, 32);
    assert!(!quantize_wt_bf16_to_mxfp4(&mut v, &Rule::Layers(&three, &short)));
    assert!(quantize_wt_bf16_to_mxfp4(&mut v, &Rule::Layers(&none, &short)));
    assert!(quantize_wt_bf16_to_mxfp4(&mut w, &Rule::Once(&ours)));
    match w.bytes {
        Some(WtBytes::Mxfp4 { weights, scales, .. }) => {
            assert_eq!((weights.len(), scales.len()), (2, 32));
        }
        _ => panic!("the codes of the function that was handed in"),
    }
    assert!(!other_scales(&none, false) && other_scales(&none, true));
    assert_eq!(mse_radius(&none), None);
    for (text, want) in [("2", 2u8), ("-9", 1), ("+8", 8), ("99", 8), ("x", 3), ("2147483648", 3)] {
        let s = Settings {
            entries: vec![
                ("QWEN_GDN_RUNTIME_MXFP4_MSE".into(), "1".into()),
                ("QWEN_GDN_RUNTIME_MXFP4_MSE_RADIUS".into(), text.into()),
            ],
        };
        assert_eq!(mse_radius(&s), Some(want), "{text}");
    }
    assert_eq!(candidate_scales(127, 3), (124, 128));
    assert_eq!(candidate_scales(2, 3), (1, 3));
    assert_eq!(candidate_scales(254, 8), (246, 254));
    let mut w = bf16_wt(&[1.0; 64], 1, 64);
    let packed = (vec![1u8; 64], vec![0u8; 8]);
    assert!(quantize_wt_bf16_to_q8_block(&mut w, 32, 0, Some(packed)));
    assert!(matches!(w.bytes, Some(WtBytes::Q8Block { block: 32, .. })));
    let mut w = bf16_wt(&[1.0; 64], 1, 64);
    assert!(!quantize_wt_bf16_to_q8_block(&mut w, 32, 0, None));
    assert!(w.bf16_bytes().is_some());
}

#[test]
fn a_second_byte_is_kept_for_what_the_first_left_over() {
    let left = vec![0.5f32.to_bits(), (-1.5f32).to_bits()];
    let r = q8_append_residual1(&left, vec![1, 2], 4, 1, 2).unwrap();
    assert_eq!(r, vec![1, 2, 0xc0, 0xbf, 1]);
    assert!(q8_append_residual1(&left, vec![1], 4, 1, 2).is_none());
    assert!(q8_append_residual1(&left, vec![1, 2], 3, 1, 2).is_none());
}

#[test]
fn work_is_shared_out_so_that_every_row_has_a_worker() {
    let none = Settings::empty();
    let w = codes_wt(64, 64, 0);
    let plan = matmul_plan(&w, &none, 4);
    if let Some(n) = plan.rows_per_worker {
        assert!(n >= 1 && n * 4 >= 64);
    }
    assert_eq!(
        device_format(w.bytes.as_ref().unwrap(), 64, 64),
        multi_formats(&vec![&w]).map(|f| f[0])
    );
    let p = bf16_plan(4096, 4096, &set(&[("QWEN_BNNS_BF16", "0")]), 8, true);
    assert!(!p.bnns);
    if let Some(n) = p.rows_per_worker {
        assert!(n * 8 >= 4096);
    }
}

#[test]
fn a_copy_of_weights_has_no_device_handle() {
    let mut b = WtBytes::Bf16 {
        weights: vec![1, 2],
        metal_tensor: 9,
    };
    let mut c = b.clone();
    assert_eq!(c.take_handle(), None);
    assert_eq!(b.take_handle(), Some(9));
    assert_eq!(b.take_handle(), None);
}
