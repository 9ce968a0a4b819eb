use logan_qwen4::floatbits::f16_to_f32;
use logan_qwen4::ggml::{decode_row, dot_row, q4k_scale_min, GridScale, IqTables, Term};
use logan_qwen4::gguf::GgmlType;

const NONLINEAR: [i8; 16] = [
    -127, -104, -83, -65, -49, -35, -22, -10, 1, 13, 25, 38, 53, 69, 89, 113,
];

fn half(bits: u16) -> f32 {
    let sign = if bits & 0x8000 != 0 { -1.0f32 } else { 1.0 };
    let (exp, frac) = (((bits >> 10) & 31) as i32, (bits & 1023) as f32);
    match exp {
        0 => sign * frac * 2f32.powi(-24),
        31 if frac == 0.0 => sign * f32::INFINITY,
        31 => f32::NAN,
        _ => sign * (1.0 + frac / 1024.0) * 2f32.powi(exp - 15),
    }
}

fn scale_and_min(j: usize, q: &[u8]) -> (u8, u8) {
    if j < 4 {
        (q[j] & 63, q[j + 4] & 63)
    } else {
        (
            (q[j + 4] & 0x0f) | ((q[j - 4] >> 6) << 4),
            (q[j + 4] >> 4) | ((q[j] >> 6) << 4),
        )
    }
}

fn in_singles(dtype: GgmlType, row: &[u8], elements: usize, t: &IqTables) -> Vec<f32> {
    let mut out = vec![0.0_f32; elements];
    match dtype {
        GgmlType::F32 => {
            for (dst, raw) in out.iter_mut().zip(row.chunks_exact(4)) {
                *dst = f32::from_le_bytes(raw.try_into().unwrap());
            }
        }
        GgmlType::F16 => {
            for (dst, raw) in out.iter_mut().zip(row.chunks_exact(2)) {
                *dst = half(u16::from_le_bytes(raw.try_into().unwrap()));
            }
        }
        GgmlType::Bf16 => {
            for (dst, raw) in out.iter_mut().zip(row.chunks_exact(2)) {
                let bits = u16::from_le_bytes(raw.try_into().unwrap());
                *dst = f32::from_bits((bits as u32) << 16);
            }
        }
        GgmlType::Q8_0 => {
            for (bi, block) in row.chunks_exact(34).enumerate() {
                let d = half(u16::from_le_bytes([block[0], block[1]]));
                for i in 0..32 {
                    out[bi * 32 + i] = d * block[2 + i] as i8 as f32;
                }
            }
        }
        GgmlType::Q5_0 => {
            for (bi, block) in row.chunks_exact(22).enumerate() {
                let d = half(u16::from_le_bytes([block[0], block[1]]));
                let qh = u32::from_le_bytes(block[2..6].try_into().unwrap());
                let qs = &block[6..22];
                for i in 0..16 {
                    let lo = ((qs[i] & 0x0f) as i32 | ((((qh >> i) & 1) as i32) << 4)) - 16;
                    let hi = ((qs[i] >> 4) as i32 | ((((qh >> (i + 16)) & 1) as i32) << 4)) - 16;
                    out[bi * 32 + i] = d * lo as f32;
                    out[bi * 32 + i + 16] = d * hi as f32;
                }
            }
        }
        GgmlType::Q4K => {
            for (bi, block) in row.chunks_exact(144).enumerate() {
                let d = half(u16::from_le_bytes([block[0], block[1]]));
                let dmin = half(u16::from_le_bytes([block[2], block[3]]));
                let scales = &block[4..16];
                let qs = &block[16..144];
                for group in 0..8 {
                    let (scale, min) = scale_and_min(group, scales);
                    let ds = d * scale as f32;
                    let dm = dmin * min as f32;
                    let pair = group / 2;
                    let high = group & 1 != 0;
                    for i in 0..32 {
                        let packed = qs[pair * 32 + i];
                        let q = if high { packed >> 4 } else { packed & 0x0f };
                        out[bi * 256 + group * 32 + i] = ds * q as f32 - dm;
                    }
                }
            }
        }
        GgmlType::Q5K => {
            for (bi, block) in row.chunks_exact(176).enumerate() {
                let d = half(u16::from_le_bytes([block[0], block[1]]));
                let dmin = half(u16::from_le_bytes([block[2], block[3]]));
                let scales = &block[4..16];
                let qh = &block[16..48];
                let ql = &block[48..176];
                let base = bi * 256;
                let mut is = 0usize;
                let mut u1 = 1u8;
                let mut u2 = 2u8;
                for j in (0..256).step_by(64) {
                    let (sc1, m1q) = scale_and_min(is, scales);
                    let (sc2, m2q) = scale_and_min(is + 1, scales);
                    let ds1 = d * sc1 as f32;
                    let dm1 = dmin * m1q as f32;
                    let ds2 = d * sc2 as f32;
                    let dm2 = dmin * m2q as f32;
                    let qoff = (j / 64) * 32;
                    for l in 0..32 {
                        let lo = (ql[qoff + l] & 0x0f) + if qh[l] & u1 != 0 { 16 } else { 0 };
                        let hi = (ql[qoff + l] >> 4) + if qh[l] & u2 != 0 { 16 } else { 0 };
                        out[base + j + l] = ds1 * lo as f32 - dm1;
                        out[base + j + 32 + l] = ds2 * hi as f32 - dm2;
                    }
                    is += 2;
                    u1 <<= 2;
                    u2 <<= 2;
                }
            }
        }
        GgmlType::Q2_0 => {
            for (bi, block) in row.chunks_exact(18).enumerate() {
                let d = half(u16::from_le_bytes([block[0], block[1]]));
                for j in 0..64 {
                    let q = (block[2 + j / 4] >> ((j % 4) * 2)) & 0x03;
                    out[bi * 64 + j] = (q as i32 - 1) as f32 * d;
                }
            }
        }
        GgmlType::Iq4Nl => {
            for (bi, block) in row.chunks_exact(18).enumerate() {
                let d = half(u16::from_le_bytes([block[0], block[1]]));
                for j in 0..16 {
                    let packed = block[2 + j];
                    out[bi * 32 + j] = d * NONLINEAR[(packed & 0x0f) as usize] as f32;
                    out[bi * 32 + j + 16] = d * NONLINEAR[(packed >> 4) as usize] as f32;
                }
            }
        }
        GgmlType::Iq4Xs => {
            for (bi, block) in row.chunks_exact(136).enumerate() {
                let d = half(u16::from_le_bytes([block[0], block[1]]));
                let scales_h = u16::from_le_bytes([block[2], block[3]]);
                let scales_l = &block[4..8];
                let qs = &block[8..136];
                for ib in 0..8 {
                    let low = (scales_l[ib / 2] >> (4 * (ib % 2))) & 0x0f;
                    let high = ((scales_h >> (2 * ib)) & 0x03) as u8;
                    let dl = d * (((low | (high << 4)) as i32 - 32) as f32);
                    let qoff = ib * 16;
                    let xoff = bi * 256 + ib * 32;
                    for j in 0..16 {
                        let packed = qs[qoff + j];
                        out[xoff + j] = dl * NONLINEAR[(packed & 0x0f) as usize] as f32;
                        out[xoff + j + 16] = dl * NONLINEAR[(packed >> 4) as usize] as f32;
                    }
                }
            }
        }
        GgmlType::Iq2Xxs => {
            for (bi, block) in row.chunks_exact(66).enumerate() {
                let d = half(u16::from_le_bytes([block[0], block[1]]));
                let qs = &block[2..66];
                let base = bi * 256;
                for ib32 in 0..8 {
                    let off = ib32 * 8;
                    let aux0 = u32::from_le_bytes(qs[off..off + 4].try_into().unwrap());
                    let aux1 = u32::from_le_bytes(qs[off + 4..off + 8].try_into().unwrap());
                    let aux = [aux0.to_le_bytes(), aux1.to_le_bytes()].concat();
                    let db = d * (0.5 + (aux1 >> 28) as f32) * 0.25;
                    for l in 0..4 {
                        let grid = t.iq2xxs[aux[l] as usize].to_le_bytes();
                        let signs = t.ksigns[((aux1 >> (7 * l)) & 127) as usize];
                        for j in 0..8 {
                            let sign = if signs & t.kmask[j] != 0 {
                                -1.0
                            } else {
                                1.0
                            };
                            out[base + ib32 * 32 + l * 8 + j] = db * grid[j] as f32 * sign;
                        }
                    }
                }
            }
        }
        GgmlType::Iq2Xs => {
            for (bi, block) in row.chunks_exact(74).enumerate() {
                let d = half(u16::from_le_bytes([block[0], block[1]]));
                let qs = &block[2..66];
                let scales = &block[66..74];
                let base = bi * 256;
                for ib32 in 0..8 {
                    let db = [
                        d * (0.5 + (scales[ib32] & 0x0f) as f32) * 0.25,
                        d * (0.5 + (scales[ib32] >> 4) as f32) * 0.25,
                    ];
                    for l in 0..4 {
                        let qoff = 2 * (4 * ib32 + l);
                        let code = u16::from_le_bytes([qs[qoff], qs[qoff + 1]]);
                        let grid = t.iq2xs[(code & 511) as usize].to_le_bytes();
                        let signs = t.ksigns[(code >> 9) as usize];
                        for j in 0..8 {
                            let sign = if signs & t.kmask[j] != 0 {
                                -1.0
                            } else {
                                1.0
                            };
                            out[base + ib32 * 32 + l * 8 + j] = db[l / 2] * grid[j] as f32 * sign;
                        }
                    }
                }
            }
        }
        GgmlType::Iq2S => {
            for (bi, block) in row.chunks_exact(82).enumerate() {
                let d = half(u16::from_le_bytes([block[0], block[1]]));
                let qs_all = &block[2..66];
                let qs = &qs_all[..32];
                let signs_all = &qs_all[32..64];
                let qh = &block[66..74];
                let scales = &block[74..82];
                let base = bi * 256;
                for ib32 in 0..8 {
                    let db = [
                        d * (0.5 + (scales[ib32] & 0x0f) as f32) * 0.25,
                        d * (0.5 + (scales[ib32] >> 4) as f32) * 0.25,
                    ];
                    for l in 0..4 {
                        let q = qs[4 * ib32 + l] as usize;
                        let hi = (((qh[ib32] as u16) << (8 - 2 * l)) & 0x300) as usize;
                        let grid = t.iq2s[q | hi].to_le_bytes();
                        let signs = signs_all[4 * ib32 + l];
                        for j in 0..8 {
                            let sign = if signs & t.kmask[j] != 0 {
                                -1.0
                            } else {
                                1.0
                            };
                            out[base + ib32 * 32 + l * 8 + j] = db[l / 2] * grid[j] as f32 * sign;
                        }
                    }
                }
            }
        }
        GgmlType::Iq3Xxs => {
            for (bi, block) in row.chunks_exact(98).enumerate() {
                let d = half(u16::from_le_bytes([block[0], block[1]]));
                let qs = &block[2..98];
                let scales_and_signs = &qs[64..96];
                let base = bi * 256;
                for ib32 in 0..8 {
                    let aux = u32::from_le_bytes(
                        scales_and_signs[4 * ib32..4 * ib32 + 4].try_into().unwrap(),
                    );
                    let db = d * (0.5 + (aux >> 28) as f32) * 0.5;
                    let qbase = ib32 * 8;
                    for l in 0..4 {
                        let signs = t.ksigns[((aux >> (7 * l)) & 127) as usize];
                        let grid1 = t.iq3xxs[qs[qbase + 2 * l] as usize].to_le_bytes();
                        let grid2 = t.iq3xxs[qs[qbase + 2 * l + 1] as usize].to_le_bytes();
                        for j in 0..4 {
                            let sign0 = if signs & t.kmask[j] != 0 {
                                -1.0
                            } else {
                                1.0
                            };
                            let sign1 = if signs & t.kmask[j + 4] != 0 {
                                -1.0
                            } else {
                                1.0
                            };
                            out[base + ib32 * 32 + l * 8 + j] = db * grid1[j] as f32 * sign0;
                            out[base + ib32 * 32 + l * 8 + j + 4] = db * grid2[j] as f32 * sign1;
                        }
                    }
                }
            }
        }
        GgmlType::Iq3S => {
            for (bi, block) in row.chunks_exact(110).enumerate() {
                let d = half(u16::from_le_bytes([block[0], block[1]]));
                let qs = &block[2..66];
                let qh = &block[66..74];
                let signs = &block[74..106];
                let scales = &block[106..110];
                let base = bi * 256;
                for pair in 0..4 {
                    let ib32 = pair * 2;
                    let db1 = d * (1 + 2 * (scales[pair] & 0x0f) as i32) as f32;
                    let db2 = d * (1 + 2 * (scales[pair] >> 4) as i32) as f32;
                    let qbase = pair * 16;
                    let sbase = pair * 8;
                    let h0 = qh[pair * 2];
                    let h1 = qh[pair * 2 + 1];
                    for l in 0..4 {
                        let idx1 = qs[qbase + 2 * l] as usize
                            | ((((h0 as u16) << (8 - 2 * l)) & 256) as usize);
                        let idx2 = qs[qbase + 2 * l + 1] as usize
                            | ((((h0 as u16) << (7 - 2 * l)) & 256) as usize);
                        let grid1 = t.iq3s[idx1].to_le_bytes();
                        let grid2 = t.iq3s[idx2].to_le_bytes();
                        let sb = signs[sbase + l];
                        for j in 0..4 {
                            let sign0 = if sb & t.kmask[j] != 0 { -1.0 } else { 1.0 };
                            let sign1 = if sb & t.kmask[j + 4] != 0 {
                                -1.0
                            } else {
                                1.0
                            };
                            let out_base = base + ib32 * 32 + l * 8;
                            out[out_base + j] = db1 * grid1[j] as f32 * sign0;
                            out[out_base + j + 4] = db1 * grid2[j] as f32 * sign1;
                        }
                    }
                    for l in 0..4 {
                        let idx1 = qs[qbase + 8 + 2 * l] as usize
                            | ((((h1 as u16) << (8 - 2 * l)) & 256) as usize);
                        let idx2 = qs[qbase + 8 + 2 * l + 1] as usize
                            | ((((h1 as u16) << (7 - 2 * l)) & 256) as usize);
                        let grid1 = t.iq3s[idx1].to_le_bytes();
                        let grid2 = t.iq3s[idx2].to_le_bytes();
                        let sb = signs[sbase + 4 + l];
                        for j in 0..4 {
                            let sign0 = if sb & t.kmask[j] != 0 { -1.0 } else { 1.0 };
                            let sign1 = if sb & t.kmask[j + 4] != 0 {
                                -1.0
                            } else {
                                1.0
                            };
                            let out_base = base + (ib32 + 1) * 32 + l * 8;
                            out[out_base + j] = db2 * grid1[j] as f32 * sign0;
                            out[out_base + j + 4] = db2 * grid2[j] as f32 * sign1;
                        }
                    }
                }
            }
        }
        GgmlType::Q6K => {
            for (bi, block) in row.chunks_exact(210).enumerate() {
                let ql = &block[..128];
                let qh = &block[128..192];
                let scales = &block[192..208];
                let d = half(u16::from_le_bytes([block[208], block[209]]));
                for ip in 0..2 {
                    for il in 0..32 {
                        let is = 8 * ip + il / 16;
                        let low0 = ql[64 * ip + il];
                        let low1 = ql[64 * ip + il + 32];
                        let high = qh[32 * ip + il];
                        let vals = [
                            ((low0 & 0x0f) | ((high & 0x03) << 4)) as i32 - 32,
                            ((low1 & 0x0f) | (((high >> 2) & 0x03) << 4)) as i32 - 32,
                            ((low0 >> 4) | (((high >> 4) & 0x03) << 4)) as i32 - 32,
                            ((low1 >> 4) | (((high >> 6) & 0x03) << 4)) as i32 - 32,
                        ];
                        let offsets = [0, 32, 64, 96];
                        let scale_offsets = [0, 2, 4, 6];
                        for lane in 0..4 {
                            let xi = 128 * ip + il + offsets[lane];
                            out[bi * 256 + xi] = d
                                * scales[is + scale_offsets[lane]] as i8 as f32
                                * vals[lane] as f32;
                        }
                    }
                }
            }
        }
    }
    out
}

fn value(t: &Term) -> f32 {
    match *t {
        Term::Bits(b) => f32::from_bits(b),
        Term::Scaled { d, q } => half(d) * q as f32,
        Term::Affine { d, m, scale, min, q } => {
            (half(d) * scale as f32) * q as f32 - half(m) * min as f32
        }
        Term::Grouped { d, scale, q } => (half(d) * scale as f32) * q as f32,
        Term::Grid { d, scale, s, g, negative } => {
            let by = match scale {
                GridScale::Quarter => (0.5 + s as f32) * 0.25,
                GridScale::Half => (0.5 + s as f32) * 0.5,
                GridScale::Odd => 1.0 + 2.0 * s as f32,
            };
            let v = (half(d) * by) * g as f32;
            if negative {
                -v
            } else {
                v
            }
        }
    }
}

struct Noise(u64);

impl Noise {
    fn next(&mut self) -> u64 {
        self.0 ^= self.0 << 13;
        self.0 ^= self.0 >> 7;
        self.0 ^= self.0 << 17;
        self.0
    }

    fn bytes(&mut self, n: usize) -> Vec<u8> {
        (0..n).map(|_| (self.next() >> 24) as u8).collect()
    }
}

fn noisy_tables(noise: &mut Noise) -> IqTables {
    IqTables {
        iq2xxs: (0..256).map(|_| noise.next()).collect(),
        iq2xs: (0..512).map(|_| noise.next()).collect(),
        iq2s: (0..1024).map(|_| noise.next()).collect(),
        iq3xxs: (0..256).map(|_| noise.next() as u32).collect(),
        iq3s: (0..512).map(|_| noise.next() as u32).collect(),
        ksigns: noise.bytes(128),
        kmask: vec![1, 2, 4, 8, 16, 32, 64, 128],
    }
}

const TYPES: [(GgmlType, usize, usize); 16] = [
    (GgmlType::F32, 1, 4),
    (GgmlType::F16, 1, 2),
    (GgmlType::Bf16, 1, 2),
    (GgmlType::Q8_0, 32, 34),
    (GgmlType::Q5_0, 32, 22),
    (GgmlType::Q4K, 256, 144),
    (GgmlType::Q5K, 256, 176),
    (GgmlType::Q6K, 256, 210),
    (GgmlType::Q2_0, 64, 18),
    (GgmlType::Iq4Nl, 32, 18),
    (GgmlType::Iq4Xs, 256, 136),
    (GgmlType::Iq2Xxs, 256, 66),
    (GgmlType::Iq2Xs, 256, 74),
    (GgmlType::Iq2S, 256, 82),
    (GgmlType::Iq3Xxs, 256, 98),
    (GgmlType::Iq3S, 256, 110),
];

fn tame(row: &mut [u8], block: usize, dtype: GgmlType) {
    // scales of ordinary size, so that no element is infinite
    if block < 18 {
        return;
    }
    for b in row.chunks_exact_mut(block) {
        let at = if matches!(dtype, GgmlType::Q6K) { 208 } else { 0 };
        b[at + 1] = (b[at + 1] & 0x83) | 0x28;
        if matches!(dtype, GgmlType::Q4K | GgmlType::Q5K) {
            b[3] = (b[3] & 0x83) | 0x28;
        }
    }
}

#[test]
fn rows_of_every_type_read_as_singles() {
    let mut noise = Noise(0x9e37_79b9_7f4a_7c15);
    let t = noisy_tables(&mut noise);
    for (dtype, len, block) in TYPES {
        for _ in 0..4 {
            let mut row = noise.bytes(3 * block);
            tame(&mut row, block, dtype);
            let want = in_singles(dtype, &row, 3 * len, &t);
            let got = decode_row(dtype, &row, 3 * len, &t).unwrap();
            assert_eq!(got.len(), want.len());
            for (k, (g, w)) in got.iter().zip(&want).enumerate() {
                let g = value(g);
                assert!(g == *w || (g.is_nan() && w.is_nan()), "{dtype:?} {k}: {g} {w}");
            }
            let mut seen = vec![false; 3 * len];
            for (k, term) in dot_row(dtype, &row, 3 * len, &t).unwrap() {
                assert!(!seen[k]);
                seen[k] = true;
                assert_eq!(term, got[k]);
            }
            assert!(seen.iter().all(|&s| s));
        }
    }
}

#[test]
fn every_half_widens_to_its_value() {
    for bits in 0..=u16::MAX {
        let (want, got) = (half(bits), f32::from_bits(f16_to_f32(bits)));
        assert!(got == want || (got.is_nan() && want.is_nan()), "{bits:#x}");
        if want == 0.0 {
            assert_eq!(got.is_sign_negative(), bits & 0x8000 != 0);
        }
    }
}

#[test]
fn scales_and_minima_of_a_block_agree() {
    let mut noise = Noise(7);
    for _ in 0..200 {
        let q = noise.bytes(12);
        for j in 0..8 {
            assert_eq!(q4k_scale_min(j, &q), scale_and_min(j, &q));
        }
    }
}
