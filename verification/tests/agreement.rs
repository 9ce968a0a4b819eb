use logan_qwen4::config::{load_cfg, CfgFloats};
use logan_qwen4::edge0_router::rank_by_score;
use logan_qwen4::floatbits::{f32_to_bf16, f32_to_f16_bits};
use logan_qwen4::fp8::nearest_e4m3;
use logan_qwen4::gate::{parse_tokens, split_words};
use logan_qwen4::greedy::{argmax, next_token};
use logan_qwen4::ple::{ngram_rows, nth_prime_after, ple_layout, ple_splitmix64};
use logan_qwen4::rank::rank_single;
use logan_qwen4::route::topk;
use logan_qwen4::settings::{layer_selected, name_selected, Settings};
use logan_qwen4::text::{lower, parse_unsigned, precedes, trim};

struct Noise(u64);

impl Noise {
    fn next(&mut self) -> u64 {
        self.0 ^= self.0 << 13;
        self.0 ^= self.0 >> 7;
        self.0 ^= self.0 << 17;
        self.0
    }
}

const TEXTS: [&str; 24] = [
    "", " ", "0", "+7", "-7", "007", "18446744073709551615", "18446744073709551616", "1 2", " 12 ",
    "\u{a0}5\u{2003}", "x", "1x", "\u{85}9", "++1", "+", "12\u{200b}", "4294967295", "4294967296",
    "\tA b\nC ", "0x10", "1_0", "\u{feff}1", "\u{1680}z\u{3000}",
];

fn chars(s: &str) -> Vec<char> {
    s.chars().collect()
}

#[test]
fn texts_are_read_as_the_standard_library_reads_them() {
    for s in TEXTS {
        assert_eq!(parse_unsigned(&chars(s), u64::MAX), s.parse::<u64>().ok(), "{s:?}");
        assert_eq!(
            parse_unsigned(&chars(s), u32::MAX as u64),
            s.parse::<u32>().ok().map(u64::from),
            "{s:?}"
        );
        assert_eq!(trim(&chars(s)), chars(s.trim()), "{s:?}");
        assert_eq!(lower(&chars(s)), chars(&s.to_ascii_lowercase()), "{s:?}");
        let words: Vec<Vec<char>> = s.split_whitespace().map(chars).collect();
        assert_eq!(split_words(&chars(s)), words, "{s:?}");
        let tokens: Result<Vec<u32>, _> = s.split_whitespace().map(|t| t.parse::<u32>()).collect();
        assert_eq!(parse_tokens(s), tokens.ok(), "{s:?}");
    }
}

fn selects(spec: &str, layer: usize) -> bool {
    if spec.trim().eq_ignore_ascii_case("all") {
        return true;
    }
    spec.split(',').any(|piece| {
        let piece = piece.trim();
        if piece.is_empty() {
            return false;
        }
        if let Some((lo, hi)) = piece.split_once('-') {
            match (lo.trim().parse::<usize>(), hi.trim().parse::<usize>()) {
                (Ok(lo), Ok(hi)) => lo <= layer && layer <= hi,
                _ => false,
            }
        } else {
            piece.parse::<usize>().ok() == Some(layer)
        }
    })
}

#[test]
fn lists_of_layers_are_read_piece_by_piece() {
    let specs = [
        "all", " ALL ", "", ",", "3", " 3 ,5", "1-4", "4-1", "1 - 4", "1-2-3", "-3", "3-", "+2", "a",
        "2,a-b,7-9", "0-0,,12", "alls", "1-+3", "\u{a0}6",
    ];
    for spec in specs {
        for layer in 0..14 {
            assert_eq!(layer_selected(spec, layer), selects(spec, layer), "{spec:?} {layer}");
        }
    }
    for scope in ["all", "All", "qkv", " z , qkv", "qkvz", "", ",z"] {
        for name in ["qkv", "z", "all", ""] {
            let want = scope == "all" || scope.split(',').any(|part| part.trim() == name);
            assert_eq!(name_selected(scope, name), want, "{scope:?} {name:?}");
        }
    }
}

fn narrowed(value: f32) -> u16 {
    let bits = value.to_bits();
    let sign = ((bits >> 16) & 0x8000) as u16;
    let exp = ((bits >> 23) & 0xff) as i32;
    let mant = bits & 0x7f_ffff;
    if exp == 0xff {
        if mant == 0 {
            return sign | 0x7c00;
        }
        return sign | 0x7c00 | ((mant >> 13) as u16).max(1);
    }
    let half_exp = exp - 127 + 15;
    if half_exp >= 0x1f {
        return sign | 0x7c00;
    }
    if half_exp <= 0 {
        if half_exp < -10 {
            return sign;
        }
        let mantissa = mant | 0x80_0000;
        let shift = (14 - half_exp) as u32;
        let mut half = mantissa >> shift;
        let rest = mantissa & ((1u32 << shift) - 1);
        let tie = 1u32 << (shift - 1);
        if rest > tie || (rest == tie && half & 1 != 0) {
            half += 1;
        }
        return sign | half as u16;
    }
    let (mut e, mut half) = ((half_exp as u16) << 10, mant >> 13);
    let rest = mant & 0x1fff;
    if rest > 0x1000 || (rest == 0x1000 && half & 1 != 0) {
        half += 1;
        if half == 0x400 {
            half = 0;
            e += 0x400;
            if e >= 0x7c00 {
                return sign | 0x7c00;
            }
        }
    }
    sign | e | half as u16
}

#[test]
fn singles_narrow_the_same_way() {
    let mut noise = Noise(99);
    for exponent in 0..512u32 {
        for tail in [0u32, 1, 0xfff, 0x1000, 0x1001, 0x3000, 0x7f_e000, 0x7f_f000, 0x7f_ffff] {
            let bits = (exponent << 23) | tail;
            assert_eq!(f32_to_f16_bits(bits), narrowed(f32::from_bits(bits)), "{bits:#x}");
        }
        for _ in 0..200 {
            let bits = (exponent << 23) | (noise.next() as u32 & 0x7f_ffff);
            assert_eq!(f32_to_f16_bits(bits), narrowed(f32::from_bits(bits)), "{bits:#x}");
            if bits < 0xffff_8000 {
                let rounded = ((bits + 0x7fff + ((bits >> 16) & 1)) >> 16) as u16;
                assert_eq!(f32_to_bf16(bits), rounded);
            }
        }
    }
}

#[test]
fn scores_are_ranked_as_floats_are() {
    let mut noise = Noise(5);
    for round in 0..300 {
        let n = 1 + (noise.next() % 9) as usize;
        let scores: Vec<f32> = (0..n)
            .map(|_| match noise.next() % 12 {
                0 if round % 2 == 0 => f32::NAN,
                1 => f32::INFINITY,
                2 => f32::NEG_INFINITY,
                3 => -0.0,
                4 => 0.0,
                k => (k as f32 - 7.0) * 0.5,
            })
            .collect();
        let bits: Vec<u32> = scores.iter().map(|v| v.to_bits()).collect();
        for k in 0..=n {
            let (mut idx, mut val): (Vec<usize>, Vec<f32>) = ((0..n).collect(), scores.clone());
            for i in 0..k {
                let mut best = i;
                for j in i + 1..n {
                    if val[j] > val[best] || (val[j] == val[best] && idx[j] < idx[best]) {
                        best = j;
                    }
                }
                idx.swap(i, best);
                val.swap(i, best);
            }
            assert_eq!(topk(&bits, k), idx[..k].to_vec(), "{scores:?} {k}");
            let mut ids: Vec<usize> = (0..n).collect();
            ids.sort_by(|&a, &b| scores[b].total_cmp(&scores[a]).then_with(|| a.cmp(&b)));
            ids.truncate(k);
            let got: Vec<usize> = rank_by_score(&bits, k).iter().map(|c| c.expert).collect();
            assert_eq!(got, ids);
            let listed: Vec<(usize, u32)> =
                bits.iter().enumerate().map(|(e, &b)| (e % 4, b)).collect();
            let mut usable: Vec<(usize, f32)> = listed
                .iter()
                .map(|&(e, b)| (e, f32::from_bits(b)))
                .filter(|(_, s)| s.is_finite() && *s > 0.0)
                .collect();
            usable.sort_by(|a, b| b.1.total_cmp(&a.1).then_with(|| a.0.cmp(&b.0)));
            let mut firsts: Vec<usize> = vec![];
            for (e, _) in usable {
                if firsts.len() < k && !firsts.contains(&e) {
                    firsts.push(e);
                }
            }
            assert_eq!(rank_single(&listed, k), firsts);
        }
        let (mut best, mut most) = (0, f32::NEG_INFINITY);
        for (i, &v) in scores.iter().enumerate() {
            if v > most {
                most = v;
                best = i;
            }
        }
        assert_eq!(argmax(&bits), best);
        if scores.iter().all(|v| !v.is_nan()) {
            let last = scores
                .iter()
                .enumerate()
                .max_by(|a, b| a.1.partial_cmp(b.1).unwrap())
                .map(|(i, _)| i as u32);
            assert_eq!(Some(next_token(&bits)), last);
        }
    }
}

#[test]
fn eight_bit_floats_are_found_as_a_search_finds_them() {
    let code_value = |code: u8| {
        let (exp, mant) = (((code >> 3) & 15) as i32, (code & 7) as f32);
        if exp == 0 {
            mant * 0.001953125
        } else {
            (1.0 + mant * 0.125) * 2f32.powi(exp - 7)
        }
    };
    let table: Vec<f32> = (0u8..=0x7e).map(code_value).collect();
    let mut noise = Noise(31);
    for round in 0..20000u32 {
        let bits = match round % 4 {
            0 => noise.next() as u32,
            1 => table[(noise.next() % 127) as usize].to_bits(),
            2 => {
                let k = (noise.next() % 126) as usize;
                ((table[k] + table[k + 1]) / 2.0).to_bits()
            }
            _ => (110 + (noise.next() % 30) as u32) << 23 | (noise.next() as u32 & 0x7f_ffff),
        };
        let value = f32::from_bits(bits);
        let a = value.abs().min(448.0);
        let hi = table.partition_point(|&x| x < a);
        let code = if hi == 0 {
            0
        } else if hi >= table.len() {
            table.len() - 1
        } else if (a - table[hi - 1]).abs() <= (table[hi] - a).abs() {
            hi - 1
        } else {
            hi
        } as u8;
        let want = code | if value.is_sign_negative() { 0x80 } else { 0 };
        assert_eq!(nearest_e4m3(bits), want, "{value} {bits:#x}");
    }
}

fn hashed(
    hist: &[i64],
    eos: i64,
    ns: usize,
    hpn: usize,
    mult: &[u64],
    sizes: &[i64],
    offsets: &[i64],
) -> Vec<u64> {
    let t = ns;
    let mut shifted = vec![vec![0i64; t]; ns];
    for s in 0..ns {
        let mut seg = 0usize;
        for p in 0..t {
            let mut v = eos;
            let src = p as i64 - s as i64;
            if src >= 0 && p - seg >= s {
                v = hist[src as usize];
            }
            shifted[s][p] = v;
            if hist[p] == eos {
                seg = p + 1;
            }
        }
    }
    let mut rows = vec![];
    for ng in 2..=ns {
        for k in 0..hpn {
            let h = (ng - 2) * hpn + k;
            let mut mixed = 0u64;
            for j in 0..ng {
                mixed ^= (shifted[j][t - 1] as u64).wrapping_mul(mult[j]);
            }
            rows.push(mixed % sizes[h] as u64 + offsets[h] as u64);
        }
    }
    rows
}

#[test]
fn texts_have_the_order_of_their_bytes() {
    let more = ["a", "ab", "aa", "\u{7f}", "\u{80}", "\u{7ff}", "\u{800}", "\u{ffff}", "\u{10000}"];
    let all: Vec<&str> = TEXTS.iter().chain(more.iter()).copied().collect();
    for a in &all {
        for b in &all {
            assert_eq!(precedes(a, b), a < b, "{a:?} {b:?}");
        }
    }
}

#[test]
fn n_grams_select_the_rows_that_hashing_gives() {
    let mut noise = Noise(77);
    for ns in 2..=5usize {
        for hpn in 1..=3usize {
            let layout = ple_layout(100, (ns - 1) * hpn).unwrap();
            for _ in 0..60 {
                let ring: Vec<i64> = (0..ns).map(|_| (noise.next() % 4) as i64).collect();
                let mult: Vec<u64> = (0..ns).map(|_| noise.next() | 1).collect();
                let want = hashed(&ring, 0, ns, hpn, &mult, &layout.sizes, &layout.offsets);
                let got = ngram_rows(&ring, 0, ns, hpn, &mult, &layout.sizes, &layout.offsets);
                assert_eq!(got, want, "{ring:?}");
            }
        }
    }
}

#[test]
fn primes_and_hashes_have_their_values() {
    let is_prime = |n: i64| n > 1 && (2..n).take_while(|d| d * d <= n).all(|d| n % d != 0);
    for p in [0i64, 1, 2, 10, 97, 1000] {
        let mut after = (p + 1..).filter(|&n| is_prime(n));
        for count in 1..5i64 {
            assert_eq!(nth_prime_after(p, count), after.next(), "{p} {count}");
        }
    }
    let mut z = 42u64.wrapping_add(0x9E37_79B9_7F4A_7C15);
    z = (z ^ (z >> 30)).wrapping_mul(0xBF58_476D_1CE4_E5B9);
    z = (z ^ (z >> 27)).wrapping_mul(0x94D0_49BB_1331_11EB);
    assert_eq!(ple_splitmix64(42), z ^ (z >> 31));
}

#[test]
fn a_configuration_is_found_inside_a_larger_one() {
    let floats = CfgFloats { theta: 1, eps: 2, rotary_dim: 3 };
    let text = "{\"hidden_size\": 9, \"text_config\": {\"hidden_size\": 8, \"num_attention_heads\": 2, \"num_hidden_layers\": 1, \"layer_types\": [\"full_attention\"], \"max_position_embeddings\": 100000, \"eos_token_id\": -5, \"seed\": 3, \"ngram_size\": 3, \"heads_per_ngram\": 2, \"ple_layer_ids\": [4], \"hidden_act\": \"sigmoid\"}}";
    let c = load_cfg(text.as_bytes(), &Settings::empty(), floats).unwrap();
    assert_eq!((c.hidden, c.head_dim, c.max_t), (8, 4, 65536));
    assert_eq!((c.eos, c.seed, c.ngram_heads, c.ple_layer), (-5, 3, 4, 4));
    assert_eq!((c.theta, c.eps, c.rotary_dim), (1, 2, 3));
    let shorter = Settings { entries: vec![("CTX".into(), "17".into())] };
    assert_eq!(load_cfg(text.as_bytes(), &shorter, floats).unwrap().max_t, 17);
}
