//! Window functions.
use rustspeck::config::Config;
use rustspeck::double::Double;
use rustspeck::taper::{attenuation, window_span, Values, Window};
use rustspeck::window::{
    angles, apply_bartlett, apply_dolph, apply_hamming, apply_hann, apply_kaiser, bessel_i0,
    fraction, kaiser_beta, next_window, range_limit, WindowType,
};

fn d(x: f64) -> Double {
    Double { bits: x.to_bits() }
}

fn f(x: Double) -> f64 {
    f64::from_bits(x.bits)
}

fn ones(n: usize) -> Vec<Double> {
    vec![d(1.0); n]
}

fn read(h: &[Double]) -> Vec<f64> {
    h.iter().map(|x| f(*x)).collect()
}

fn cosines(n: usize) -> Vec<Double> {
    angles(n).iter().map(|a| d(f(*a).cos())).collect()
}

fn hann(h: &mut Vec<Double>) {
    let c = cosines(h.len());
    apply_hann(h, &c);
}

fn hamming(h: &mut Vec<Double>) {
    let c = cosines(h.len());
    apply_hamming(h, &c);
}

fn beta(att: f64, tr_bw: f64) -> f64 {
    let octaves = (tr_bw / 0.0005).ln() / 2f64.ln();
    let root = (att - 20.96).powf(0.4);
    f(kaiser_beta(d(att), d(octaves), d(root)))
}

fn b0(att: f64, n: usize) -> f64 {
    ((10f64.powf(att / 20.0)).acosh() / (n as f64 - 1.0)).cosh()
}

#[test]
fn hann_endpoints_and_peak() {
    let mut h = ones(9);
    hann(&mut h);
    let h = read(&h);
    assert!(h[0].abs() < 1e-12);
    assert!(h[8].abs() < 1e-12);
    assert!((h[4] - 1.0).abs() < 1e-12); // centre of Hann is 1
}

#[test]
fn bessel_i0_known_values() {
    assert!((f(bessel_i0(d(0.0))) - 1.0).abs() < 1e-12);
    // I0(1) ~ 1.2660658777520084
    assert!((f(bessel_i0(d(1.0))) - 1.2660658777520084).abs() < 1e-10);
}

#[test]
fn windows_are_symmetric() {
    for apply in [hann as fn(&mut Vec<Double>), hamming, apply_bartlett] {
        let mut h = ones(17);
        apply(&mut h);
        let h = read(&h);
        for i in 0..h.len() {
            assert!((h[i] - h[h.len() - 1 - i]).abs() < 1e-12, "asymmetry at {i}");
        }
    }
}

#[test]
fn windows_multiply_by_their_weights() {
    for apply in [hann as fn(&mut Vec<Double>), hamming, apply_bartlett] {
        let mut weights = ones(17);
        apply(&mut weights);
        let points: Vec<f64> = (0..17).map(|i| (i as f64 - 5.5) * 1.75e3).collect();
        let mut h: Vec<Double> = points.iter().map(|x| d(*x)).collect();
        apply(&mut h);
        for i in 0..17 {
            assert_eq!(f(h[i]).to_bits(), (points[i] * f(weights[i])).to_bits());
        }
    }
}

#[test]
fn windows_are_as_symmetric_as_their_cosines() {
    let tiny = 2f64.powi(-50);
    for apply in [apply_hann as fn(&mut Vec<Double>, &[Double]), apply_hamming] {
        for (a, b) in [(0.25, 0.25), (0.3, 0.3 + 1e-13), (-1.0, -1.0 + 1e-3), (1.0, -1.0)] {
            let mut h = ones(2);
            apply(&mut h, &[d(a), d(b)]);
            assert!((f(h[0]) - f(h[1])).abs() <= (a - b).abs() + tiny);
        }
    }
}

#[test]
fn dolph_and_kaiser_run_and_are_symmetric() {
    let mut h = ones(33);
    apply_kaiser(&mut h, d(beta(120.0, 0.1)));
    let h = read(&h);
    for i in 0..h.len() {
        assert!((h[i] - h[h.len() - 1 - i]).abs() < 1e-9);
    }
    let mut h = ones(33);
    apply_dolph(&mut h, d(b0(126.0, 33)));
    let h = read(&h);
    for i in 0..h.len() {
        assert!((h[i] - h[h.len() - 1 - i]).abs() < 1e-9);
    }
}

fn machine_bessel(x: f64) -> f64 {
    let mut term = 1.0;
    let mut sum = 1.0;
    let x2 = x / 2.0;
    let mut i = 1;
    loop {
        let y = x2 / i as f64;
        i += 1;
        let last = sum;
        term *= y * y;
        sum += term;
        if !(sum > last) {
            return sum;
        }
    }
}

#[test]
fn the_cosine_windows_agree_with_their_formulas() {
    for n in [2usize, 3, 9, 64, 101] {
        let m = (n - 1) as f64;
        let mut h = ones(n);
        hann(&mut h);
        let mut g = ones(n);
        hamming(&mut g);
        for i in 0..n {
            let x = 2.0 * std::f64::consts::PI * i as f64 / m;
            assert_eq!(f(h[i]).to_bits(), (1.0 * (0.5 - 0.5 * x.cos())).to_bits());
            assert_eq!(f(g[i]).to_bits(), (1.0 * (0.53836 - 0.46164 * x.cos())).to_bits());
        }
    }
}

#[test]
fn the_bartlett_window_agrees_with_its_formula() {
    for n in [2usize, 3, 16, 17] {
        let mut h = ones(n);
        apply_bartlett(&mut h);
        let m = (n - 1) as f64;
        for i in 0..n {
            let w = 2.0 / m * (m / 2.0 - (i as f64 - m / 2.0).abs());
            assert_eq!(f(h[i]).to_bits(), w.to_bits());
        }
    }
}

#[test]
fn the_kaiser_window_agrees_with_its_formula() {
    let b = beta(126.0, 0.1);
    let n = 65usize;
    let m = (n - 1) as f64;
    let mut h = ones(n);
    apply_kaiser(&mut h, d(b));
    for i in 0..n {
        let x = 2.0 * i as f64 / m - 1.0;
        let w = machine_bessel(b * (1.0 - x * x).sqrt()) / machine_bessel(b);
        assert_eq!(f(h[i]).to_bits(), w.to_bits());
    }
}

#[test]
fn the_bessel_series_agrees_with_the_machine() {
    for x in [0.0, 0.3, 1.0, 7.5, 13.25, 40.0] {
        assert_eq!(f(bessel_i0(d(x))).to_bits(), machine_bessel(x).to_bits());
    }
    assert!(f(bessel_i0(d(f64::NAN))).is_nan());
    assert_eq!(f(bessel_i0(d(f64::INFINITY))), f64::INFINITY);
}

#[test]
fn the_kaiser_shape_has_four_branches() {
    assert_eq!(beta(20.96, 0.1), 0.0);
    let att: f64 = 30.0;
    assert_eq!(beta(att, 0.1), 0.58417 * (att - 20.96).powf(0.4) + 0.07886 * (att - 20.96));
    assert_eq!(beta(55.0, 0.1), 0.1102 * (55.0 - 8.7));
    let att = 120.0;
    let realm: f64 = (0.1f64 / 0.0005).ln() / 2f64.ln();
    assert_eq!(realm as i32, 7);
    let c0 = [-9.965946e-08, 5.073548e-05, 0.1040967, -0.7672778 + 0.085];
    let c1 = [1.604808e-07, -5.856462e-05, 0.1185998, -1.34824 + 0.1];
    let v0 = ((c0[0] * att + c0[1]) * att + c0[2]) * att + c0[3];
    let v1 = ((c1[0] * att + c1[1]) * att + c1[2]) * att + c1[3];
    assert_eq!(beta(att, 0.1), v0 + (v1 - v0) * (realm - 7.0));
}

#[test]
fn the_dolph_window_agrees_with_its_formula() {
    for n in [2i32, 3, 16, 33, 64] {
        let att = 126.0;
        let nf = n as f64;
        let b0 = b0(att, n as usize);
        let c = 1.0 - 1.0 / (b0 * b0);
        let mut want = vec![1.0; n as usize];
        let mut norm = 0.0;
        let mut i = (n - 1) / 2;
        while i >= 0 {
            let fi = i as f64;
            let mut sum = if i == 0 { 1.0 } else { 0.0 };
            let mut t = 1.0;
            let mut b = 1.0;
            let mut j = 1i32;
            while j <= i && sum != t {
                let fj = j as f64;
                t = sum;
                b *= c * (nf - fi - fj) * (1.0 / fj);
                sum += b;
                b *= (fi - fj) * (1.0 / fj);
                j += 1;
            }
            sum /= nf - 1.0 - fi;
            norm = if norm != 0.0 { norm } else { sum };
            sum /= norm;
            want[i as usize] *= sum;
            want[(n - 1 - i) as usize] *= sum;
            i -= 1;
        }
        let mut h = ones(n as usize);
        apply_dolph(&mut h, d(b0));
        for k in 0..n as usize {
            assert_eq!(f(h[k]).to_bits(), want[k].to_bits(), "point {k} of {n}");
        }
    }
}

#[test]
fn the_windows_follow_one_another() {
    let order = [
        WindowType::Hann,
        WindowType::Hamming,
        WindowType::Bartlett,
        WindowType::Rectangular,
        WindowType::Kaiser,
        WindowType::Dolph,
    ];
    let names = ["Hann", "Hamming", "Bartlett", "Rectangular", "Kaiser", "Dolph"];
    for i in 0..6 {
        assert!(next_window(order[i]) == order[(i + 1) % 6]);
        assert_eq!(order[i].name(), names[i]);
    }
}

#[test]
fn a_range_limits() {
    assert_eq!(range_limit(-3, 0, 9), 0);
    assert_eq!(range_limit(4, 0, 9), 4);
    assert_eq!(range_limit(12, 0, 9), 9);
    assert_eq!(range_limit(5, 7, 3), 3);
}

#[test]
fn fractions_are_nearest() {
    assert_eq!(f(fraction(1, 10)), 0.1);
    assert_eq!(f(fraction(-58417, 100000)), -0.58417);
}

fn values(cfg: &Config, n: usize) -> Values {
    let att = f(attenuation(cfg));
    Values {
        cosines: cosines(n),
        octaves: d((0.1f64 / 0.0005).ln() / 2f64.ln()),
        power: d((att - 20.96).powf(0.4)),
        b0: d(b0(att, n)),
    }
}

#[test]
fn a_whole_window_is_scaled_to_its_sum() {
    let cfg = Config::default();
    let n = 64i32;
    assert_eq!(window_span(n, 0), (0, 65));
    let w = Window::make(&cfg, n, 0, &values(&cfg, 65));
    let mut want: Vec<f64> = vec![1.0; 65];
    let mut sum = 0.0;
    for i in 0..65 {
        let x = 2.0 * std::f64::consts::PI * i as f64 / 64.0;
        want[i] *= 0.5 - 0.5 * x.cos();
        if i < 64 {
            sum += want[i];
        }
    }
    assert_eq!(f(w.density), sum);
    let scale = 2.0 / sum * (1.0 * 1.0);
    for i in 0..64 {
        assert_eq!(f(w.weights[i]).to_bits(), (want[i] * scale).to_bits());
    }
    assert_eq!(f(w.weights[64]), want[64]);
    let frame: Vec<i32> = (0..64).map(|i| i * 31415926 - 1000000000).collect();
    let weighted = w.weigh(&frame);
    for i in 0..64 {
        let x = frame[i] as f64 * (1.0 / 2147483648.0) * f(w.weights[i]);
        assert_eq!(f(weighted[i]).to_bits(), x.to_bits());
    }
}

#[test]
fn a_window_over_part_of_a_frame_is_scaled_up() {
    let mut cfg = Config::default();
    cfg.win_type = WindowType::Bartlett;
    for end in [-40, -1, 0, 7, 64] {
        let (off, n) = window_span(64, end);
        assert_eq!(n as i32, 65 - end.abs());
        assert_eq!(off as i32, end.max(0));
        let w = Window::make(&cfg, 64, end, &values(&cfg, n));
        let mut h = ones(n);
        if n > 1 {
            apply_bartlett(&mut h);
        }
        let mut want = vec![0.0; 65];
        for i in 0..n {
            want[off + i] = f(h[i]);
        }
        let sum: f64 = want[..64].iter().fold(0.0, |a, b| a + b);
        let part = (n as f64 - 1.0) / 64.0;
        let scale = 2.0 / sum * (part * part);
        if n > 1 {
            assert_eq!(f(w.density).to_bits(), sum.to_bits());
            for i in 0..64 {
                assert_eq!(f(w.weights[i]).to_bits(), (want[i] * scale).to_bits(), "{i} of {end}");
            }
        }
    }
}
