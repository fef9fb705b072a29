use tone::arith::{mix_down, Arithmetic};
use tone::pitch::{correct_octave, decibels_to_gate, gate_to_decibels, highest_score, tallest_peak};
use tone::tone::Oscillator;
use tone::{detect_pitch, hz_to_midi, Shared, Single, Tone, FRAME_SIZE};

/// Floating point as the machine does it, with one pattern for every NaN.
struct Hardware;

fn s(x: f32) -> Single {
    if x.is_nan() {
        Single { bits: 0x7fc0_0000 }
    } else {
        Single { bits: x.to_bits() }
    }
}

fn f(x: Single) -> f32 {
    f32::from_bits(x.bits)
}

impl Arithmetic for Hardware {
    fn plus(a: Single, b: Single) -> Single {
        s(f(a) + f(b))
    }
    fn minus(a: Single, b: Single) -> Single {
        s(f(a) - f(b))
    }
    fn times(a: Single, b: Single) -> Single {
        s(f(a) * f(b))
    }
    fn over(a: Single, b: Single) -> Single {
        s(f(a) / f(b))
    }
    fn root(a: Single) -> Single {
        s(f(a).sqrt())
    }
    fn log2(a: Single) -> Single {
        s(f(a).log2())
    }
    fn log10(a: Single) -> Single {
        s(f(a).log10())
    }
    fn power(a: Single, b: Single) -> Single {
        s(f(a).powf(f(b)))
    }
    fn sine(a: Single) -> Single {
        s(f(a).sin())
    }
    fn of_u64(n: u64) -> Single {
        s(n as f32)
    }
    fn of_i32(n: i32) -> Single {
        s(n as f32)
    }
}

fn all(xs: &[f32]) -> Vec<Single> {
    xs.iter().map(|&x| s(x)).collect()
}

/// The detector in plain floating point, which follows the parabola wherever it points;
/// and the whole lag that it started from.
fn by_floats(buf: &[f32], sample_rate: u32, rms_gate: f32) -> (f32, f32, f32, usize) {
    let n = buf.len();
    let mut sum_sq = 0.0f32;
    for &x in buf {
        sum_sq += x * x;
    }
    let rms = (sum_sq / n as f32).sqrt();
    if rms < rms_gate {
        return (0.0, 0.0, rms, 0);
    }
    let head = n / 4;
    let mut head_sq = 0.0f32;
    for &x in &buf[..head] {
        head_sq += x * x;
    }
    if (head_sq / head as f32).sqrt() < rms_gate {
        return (0.0, 0.0, rms, 0);
    }
    let sr = sample_rate as f32;
    let min_lag = (sr / 1200.0).floor() as usize;
    let max_lag = (sr / 60.0).floor() as usize;
    if max_lag >= n || min_lag < 1 {
        return (0.0, 0.0, rms, 0);
    }
    let mut nsdf = vec![0.0f32; max_lag + 1];
    for tau in min_lag..=max_lag {
        let mut acf = 0.0f32;
        let mut m = 0.0f32;
        for i in 0..(n - tau) {
            let a = buf[i];
            let b = buf[i + tau];
            acf += a * b;
            m += a * a + b * b;
        }
        nsdf[tau] = if m > 0.0 { 2.0 * acf / m } else { 0.0 };
    }
    let mut tstar = 0usize;
    let mut gmax = 0.0f32;
    for tau in (min_lag + 1)..max_lag {
        if nsdf[tau] > nsdf[tau - 1] && nsdf[tau] >= nsdf[tau + 1] && nsdf[tau] > gmax {
            gmax = nsdf[tau];
            tstar = tau;
        }
    }
    if tstar == 0 || gmax < 0.85 {
        return (0.0, 0.0, rms, 0);
    }
    let mut chosen = tstar;
    for d in 2..=4 {
        let target = tstar / d;
        if target < min_lag {
            break;
        }
        let win = (target / 20).max(2);
        let lo = target.saturating_sub(win).max(min_lag);
        let hi = (target + win).min(max_lag);
        let (mut bv, mut bi) = (0.0f32, target);
        for k in lo..=hi {
            if nsdf[k] > bv {
                bv = nsdf[k];
                bi = k;
            }
        }
        if bv >= 0.88 * gmax {
            chosen = bi;
        }
    }
    let t = chosen;
    let t2 = (t + 1).min(max_lag);
    let (y0, y1, y2) = (nsdf[t - 1], nsdf[t], nsdf[t2]);
    let denom = y0 - 2.0 * y1 + y2;
    let tau = if denom != 0.0 { t as f32 + 0.5 * (y0 - y2) / denom } else { t as f32 };
    (sr / tau, nsdf[t], rms, t)
}

fn same(buf: &[f32], sample_rate: u32, gate: f32) -> (f32, f32, f32) {
    let (hz, clarity, rms) = detect_pitch::<Hardware>(&all(buf), sample_rate, s(gate));
    let want = by_floats(buf, sample_rate, gate);
    let sr = sample_rate as f32;
    let lowest = sr / ((sr / 60.0).floor() + 0.5);
    let highest = sr / ((sr / 1200.0).floor() - 0.5);
    let detectable = want.0 == 0.0 || lowest <= want.0 && want.0 <= highest;
    let heard = if detectable { want.0 } else { sr / want.3 as f32 };
    assert_eq!(hz, s(heard));
    assert_eq!(clarity, s(want.1));
    assert_eq!(rms, s(want.2));
    (heard, want.1, want.2)
}

/// `harmonics[k]` is the strength of the partial `k + 1`.
fn note(hz: f32, harmonics: &[f32], n: usize, sample_rate: u32) -> Vec<f32> {
    (0..n)
        .map(|i| {
            let t = i as f32 / sample_rate as f32;
            harmonics
                .iter()
                .enumerate()
                .map(|(k, h)| h * (std::f32::consts::TAU * hz * (k + 1) as f32 * t).sin())
                .sum::<f32>()
                * 0.2
        })
        .collect()
}

fn assert_hears(buf: &[f32], hz: f32) {
    let (heard, clarity, _) = same(buf, 48000, 0.0001);
    let off = 12.0 * (heard / hz).log2();
    assert!(off.abs() < 0.2, "heard {} for {}", heard, hz);
    assert!(clarity >= 0.85 * 0.88);
}

const D2: f32 = 73.416;
const E3: f32 = 164.814;
const D4: f32 = 293.665;

#[test]
fn sines() {
    for &hz in &[D2, E3, D4] {
        assert_hears(&note(hz, &[1.0], FRAME_SIZE, 48000), hz);
    }
}

#[test]
fn sawtooths() {
    for &hz in &[D2, E3, D4] {
        let partials: Vec<f32> = (1..9).map(|k| 1.0 / k as f32).collect();
        assert_hears(&note(hz, &partials, FRAME_SIZE, 48000), hz);
    }
}

#[test]
fn squares() {
    for &hz in &[D2, E3, D4] {
        let partials = [1.0, 0.0, 1.0 / 3.0, 0.0, 0.2, 0.0, 1.0 / 7.0];
        assert_hears(&note(hz, &partials, FRAME_SIZE, 48000), hz);
    }
}

#[test]
fn missing_fundamental() {
    for &hz in &[E3, D4] {
        assert_hears(&note(hz, &[0.0, 1.0, 0.8, 0.6, 0.4], FRAME_SIZE, 48000), hz);
    }
}

#[test]
fn silence_is_unvoiced() {
    let (hz, clarity, rms) = same(&vec![0.0; FRAME_SIZE], 48000, 0.0001);
    assert_eq!((hz, clarity, rms), (0.0, 0.0, 0.0));
    // With the noise gate wide open nothing in it is periodic.
    same(&vec![0.0; FRAME_SIZE], 48000, 0.0);
}

#[test]
fn below_the_gate_is_unvoiced() {
    let buf = note(E3, &[1.0], FRAME_SIZE, 48000);
    let (hz, clarity, rms) = same(&buf, 48000, 0.5);
    assert_eq!((hz, clarity), (0.0, 0.0));
    assert!(rms > 0.1);
    // Any gate that lets it pass reports it alike.
    assert_eq!(same(&buf, 48000, 0.0001), same(&buf, 48000, 0.1));
}

#[test]
fn onset_is_suppressed() {
    let mut buf = note(E3, &[1.0], FRAME_SIZE, 48000);
    for x in &mut buf[..FRAME_SIZE / 4] {
        *x = 0.0;
    }
    let (hz, clarity, rms) = same(&buf, 48000, 0.0001);
    assert_eq!((hz, clarity), (0.0, 0.0));
    assert!(rms > 0.0001);
}

#[test]
fn noise_is_unvoiced() {
    let mut seed = 12345u32;
    let buf: Vec<f32> = (0..FRAME_SIZE)
        .map(|_| {
            seed = seed.wrapping_mul(1664525).wrapping_add(1013904223);
            (seed >> 8) as f32 / 16777216.0 - 0.5
        })
        .collect();
    let (hz, clarity, _) = same(&buf, 48000, 0.0001);
    assert_eq!((hz, clarity), (0.0, 0.0));
}

#[test]
fn windows_too_short_and_rates_too_low() {
    let buf = note(E3, &[1.0], 400, 48000);
    assert_eq!(same(&buf, 48000, 0.0001).0, 0.0);
    let buf = note(100.0, &[1.0], 400, 1100);
    assert_eq!(same(&buf, 1100, 0.0001).0, 0.0);
    same(&note(100.0, &[1.0], 400, 8000), 8000, 0.0001);
    same(&note(300.0, &[1.0, 0.5], 300, 1300), 1300, 0.0001);
    same(&[], 48000, 0.0001);
    same(&[0.5, 0.5, 0.5], 48000, 0.0001);
    same(&note(100.0, &[1.0], 400, 8000), u32::MAX, 0.0001);
}

#[test]
fn not_numbers_do_no_harm() {
    let mut buf = note(100.0, &[1.0], 400, 8000);
    buf[200] = f32::INFINITY;
    same(&buf, 8000, 0.0001);
    buf[200] = f32::NAN;
    same(&buf, 8000, 0.0001);
    same(&note(100.0, &[1.0], 400, 8000), 8000, f32::NAN);
}

#[test]
fn decaying_string_keeps_its_octave() {
    let strong: Vec<f32> = note(E3, &[0.25, 1.0, 0.4, 0.5, 0.1, 0.2], FRAME_SIZE, 48000);
    assert_hears(&strong, E3);
}

#[test]
fn frequency_stays_in_range() {
    // The best score around a quarter of the period is on a slope, at the edge of the
    // search; the parabola there points to a negative lag and is not followed.
    let triangle = [8.0, 9.0, 10.0, 11.0, 12.0, 11.0, 10.0, 9.0, 8.0, 7.0, 6.0, 5.0, 4.0, 5.0, 6.0, 7.0];
    let buf: Vec<f32> = triangle.iter().chain(triangle.iter()).copied().collect();
    let (hz, clarity, _) = same(&buf, 1200, 0.001);
    assert_eq!(hz, 600.0);
    assert!(clarity > 0.97 && clarity < 0.98);
    assert!(by_floats(&buf, 1200, 0.001).0 < 0.0);
    // Slow walks, at all kinds of rates.
    let mut state = 1u32;
    let mut voiced = 0;
    let mut far = 0;
    for round in 0..400u32 {
        let mut x = 0.0f32;
        let buf: Vec<f32> = (0..300)
            .map(|_| {
                state = state.wrapping_mul(1664525).wrapping_add(1013904223);
                x = 0.95 * x + (state >> 8) as f32 / 8388608.0 - 1.0;
                x + 4.0 * (1 + round % 4) as f32
            })
            .collect();
        let rate = 1200 + 37 * round;
        let (hz, _, _) = same(&buf, rate, 0.001);
        if hz > 0.0 {
            voiced += 1;
            // A parabola that points further than half a sample, but into the range,
            // is followed.
            let whole = by_floats(&buf, rate, 0.001).3 as f32;
            if (rate as f32 / hz - whole).abs() > 0.51 {
                far += 1;
            }
        }
    }
    assert!(voiced > 100 && far > 0);
}

#[test]
fn loudness_and_polarity_do_not_matter() {
    for hz in [D2, E3, D4] {
        let buf = note(hz, &[1.0, 0.5, 0.3], FRAME_SIZE, 48000);
        let (heard, clarity, rms) = same(&buf, 48000, 0.001);
        assert!(heard > 0.0);
        for c in [-1.0f32, 0.5, 4.0, -0.125, 1024.0] {
            let other: Vec<f32> = buf.iter().map(|x| c * x).collect();
            assert_eq!(same(&other, 48000, c.abs() * 0.001), (heard, clarity, c.abs() * rms));
        }
    }
}

fn scores(at: &[(usize, f32)], n: usize) -> Vec<Single> {
    let mut xs = vec![0.0; n];
    for &(k, x) in at {
        xs[k] = x;
    }
    all(&xs)
}

#[test]
fn tallest_peak_is_the_first_of_equals() {
    let xs = scores(&[(20, 0.5), (40, 0.9), (60, 0.9), (80, 0.7)], 101);
    assert_eq!(tallest_peak(&xs, 10, 100), Some(40));
    assert_eq!(tallest_peak(&xs, 40, 100), Some(60));
    assert_eq!(tallest_peak(&xs, 10, 40), Some(20));
    assert_eq!(tallest_peak(&xs, 81, 100), None);
    assert_eq!(tallest_peak(&xs, 100, 10), None);
}

#[test]
fn highest_score_is_the_first_of_equals() {
    let xs = scores(&[(3, 0.5), (5, 0.9), (7, 0.9)], 10);
    assert_eq!(highest_score(&xs, 0, 9), Some(5));
    assert_eq!(highest_score(&xs, 6, 9), Some(7));
    assert_eq!(highest_score(&xs, 8, 9), None);
    assert_eq!(highest_score(&xs, 9, 8), None);
}

#[test]
fn octave_correction() {
    // Nearly as strong at a half: taken. At a third too: the shorter one.
    let xs = scores(&[(600, 1.0), (300, 0.9), (201, 0.89)], 801);
    assert_eq!(correct_octave(&xs, 40, 800, 600, s(0.88)), 201);
    let xs = scores(&[(600, 1.0), (300, 0.9), (201, 0.87)], 801);
    assert_eq!(correct_octave(&xs, 40, 800, 600, s(0.88)), 300);
    // A mere harmonic: kept.
    let xs = scores(&[(600, 1.0), (300, 0.7)], 801);
    assert_eq!(correct_octave(&xs, 40, 800, 600, s(0.88)), 600);
    // More asked, less climbed.
    let xs = scores(&[(600, 1.0), (300, 0.9)], 801);
    assert_eq!(correct_octave(&xs, 40, 800, 600, s(0.95)), 600);
    // A quarter below the range is out.
    let xs = scores(&[(100, 1.0), (25, 0.99)], 801);
    assert_eq!(correct_octave(&xs, 40, 800, 100, s(0.88)), 100);
    // A period of two samples is the one that can get longer.
    let xs = scores(&[(2, 1.0), (3, 2.0)], 11);
    assert_eq!(correct_octave(&xs, 1, 10, 2, s(0.88)), 3);
}

#[test]
fn pitch_on_the_midi_scale() {
    assert_eq!(f(hz_to_midi::<Hardware>(s(440.0))), 69.0);
    assert_eq!(f(hz_to_midi::<Hardware>(s(220.0))), 57.0);
    assert_eq!(f(hz_to_midi::<Hardware>(s(880.0))), 81.0);
}

#[test]
fn scale_rises_by_twelve_an_octave() {
    let mut last = -1.0e9;
    for k in 0..5000 {
        let hz = 20.0 + k as f32 * 0.5;
        let midi = f(hz_to_midi::<Hardware>(s(hz)));
        assert!(last <= midi);
        last = midi;
        assert!((f(hz_to_midi::<Hardware>(s(2.0 * hz))) - (midi + 12.0)).abs() < 0.001);
    }
}

#[test]
fn gate_in_decibels() {
    assert_eq!(f(gate_to_decibels::<Hardware>(s(0.0001))), -80.0);
    assert_eq!(f(gate_to_decibels::<Hardware>(s(0.0))), -120.0);
    assert_eq!(f(decibels_to_gate::<Hardware>(s(-20.0))), 0.1);
    assert_eq!(f(decibels_to_gate::<Hardware>(s(0.0))), 1.0);
}

#[test]
fn window_holds_the_latest_samples() {
    let mut shared = Shared::new();
    let mut out = vec![s(9.0); 4];
    shared.snapshot(&mut out);
    assert_eq!(out, all(&[0.0, 0.0, 0.0, 0.0]));

    // Two channels: means, and the odd sample at the end is dropped.
    shared.push::<Hardware>(&all(&[1.0, 3.0, 2.0, 4.0, 5.0]), 2);
    shared.snapshot(&mut out);
    assert_eq!(out, all(&[0.0, 0.0, 2.0, 3.0]));

    // A whole turn and a bit.
    let many: Vec<f32> = (0..FRAME_SIZE + 3).map(|i| i as f32).collect();
    shared.push::<Hardware>(&all(&many), 1);
    let mut window = vec![s(0.0); FRAME_SIZE];
    shared.snapshot(&mut window);
    assert_eq!(window, all(&many[3..]));

    // A longer buffer keeps its end.
    let mut long = vec![s(-1.0); FRAME_SIZE + 2];
    shared.snapshot(&mut long);
    assert_eq!(&long[..FRAME_SIZE], &window[..]);
    assert_eq!(&long[FRAME_SIZE..], &all(&[-1.0, -1.0])[..]);

    // More channels than samples: nothing comes in.
    shared.push::<Hardware>(&all(&[7.0, 7.0]), 3);
    let mut after = vec![s(0.0); FRAME_SIZE];
    shared.snapshot(&mut after);
    assert_eq!(after, window);
}

#[test]
fn part_of_a_frame_changes_nothing() {
    let mut shared = Shared::new();
    shared.push::<Hardware>(&all(&[0.1, 0.2, 0.3]), 1);
    let mut before = all(&[0.0; FRAME_SIZE]);
    shared.snapshot(&mut before);
    shared.push::<Hardware>(&all(&[0.5, 0.6]), 3);
    shared.push::<Hardware>(&[], 1);
    let mut after = all(&[0.0; FRAME_SIZE]);
    shared.snapshot(&mut after);
    assert_eq!(before, after);
}

#[test]
fn blocks_join() {
    let xs = all(&[1.0, 2.0, 3.0, 4.0, 5.0, 6.0]);
    let mut once = Shared::new();
    once.push::<Hardware>(&xs, 2);
    let mut twice = Shared::new();
    twice.push::<Hardware>(&xs[..4], 2);
    twice.push::<Hardware>(&xs[4..], 2);
    let mut a = vec![s(0.0); FRAME_SIZE];
    let mut b = a.clone();
    once.snapshot(&mut a);
    twice.snapshot(&mut b);
    assert_eq!(a, b);
    assert_eq!(&a[FRAME_SIZE - 3..], &all(&[1.5, 3.5, 5.5])[..]);
    assert_eq!(mix_down::<Hardware>(&xs, 4), all(&[2.5]));
}

#[test]
fn tone_starts_silent_at_concert_pitch() {
    let mut tone = Tone::new();
    assert_eq!(f(tone.freq()), 440.0);
    assert_eq!(f(tone.gain()), 0.0);
    tone.set_freq(s(110.0));
    tone.set_gain(s(0.6));
    assert_eq!(f(tone.freq()), 110.0);
    assert_eq!(f(tone.gain()), 0.6);
}

/// The oscillator in plain floating point.
fn sine_by_floats(freq: f32, target: f32, sample_rate: u32, channels: usize, n: usize) -> Vec<f32> {
    let turn = std::f32::consts::TAU;
    let step = turn * freq / sample_rate as f32;
    let mut phase = 0.0f32;
    let mut gain = 0.0f32;
    let mut out = vec![0.0f32; n];
    for frame in out.chunks_mut(channels) {
        gain += (target - gain) * 0.0008;
        let x = phase.sin() * gain;
        phase += step;
        if phase >= turn {
            phase -= turn;
        }
        for y in frame.iter_mut() {
            *y = x;
        }
    }
    out
}

#[test]
fn oscillator_renders_every_channel() {
    let mut tone = Tone::new();
    tone.set_freq(s(5000.0));
    tone.set_gain(s(0.6));
    let mut oscillator = Oscillator::new();
    let mut out = vec![s(0.0); 1001];
    oscillator.render::<Hardware>(&tone, 48000, 2, &mut out);
    assert_eq!(out, all(&sine_by_floats(5000.0, 0.6, 48000, 2, 1001)));
    assert_eq!(out[0], out[1]);
    assert_ne!(out[500], s(0.0));
}

#[test]
fn oscillator_runs_on_between_buffers() {
    let mut tone = Tone::new();
    tone.set_freq(s(441.0));
    tone.set_gain(s(0.5));
    let mut whole = vec![s(0.0); 600];
    let mut one = Oscillator::new();
    one.render::<Hardware>(&tone, 44100, 2, &mut whole);
    let mut first = vec![s(0.0); 250];
    let mut second = vec![s(0.0); 350];
    let mut two = Oscillator::new();
    two.render::<Hardware>(&tone, 44100, 2, &mut first);
    two.render::<Hardware>(&tone, 44100, 2, &mut second);
    first.extend(second);
    assert_eq!(first, whole);
    assert_eq!(one, two);
}

#[test]
fn fade_never_passes_its_target() {
    let mut o = Oscillator::new();
    for target in [0.6f32, 0.0, 1.0, 0.25] {
        let from = f(o.level);
        for _ in 0..20000 {
            let before = f(o.level);
            o.next::<Hardware>(s(target), s(0.05));
            let after = f(o.level);
            if from <= target {
                assert!(before <= after && after <= target);
            } else {
                assert!(target <= after && after <= before);
            }
        }
        assert!((f(o.level) - target).abs() < 1.0e-3);
    }
}
