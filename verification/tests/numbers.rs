use tone::cadence::{frame_due, Double};
use tone::histogram::{histogram, nearest_notes, Tally};
use tone::notes::{push_decimal, NOTE_NAMES};
use tone::order::select;
use tone::pitch::{CLARITY_FLOOR, K_SUB, LEAST_GATE, MAX_HZ, MIN_HZ, START_GATE};
use tone::plot::{
    grid, line_kind, GridLine, LineKind, CENTER_NOTES, CENTER_PRESETS, RANGE_OCTAVES,
    RANGE_PRESETS,
};
use tone::reference::Reference;
use tone::{note_name, Single};

fn s(x: f32) -> Single {
    Single { bits: x.to_bits() }
}

fn f(x: Single) -> f32 {
    f32::from_bits(x.bits)
}

/// Numbers of every kind: zeros, subnormals, halves, large ones, infinities, NaN.
fn samples() -> Vec<f32> {
    let mut all: Vec<f32> = vec![
        0.0, 1.0e-45, 1.0e-40, 1.17549435e-38, 1.0e-10, 0.25, 0.49999997, 0.5, 0.50000006, 0.75,
        1.0, 1.5, 2.5, 3.4999998, 68.5, 69.49, 8388607.5, 8388608.0, 16777215.0, 16777216.0,
        2147483500.0, 2147483648.0, 4294967296.0, 9.2e18, 1.8446744e19, 1.0e20, f32::MAX,
        f32::INFINITY, f32::NAN,
    ];
    let negated: Vec<f32> = all.iter().map(|x| -x).collect();
    all.extend(negated);
    all
}

#[test]
fn comparisons_are_those_of_floats() {
    for &a in &samples() {
        for &b in &samples() {
            assert_eq!(s(a).lt(s(b)), a < b, "{} < {}", a, b);
            assert_eq!(s(a).le(s(b)), a <= b, "{} <= {}", a, b);
            assert_eq!(s(a).same(s(b)), a == b, "{} == {}", a, b);
        }
        assert_eq!(s(a).is_nan(), a.is_nan());
    }
}

#[test]
fn whole_numbers_are_those_of_floats() {
    for &a in &samples() {
        assert_eq!(s(a).floor_usize(), a.floor() as usize, "floor {}", a);
        assert_eq!(s(a).round_usize(), a.round() as usize, "round {}", a);
        assert_eq!(s(a).floor_i32(), a.floor() as i32, "floor {}", a);
        assert_eq!(s(a).ceil_i32(), a.ceil() as i32, "ceil {}", a);
        assert_eq!(s(a).round_i32(), a.round() as i32, "round {}", a);
        if a.is_nan() {
            assert!(s(a).round().is_nan());
        } else {
            assert_eq!(s(a).round().bits, a.round().to_bits(), "round {}", a);
        }
    }
}

#[test]
fn rounding_sweep() {
    let mut bits: u32 = 0;
    while bits < 0x7f80_0000 {
        for &pattern in &[bits, bits | 0x8000_0000] {
            let x = f32::from_bits(pattern);
            assert_eq!(s(x).round().bits, x.round().to_bits());
            assert_eq!(s(x).round_i32(), x.round() as i32);
            assert_eq!(s(x).floor_i32(), x.floor() as i32);
            assert_eq!(s(x).ceil_i32(), x.ceil() as i32);
        }
        bits += 104_729;
    }
}

#[test]
fn size_and_limits() {
    assert_eq!(f(s(-3.5).abs()), 3.5);
    assert_eq!(f(s(3.5).abs()), 3.5);
    assert_eq!(f(s(1.0).max(s(2.0))), 2.0);
    assert_eq!(f(s(2.0).max(s(1.0))), 2.0);
    assert_eq!(f(s(f32::NAN).max(s(1.0))), 1.0);
    assert_eq!(f(s(1.0).max(s(f32::NAN))), 1.0);
    assert_eq!(f(s(5.0).clamp(s(1.0), s(6.0))), 5.0);
    assert_eq!(f(s(0.5).clamp(s(1.0), s(6.0))), 1.0);
    assert_eq!(f(s(7.0).clamp(s(1.0), s(6.0))), 6.0);
    assert!(s(f32::NAN).clamp(s(1.0), s(6.0)).is_nan());
}

#[test]
fn sixteen_bit_samples() {
    for x in i16::MIN..=i16::MAX {
        assert_eq!(Single::from_i16(x).bits, (x as f32 / 32768.0).to_bits());
    }
    for x in 0..=u16::MAX {
        assert_eq!(
            Single::from_u16(x).bits,
            ((x as f32 - 32768.0) / 32768.0).to_bits()
        );
    }
    assert_eq!(f(Single::from_i16(-32768)), -1.0);
    assert_eq!(f(Single::from_i16(16384)), 0.5);
    // One level, signed and unsigned, is one number.
    assert_eq!(Single::from_u16(0x8000 + 77), Single::from_i16(77));
}

#[test]
fn constants_are_the_numbers_they_name() {
    assert_eq!(f32::from_bits(MIN_HZ), 60.0);
    assert_eq!(f32::from_bits(MAX_HZ), 1200.0);
    assert_eq!(f32::from_bits(K_SUB), 0.88);
    assert_eq!(f32::from_bits(CLARITY_FLOOR), 0.85);
    assert_eq!(f32::from_bits(START_GATE), 0.0001);
    assert_eq!(f32::from_bits(LEAST_GATE), 1e-6);
    assert_eq!(f32::from_bits(tone::arith::TWO), 2.0);
    assert_eq!(f32::from_bits(tone::arith::HALF), 0.5);
    assert_eq!(f32::from_bits(tone::pitch::DECIBELS), 20.0);
    assert_eq!(f32::from_bits(tone::pitch::TEN), 10.0);
    assert_eq!(f32::from_bits(tone::notes::CONCERT_HZ), 440.0);
    assert_eq!(f32::from_bits(tone::notes::CONCERT_MIDI), 69.0);
    assert_eq!(f32::from_bits(tone::notes::SEMITONES), 12.0);
    assert_eq!(f32::from_bits(tone::notes::CENTS), 100.0);
    assert_eq!(f32::from_bits(tone::tone::TURN), std::f32::consts::TAU);
    assert_eq!(f32::from_bits(tone::tone::FADE), 0.0008);
    assert_eq!(f32::from_bits(tone::analysis::UI_HZ), 60.0);
    assert_eq!(f32::from_bits(tone::analysis::DEFAULT_GATE), 0.001);
    assert_eq!(f32::from_bits(tone::analysis::HUNDRED), 100.0);
    assert_eq!(f32::from_bits(tone::analysis::OCTAVE_SLACK), 1.5);
    assert_eq!(f32::from_bits(tone::plot::SCALE_WIDTH), 50.0);
    assert_eq!(f32::from_bits(tone::plot::HALF_OCTAVE), 6.0);
    assert_eq!(f32::from_bits(tone::plot::SCROLL), 0.02);
    assert_eq!(f32::from_bits(tone::arith::UNIT), 1.0);
    assert_eq!(f32::from_bits(tone::arith::MINUS_UNIT), -1.0);
    assert_eq!(f32::from_bits(tone::plot::CENTER_MIN), 30.0);
    assert_eq!(f32::from_bits(tone::plot::CENTER_MAX), 90.0);
    assert_eq!(f32::from_bits(tone::plot::RANGE_MIN), 1.0);
    assert_eq!(f32::from_bits(tone::plot::RANGE_MAX), 6.0);
    for k in 0..5 {
        assert_eq!(f32::from_bits(CENTER_PRESETS[k]), CENTER_NOTES[k] as f32);
    }
    for k in 0..4 {
        assert_eq!(f32::from_bits(RANGE_PRESETS[k]), RANGE_OCTAVES[k] as f32);
    }
    assert_eq!(f64::from_bits(tone::cadence::FRAME_TIME), 1.0 / 60.0f32 as f64);
}

#[test]
fn note_names() {
    assert_eq!(note_name(69), "A4");
    assert_eq!(note_name(60), "C4");
    assert_eq!(note_name(48), "C3");
    assert_eq!(note_name(61), "C#4");
    assert_eq!(note_name(0), "C-1");
    assert_eq!(note_name(11), "B-1");
    assert_eq!(note_name(-1), "B-2");
    assert_eq!(note_name(127), "G9");
    assert_eq!(note_name(i32::MAX), "G178956969");
    assert_eq!(note_name(i32::MIN), "E-178956972");
    assert_eq!(NOTE_NAMES[9], "A");
}

#[test]
fn note_names_by_formatting() {
    for midi in -500..500i32 {
        let class = ((midi % 12) + 12) % 12;
        let octave = midi.div_euclid(12) - 1;
        assert_eq!(note_name(midi), format!("{}{}", NOTE_NAMES[class as usize], octave));
    }
}

#[test]
fn octave_keeps_the_pitch_class() {
    assert_eq!(note_name(52), "E3");
    assert_eq!(note_name(64), "E4");
    assert_ne!(note_name(52), note_name(53));
}

#[test]
fn decimals() {
    for &n in &[0i64, 7, 10, 99, 100, -1, -10, 65535, i64::MAX, i64::MIN + 1] {
        let mut text = String::from("n=");
        push_decimal(&mut text, n);
        assert_eq!(text, format!("n={}", n));
    }
}

#[test]
fn selection_is_a_stable_sort() {
    let xs: Vec<Single> = [3.0, -0.0, 0.0, 2.0, -1.0, 0.0, -0.0, 3.0, f32::INFINITY]
        .iter()
        .map(|&x| s(x))
        .collect();
    let mut order: Vec<usize> = (0..xs.len()).collect();
    order.sort_by(|&i, &j| f(xs[i]).partial_cmp(&f(xs[j])).unwrap());
    for k in 0..xs.len() {
        assert_eq!(select(&xs, k), order[k]);
    }
    // The places are in order.
    for k in 1..xs.len() {
        assert!(xs[select(&xs, k - 1)].le(xs[select(&xs, k)]));
    }
}

#[test]
fn minority_does_not_move_the_middle() {
    let xs: Vec<Single> = [50.0, 38.0, 50.1, 62.0, 49.9].iter().map(|&x| s(x)).collect();
    let middle = f(xs[select(&xs, 2)]);
    assert!(49.9 <= middle && middle <= 50.1);
}

#[test]
fn histogram_by_frequency_then_note() {
    let mut notes: Vec<i32> = Vec::new();
    for note in 40..52 {
        for _ in 0..(note % 5 + 1) {
            notes.push(note);
        }
    }
    notes.reverse();
    let rows = histogram(&notes);
    assert_eq!(rows.len(), 8);
    let expected: Vec<(i32, usize)> = vec![
        (44, 5), (49, 5), (43, 4), (48, 4), (42, 3), (47, 3), (41, 2), (46, 2),
    ];
    for (row, want) in rows.iter().zip(expected) {
        assert_eq!((row.note, row.frames), want);
    }
    assert_eq!(histogram(&[]), vec![]);
    assert_eq!(
        histogram(&[7, 7, -3]),
        vec![Tally { note: 7, frames: 2 }, Tally { note: -3, frames: 1 }]
    );
}

#[test]
fn notes_nearest_to_pitches() {
    let pitches = vec![s(59.5), s(60.49), s(-0.5), s(0.49)];
    assert_eq!(nearest_notes(&pitches), vec![60, 60, -1, 0]);
}

#[test]
fn frames_come_sixty_times_a_second() {
    for &t in &[
        0.0,
        -0.0,
        -1.0,
        0.016,
        0.0166666,
        1.0 / 60.0,
        0.0166667,
        0.017,
        5.0,
        f64::INFINITY,
        f64::NEG_INFINITY,
        f64::NAN,
        -f64::NAN,
        5e-324,
    ] {
        let due = frame_due(Double { bits: t.to_bits() });
        assert_eq!(due, !(t < 1.0 / 60.0), "{}", t);
    }
}

#[test]
fn grid_lines() {
    assert_eq!(
        grid(s(67.2), s(72.0)),
        vec![
            GridLine { note: 68, kind: LineKind::Plain },
            GridLine { note: 69, kind: LineKind::Concert },
            GridLine { note: 70, kind: LineKind::Plain },
            GridLine { note: 71, kind: LineKind::Plain },
            GridLine { note: 72, kind: LineKind::Octave },
        ]
    );
    assert_eq!(grid(s(-0.5), s(0.5)), vec![GridLine { note: 0, kind: LineKind::Octave }]);
    assert_eq!(grid(s(3.2), s(3.8)), vec![]);
    assert_eq!(grid(s(5.0), s(1.0)), vec![]);
    assert_eq!(line_kind(-12), LineKind::Octave);
    assert_eq!(line_kind(-11), LineKind::Plain);
}

#[test]
fn target_by_clicks_and_drags() {
    let mut r = Reference::new();
    assert_eq!(r, Reference { target: None, on: false });
    assert_eq!(r.target_name(), None);
    r.switch(true);
    assert!(!r.on);
    r.click(s(57.0));
    assert_eq!(r, Reference { target: Some(s(57.0)), on: true });
    assert_eq!(r.target_name(), Some("A3".to_string()));
    r.click(s(57.0));
    assert_eq!(r, Reference { target: Some(s(57.0)), on: false });
    r.click(s(57.0));
    assert_eq!(r, Reference { target: Some(s(57.0)), on: true });
    r.click(s(58.0));
    assert_eq!(r, Reference { target: Some(s(58.0)), on: true });
    r.switch(false);
    assert!(!r.on);
    r.drag(s(58.0));
    assert_eq!(r, Reference { target: Some(s(58.0)), on: true });
    r.drag(s(60.0));
    assert_eq!(r, Reference { target: Some(s(60.0)), on: true });
    // Zero is one note, whatever its sign.
    r.click(s(0.0));
    r.click(s(-0.0));
    assert_eq!(r, Reference { target: Some(s(0.0)), on: false });
}

#[test]
fn basic_operations_round_as_singles_do() {
    let mut state = 7u32;
    let mut next = || {
        state = state.wrapping_mul(1664525).wrapping_add(1013904223);
        let scale = (2.0f32).powi((state >> 24) as i32 % 40 - 20);
        ((state >> 8) as i32 % 0x8000 - 0x4000) as f32 * scale
    };
    let near = |r: f32, exact: f64| {
        let off = (r as f64 - exact).abs();
        off * 16777216.0 <= exact.abs() + 16777216.0 * (2.0f64).powi(-149)
    };
    for _ in 0..20000 {
        let (a, b) = (next(), next());
        assert!(near(a + b, a as f64 + b as f64));
        assert!(near(a - b, a as f64 - b as f64));
        assert!(near(a * b, a as f64 * b as f64));
        if b > 0.0 {
            assert!(near(a / b, a as f64 / b as f64));
        }
        assert_eq!((2.0 * a) * (2.0 * b), 4.0 * (a * b));
        assert_eq!(4.0 * a + 4.0 * b, 4.0 * (a + b));
        assert_eq!((4.0 * a.abs()).sqrt(), 2.0 * a.abs().sqrt());
        if b != 0.0 {
            assert_eq!((4.0 * a) / b, 4.0 * (a / b));
            assert_eq!((2.0 * (4.0 * a)) / (4.0 * b), (2.0 * a) / b);
        }
    }
}
