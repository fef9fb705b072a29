use tone::analysis::{
    analyze, artifacts, faults, hop, is_orderly, median, options, percent, pitches, shown_pitches, smooth,
    time, timeline, track, Artifacts, Estimate, Fault, Label, Options, Row,
};
use tone::arith::Arithmetic;
use tone::histogram::{histogram, nearest_notes};
use tone::history::{is_votable, smooth_at, vote, History, Segment, HIST_LEN};
use tone::notes::{midi_to_hz, readout, Readout};
use tone::plot::{grid, Area, Point, Viewport};
use tone::reference::{Gesture, Reference};
use tone::wav::{is_intact, read_wav, WavError};
use tone::{detect_pitch, hz_to_midi, Single, Tone, FRAME_SIZE};

/// Floating point as the machine does it, with one pattern for every NaN.
struct Hardware;

fn s(x: f32) -> Single {
    if x.is_nan() {
        Single { bits: 0x7fc0_0000 }
    } else {
        Single { bits: x.to_bits() }
    }
}

fn f(x: Single) -> f32 {
    f32::from_bits(x.bits)
}

impl Arithmetic for Hardware {
    fn plus(a: Single, b: Single) -> Single {
        s(f(a) + f(b))
    }
    fn minus(a: Single, b: Single) -> Single {
        s(f(a) - f(b))
    }
    fn times(a: Single, b: Single) -> Single {
        s(f(a) * f(b))
    }
    fn over(a: Single, b: Single) -> Single {
        s(f(a) / f(b))
    }
    fn root(a: Single) -> Single {
        s(f(a).sqrt())
    }
    fn log2(a: Single) -> Single {
        s(f(a).log2())
    }
    fn log10(a: Single) -> Single {
        s(f(a).log10())
    }
    fn power(a: Single, b: Single) -> Single {
        s(f(a).powf(f(b)))
    }
    fn sine(a: Single) -> Single {
        s(f(a).sin())
    }
    fn of_u64(n: u64) -> Single {
        s(n as f32)
    }
    fn of_i32(n: i32) -> Single {
        s(n as f32)
    }
}

fn all(xs: &[f32]) -> Vec<Single> {
    xs.iter().map(|&x| s(x)).collect()
}

/// A track, with 0 for an unvoiced frame.
fn frames(xs: &[f32]) -> Vec<Option<Single>> {
    xs.iter().map(|&x| if x == 0.0 { None } else { Some(s(x)) }).collect()
}

fn chunk(id: &[u8], body: &[u8]) -> Vec<u8> {
    let mut out = id.to_vec();
    out.extend((body.len() as u32).to_le_bytes());
    out.extend(body);
    if body.len() % 2 == 1 {
        out.push(0);
    }
    out
}

fn format_chunk(tag: u16, channels: u16, rate: u32, bits: u16) -> Vec<u8> {
    let mut body: Vec<u8> = Vec::new();
    body.extend(tag.to_le_bytes());
    body.extend(channels.to_le_bytes());
    body.extend(rate.to_le_bytes());
    body.extend(0u32.to_le_bytes());
    body.extend(0u16.to_le_bytes());
    body.extend(bits.to_le_bytes());
    chunk(b"fmt ", &body)
}

fn file(chunks: &[Vec<u8>]) -> Vec<u8> {
    let mut out: Vec<u8> = b"RIFF\0\0\0\0WAVE".to_vec();
    for c in chunks {
        out.extend(c);
    }
    while out.len() < 44 {
        out.push(0);
    }
    out
}

fn read(b: &[u8]) -> Result<(Vec<Single>, u32), WavError> {
    assert!(is_intact(b));
    read_wav::<Hardware>(b)
}

fn ints(xs: &[i16]) -> Vec<u8> {
    xs.iter().flat_map(|x| x.to_le_bytes()).collect()
}

fn floats(xs: &[f32]) -> Vec<u8> {
    xs.iter().flat_map(|x| x.to_le_bytes()).collect()
}

#[test]
fn sixteen_bit_mono_file() {
    let b = file(&[format_chunk(1, 1, 48000, 16), chunk(b"data", &ints(&[0, 16384, -32768]))]);
    assert_eq!(read(&b), Ok((all(&[0.0, 0.5, -1.0]), 48000)));
}

#[test]
fn float_stereo_file() {
    let b = file(&[
        format_chunk(3, 2, 44100, 32),
        chunk(b"data", &floats(&[0.5, 0.25, -1.0, 0.0, 0.75])),
    ]);
    // The last frame is not whole.
    assert_eq!(read(&b), Ok((all(&[0.375, -0.5]), 44100)));
}

#[test]
fn other_chunks_are_skipped() {
    let b = file(&[
        chunk(b"LIST", b"abc"),
        format_chunk(1, 1, 8000, 16),
        chunk(b"fact", b"1234"),
        chunk(b"data", &ints(&[8192])),
        chunk(b"LIST", b"x"),
        chunk(b"data", &ints(&[-8192])),
    ]);
    assert_eq!(read(&b), Ok((all(&[0.25, -0.25]), 8000)));
}

#[test]
fn format_may_change_between_data() {
    let b = file(&[
        format_chunk(1, 1, 8000, 16),
        chunk(b"data", &ints(&[8192])),
        format_chunk(3, 2, 16000, 32),
        chunk(b"data", &floats(&[1.0, 2.0])),
    ]);
    assert_eq!(read(&b), Ok((all(&[0.25, 1.5]), 16000)));
}

#[test]
fn no_channels_count_as_one() {
    let b = file(&[format_chunk(1, 0, 8000, 16), chunk(b"data", &ints(&[8192, 16384]))]);
    assert_eq!(read(&b), Ok((all(&[0.25, 0.5]), 8000)));
}

#[test]
fn data_cut_short_is_read_as_far_as_it_goes() {
    let mut b = file(&[format_chunk(1, 1, 8000, 16), chunk(b"data", &ints(&[8192, 16384, 1]))]);
    b.truncate(b.len() - 3);
    assert_eq!(read(&b), Ok((all(&[0.25]), 8000)));
    let n = b.len();
    b[40..44].copy_from_slice(&u32::MAX.to_le_bytes());
    assert_eq!(n, b.len());
    assert_eq!(read(&b), Ok((all(&[0.25]), 8000)));
}

#[test]
fn not_a_wave_file() {
    assert_eq!(read(b""), Err(WavError::NotWave));
    let mut b = file(&[format_chunk(1, 1, 8000, 16), chunk(b"data", &ints(&[1]))]);
    assert_eq!(read(&b[..43]), Err(WavError::NotWave));
    b[9] = b'a';
    assert_eq!(read(&b), Err(WavError::NotWave));
    b[9] = b'A';
    b[0] = b'r';
    assert_eq!(read(&b), Err(WavError::NotWave));
    assert_eq!(WavError::NotWave.message(), "not a RIFF/WAVE file");
}

#[test]
fn unsupported_samples() {
    let b = file(&[format_chunk(1, 1, 8000, 24), chunk(b"data", &[1, 2, 3])]);
    let error = WavError::Unsupported { tag: 1, bits: 24 };
    assert_eq!(read(&b), Err(error));
    assert_eq!(error.message(), "unsupported wav format tag/bits: (1, 24)");
    // Data before any format.
    let b = file(&[chunk(b"data", &ints(&[1])), format_chunk(1, 1, 8000, 16)]);
    let error = WavError::Unsupported { tag: 0, bits: 0 };
    assert_eq!(read(&b), Err(error));
    assert_eq!(error.message(), "unsupported wav format tag/bits: (0, 0)");
}

#[test]
fn no_format() {
    let b = file(&[chunk(b"LIST", &[0; 40])]);
    assert_eq!(read(&b), Err(WavError::NoFormat));
    let b = file(&[format_chunk(1, 1, 0, 16), chunk(b"data", &ints(&[1]))]);
    assert_eq!(read(&b), Err(WavError::NoFormat));
    assert_eq!(WavError::NoFormat.message(), "no fmt chunk");
}

#[test]
fn format_cut_short() {
    let mut b = file(&[chunk(b"LIST", &[0; 20]), format_chunk(1, 1, 8000, 16)]);
    b.truncate(b.len() - 1);
    assert!(!is_intact(&b));
    // One that is never reached does no harm.
    let mut b = file(&[chunk(b"data", &[0; 20]), format_chunk(1, 1, 8000, 16)]);
    b.truncate(b.len() - 1);
    assert!(is_intact(&b));
    assert_eq!(read(&b), Err(WavError::Unsupported { tag: 0, bits: 0 }));
    assert!(is_intact(b"RIFF"));
}

#[test]
fn votes() {
    assert_eq!(vote(&frames(&[1.0, 2.0])), None);
    assert_eq!(vote(&frames(&[3.0, 0.0, 1.0, 0.0, 2.0])), Some(s(2.0)));
    assert_eq!(vote(&frames(&[4.0, 3.0, 0.0, 1.0, 2.0])), Some(s(3.0)));
    assert_eq!(vote(&frames(&[5.0, 4.0, 3.0, 2.0, 1.0])), Some(s(3.0)));
    assert_eq!(vote(&[]), None);
}

#[test]
fn filter_removes_spikes_and_keeps_the_note() {
    let raw = frames(&[50.0, 50.0, 50.0, 38.0, 38.0, 50.0, 50.0, 50.0]);
    let shown = smooth(&raw);
    assert_eq!(shown, frames(&[50.0; 8]));
    let raw = frames(&[0.0, 0.0, 62.0, 62.0, 0.0, 0.0, 0.0, 0.0]);
    assert_eq!(smooth(&raw), frames(&[0.0; 8]));
    let raw = frames(&[50.0, 51.0, 52.0, 53.0, 54.0]);
    assert_eq!(smooth_at(&raw, 0), Some(s(51.0)));
    assert_eq!(smooth_at(&raw, 2), Some(s(52.0)));
    assert_eq!(smooth_at(&raw, 4), Some(s(53.0)));
    assert_eq!(smooth_at(&raw, 6), None);
    assert_eq!(smooth_at(&raw, usize::MAX), None);
}

#[test]
fn filter_keeps_slides() {
    let rising = frames(&[50.0, 50.2, 50.4, 50.4, 51.0, 52.0, 53.0]);
    let falling: Vec<Option<Single>> = rising.iter().rev().copied().collect();
    for raw in [rising, falling] {
        let shown = smooth(&raw);
        assert_eq!(shown[2..5], raw[2..5]);
    }
}

#[test]
fn filter_outvotes_and_invents_nothing() {
    // three voiced frames around the first one, one of them an octave up
    let raw = frames(&[50.0, 62.0, 50.1, 0.0, 50.2]);
    let shown = smooth(&raw);
    assert_eq!(shown[0], Some(s(50.1)));
    assert!(shown.iter().flatten().all(|m| raw.contains(&Some(*m))));
    assert!(is_orderly(&shown));
}

#[test]
fn history_turns() {
    let mut history = History::new();
    assert_eq!(history.median5(HIST_LEN - 1), None);
    assert!(history.trace().is_empty());
    for k in 0..HIST_LEN + 7 {
        history.push(Some(s(k as f32)));
    }
    assert_eq!(history.median5(0), Some(s(8.0)));
    assert_eq!(history.median5(2), Some(s(9.0)));
    assert_eq!(history.median5(HIST_LEN - 1), Some(s((HIST_LEN + 5) as f32)));
    assert_eq!(history.median5(HIST_LEN + 1), None);
    assert!(history.is_orderly());
    let trace = history.trace();
    assert_eq!(trace.len(), HIST_LEN - 1);
    assert_eq!(trace[5].index, 6);
    assert_eq!(trace[5].from, s(12.0));
    assert_eq!(trace[5].to, s(13.0));
}

#[test]
fn history_records_what_is_heard() {
    let mut history = History::new();
    history.record::<Hardware>(s(440.0));
    history.record::<Hardware>(s(440.0));
    assert_eq!(history.median5(HIST_LEN - 1), None);
    history.record::<Hardware>(s(440.0));
    assert_eq!(history.median5(HIST_LEN - 1), Some(s(69.0)));
    history.record::<Hardware>(s(0.0));
    history.record::<Hardware>(s(-5.0));
    history.record::<Hardware>(s(220.0));
    history.record::<Hardware>(s(220.0));
    history.record::<Hardware>(s(220.0));
    assert_eq!(history.median5(HIST_LEN - 1), Some(s(57.0)));
    assert_eq!(history.median5(HIST_LEN - 4), Some(s(57.0)));
    assert_eq!(history.median5(HIST_LEN - 7), Some(s(69.0)));
    let last: Segment = *history.trace().last().unwrap();
    assert_eq!(last, Segment { index: HIST_LEN - 1, from: s(57.0), to: s(57.0) });
}

#[test]
fn history_with_a_gap_breaks_the_trace() {
    let mut history = History::new();
    for k in 0..30 {
        history.push(if (10..20).contains(&k) { None } else { Some(s(40.0)) });
    }
    let trace = history.trace();
    let indices: Vec<usize> = trace.iter().map(|p| p.index - (HIST_LEN - 30)).collect();
    // Shown are frames 0 to 9 and 20 to 29.
    let expected: Vec<usize> = (1..10).chain(21..30).collect();
    assert_eq!(indices, expected);
}

#[test]
fn history_that_cannot_be_ordered() {
    let mut history = History::new();
    let nan = Some(Single { bits: 0x7fc0_0000 });
    history.push(nan);
    history.push(Some(s(50.0)));
    assert!(history.is_orderly());
    assert_eq!(history.median5(HIST_LEN - 1), None);
    history.push(Some(s(50.0)));
    assert!(!history.is_orderly());
    assert!(is_orderly(&[None, nan]));
    assert!(is_orderly(&[nan, None, nan, None, None, nan]));
    assert!(!is_orderly(&[Some(s(1.0)), None, nan, None, Some(s(2.0))]));
    assert!(is_votable(&[Some(s(1.0)), nan]));
    assert!(!is_votable(&[Some(s(1.0)), nan, Some(s(1.0))]));
    assert!(is_orderly(&frames(&[1.0, 0.0])));
    assert!(is_orderly(&[]));
}

#[test]
fn history_hears() {
    let window: Vec<Single> = (0..FRAME_SIZE)
        .map(|i| s((std::f32::consts::TAU * 220.0 * i as f32 / 48000.0).sin() * 0.3))
        .collect();
    let (hz, _, _) = detect_pitch::<Hardware>(&window, 48000, s(0.001));
    let mut history = History::new();
    for _ in 0..3 {
        history.hear::<Hardware>(&window, 48000, s(0.001));
    }
    assert_eq!(history.median5(HIST_LEN - 1), Some(hz_to_midi::<Hardware>(hz)));
    for _ in 0..3 {
        history.hear::<Hardware>(&window, 48000, s(1.0));
    }
    assert_eq!(history.median5(HIST_LEN - 1), None);
}

#[test]
fn display_and_analyzer_agree() {
    let raw: Vec<Option<Single>> = (0..HIST_LEN + 50)
        .map(|k| if k % 7 == 3 { None } else { Some(s((k * k % 31) as f32)) })
        .collect();
    let shown = smooth(&raw);
    let mut history = History::new();
    for &frame in &raw {
        history.push(frame);
    }
    for i in 2..HIST_LEN - 2 {
        assert_eq!(history.median5(i), shown[50 + i]);
    }
}

#[test]
fn readouts() {
    assert_eq!(readout::<Hardware>(s(69.0)), Readout { hz: s(440.0), note: 69, cents: 0 });
    let r = readout::<Hardware>(s(57.25));
    assert_eq!((r.note, r.cents), (57, 25));
    let r = readout::<Hardware>(s(56.75));
    assert_eq!((r.note, r.cents), (57, -25));
    assert_eq!(midi_to_hz::<Hardware>(s(57.0)), s(220.0));
}

#[test]
fn viewport_is_held_to_its_limits() {
    let mut v = Viewport::new();
    assert_eq!((f(v.center()), f(v.range())), (48.0, 3.0));
    assert_eq!((f(v.low::<Hardware>()), f(v.high::<Hardware>())), (30.0, 66.0));
    v.pan::<Hardware>(s(100.0));
    assert_eq!(f(v.center()), 48.0 + 100.0 * 0.02);
    v.pan::<Hardware>(s(0.0));
    assert_eq!(f(v.center()), 48.0 + 100.0 * 0.02);
    v.pan::<Hardware>(s(1.0e6));
    assert_eq!(f(v.center()), 90.0);
    v.pan::<Hardware>(s(-1.0e6));
    assert_eq!(f(v.center()), 30.0);
    v.zoom::<Hardware>(s(1.0));
    assert_eq!(f(v.range()), 3.0);
    v.zoom::<Hardware>(s(2.0));
    assert_eq!(f(v.range()), 1.5);
    v.zoom::<Hardware>(s(2.0));
    assert_eq!(f(v.range()), 1.0);
    v.zoom::<Hardware>(s(0.001));
    assert_eq!(f(v.range()), 6.0);
    v.choose_center(3);
    v.choose_range(0);
    assert_eq!((f(v.center()), f(v.range())), (67.0, 2.0));
}

fn area() -> Area {
    Area { left: s(10.0), top: s(20.0), right: s(860.0), bottom: s(380.0) }
}

#[test]
fn places_on_the_plot() {
    let v = Viewport::new();
    let a = area();
    assert_eq!(f(a.edge::<Hardware>()), 810.0);
    assert_eq!(f(a.height_of::<Hardware>(&v, s(30.0))), 380.0);
    assert_eq!(f(a.height_of::<Hardware>(&v, s(48.0))), 200.0);
    assert_eq!(f(a.height_of::<Hardware>(&v, s(66.0))), 20.0);
    let p = a.place::<Hardware>(&v, 0, s(48.0));
    assert_eq!(p, Point { x: s(10.0), y: s(200.0) });
    let p = a.place::<Hardware>(&v, HIST_LEN - 1, s(48.0));
    assert_eq!(p, Point { x: s(810.0), y: s(200.0) });
    assert_eq!(f(a.note_at::<Hardware>(&v, s(200.0))), 48.0);
    assert_eq!(f(a.note_at::<Hardware>(&v, s(204.0))), 48.0);
    assert_eq!(f(a.note_at::<Hardware>(&v, s(206.0))), 47.0);
}

#[test]
fn lookup_undoes_drawing() {
    let mut v = Viewport::new();
    let a = Area { left: s(3.3), top: s(41.7), right: s(1090.0), bottom: s(587.1) };
    for scroll in [0.0f32, 37.0, -611.0, 1999.0] {
        v.pan::<Hardware>(s(scroll));
        for pinch in [1.0f32, 0.7, 3.1] {
            v.zoom::<Hardware>(s(pinch));
            for line in grid(v.low::<Hardware>(), v.high::<Hardware>()) {
                let midi = s(line.note as f32);
                let at = Point { x: s(400.0), y: a.height_of::<Hardware>(&v, midi) };
                assert_eq!(a.note_at::<Hardware>(&v, at.y), midi);
                let mut r = Reference::new();
                r.follow::<Hardware>(&v, &a, Gesture { dragged: false, clicked: true, at: Some(at) });
                assert_eq!((r.target, r.on), (Some(midi), true));
            }
        }
    }
}

#[test]
fn gestures() {
    let v = Viewport::new();
    let a = area();
    let on = |x: f32, y: f32| Some(Point { x: s(x), y: s(y) });
    let mut r = Reference::new();
    r.follow::<Hardware>(&v, &a, Gesture { dragged: false, clicked: true, at: on(100.0, 200.0) });
    assert_eq!(r, Reference { target: Some(s(48.0)), on: true });
    r.follow::<Hardware>(&v, &a, Gesture { dragged: false, clicked: true, at: on(300.0, 201.0) });
    assert_eq!(r, Reference { target: Some(s(48.0)), on: false });
    r.follow::<Hardware>(&v, &a, Gesture { dragged: true, clicked: false, at: on(810.0, 190.0) });
    assert_eq!(r, Reference { target: Some(s(49.0)), on: true });
    // On the scale, or nowhere, or not at all: nothing happens.
    let before = r;
    r.follow::<Hardware>(&v, &a, Gesture { dragged: true, clicked: true, at: on(811.0, 100.0) });
    r.follow::<Hardware>(&v, &a, Gesture { dragged: true, clicked: true, at: None });
    r.follow::<Hardware>(&v, &a, Gesture { dragged: false, clicked: false, at: on(1.0, 1.0) });
    assert_eq!(r, before);
}

#[test]
fn tone_follows_the_target() {
    let mut tone = Tone::new();
    let mut r = Reference::new();
    r.steer::<Hardware>(&mut tone, s(0.6));
    assert_eq!((f(tone.freq()), f(tone.gain())), (440.0, 0.0));
    r.click(s(57.0));
    r.steer::<Hardware>(&mut tone, s(0.6));
    assert_eq!((f(tone.freq()), f(tone.gain())), (220.0, 0.6));
    r.click(s(57.0));
    r.steer::<Hardware>(&mut tone, s(0.6));
    assert_eq!((f(tone.freq()), f(tone.gain())), (220.0, 0.0));
}

fn args(words: &[&str]) -> (Vec<String>, Vec<Option<Single>>) {
    let words: Vec<String> = words.iter().map(|w| w.to_string()).collect();
    let numbers = words.iter().map(|w| w.parse::<f32>().ok().map(s)).collect();
    (words, numbers)
}

#[test]
fn command_lines() {
    let (a, n) = args(&["analyze"]);
    assert_eq!(options(&a, &n), None);
    let (a, n) = args(&["analyze", "5"]);
    assert_eq!(options(&a, &n), Some(Options { gate: s(0.001), timeline: false }));
    let (a, n) = args(&["analyze", "a.wav", "x", "0.008", "0.5", "--timeline"]);
    assert_eq!(options(&a, &n), Some(Options { gate: s(0.008), timeline: true }));
    let (a, n) = args(&["analyze", "a.wav", "--timelines"]);
    assert_eq!(options(&a, &n), Some(Options { gate: s(0.001), timeline: false }));
}

#[test]
fn recording_tracked() {
    assert_eq!(hop::<Hardware>(48000), 800);
    assert_eq!(hop::<Hardware>(44100), 735);
    assert_eq!(hop::<Hardware>(22050), 368);
    let samples: Vec<Single> = (0..12000)
        .map(|i| s((std::f32::consts::TAU * 220.0 * i as f32 / 48000.0).sin() * 0.3))
        .collect();
    let heard = track::<Hardware>(&samples, 48000, s(0.001), FRAME_SIZE, 800);
    assert_eq!(heard.len(), (12000 - FRAME_SIZE) / 800 + 1);
    for (k, e) in heard.iter().enumerate() {
        assert_eq!(e.start, k * 800);
        let window = &samples[e.start..e.start + FRAME_SIZE];
        assert_eq!((e.hz, e.clarity, e.level), detect_pitch::<Hardware>(window, 48000, s(0.001)));
    }
    let raw = pitches::<Hardware>(&heard);
    assert!(is_orderly(&raw));
    let shown = smooth(&raw);
    let found = shown_pitches(&shown);
    assert_eq!(found.len(), heard.len());
    let held = median(&found).unwrap();
    assert_eq!(held.round_i32(), 57);
    assert_eq!(artifacts::<Hardware>(&found, held).off_semi, 0);
    assert_eq!(faults::<Hardware>(&shown, held), vec![]);
    assert_eq!(time::<Hardware>(24000, 48000), s(0.5));
}

#[test]
fn recording_analyzed() {
    let samples: Vec<Single> = (0..12000)
        .map(|i| s((std::f32::consts::TAU * 220.0 * i as f32 / 48000.0).sin() * 0.3))
        .collect();
    let a = analyze::<Hardware>(&samples, 48000, s(0.001), FRAME_SIZE).unwrap();
    let heard = track::<Hardware>(&samples, 48000, s(0.001), FRAME_SIZE, 800);
    assert_eq!(a.heard, heard);
    assert_eq!(a.shown, smooth(&pitches::<Hardware>(&heard)));
    let found = shown_pitches(&a.shown);
    let v = a.verdict.unwrap();
    assert_eq!(v.voiced, found.len());
    assert_eq!(Some(v.held), median(&found));
    assert_eq!(v.artifacts, artifacts::<Hardware>(&found, v.held));
    assert_eq!(v.notes, histogram(&nearest_notes(&found)));
    assert_eq!((v.notes.len(), v.notes[0].note), (1, 57));
    // silence: nothing to grade
    let a = analyze::<Hardware>(&all(&[0.0; 8000]), 48000, s(0.001), FRAME_SIZE).unwrap();
    assert!(a.verdict.is_none() && a.heard.len() == 5);
    // frames that do not move on
    assert!(analyze::<Hardware>(&all(&[0.0; 8]), 29, s(0.001), 4).is_none());
    assert!(analyze::<Hardware>(&all(&[0.0; 8]), 29, s(0.001), 9).unwrap().heard.is_empty());
}

#[test]
fn recording_too_short() {
    assert!(track::<Hardware>(&all(&[0.0; 10]), 48000, s(0.001), 11, 800).is_empty());
    let heard = track::<Hardware>(&all(&[0.0; 10]), 48000, s(0.001), 4, 3);
    assert_eq!(heard.iter().map(|e| e.start).collect::<Vec<_>>(), vec![0, 3, 6]);
    let heard = track::<Hardware>(&all(&[0.0; 2]), 48000, s(0.001), 0, 1);
    assert_eq!(heard.len(), 3);
    assert!(track::<Hardware>(&all(&[0.0; 10]), 10, s(0.001), 11, 0).is_empty());
    assert_eq!(median(&[]), None);
    assert_eq!(median(&all(&[4.0, 1.0])), Some(s(4.0)));
}

#[test]
fn artifacts_counted() {
    let found = all(&[50.0, 50.4, 50.6, 38.2, 62.0, 61.0, 49.4]);
    assert_eq!(
        artifacts::<Hardware>(&found, s(50.0)),
        Artifacts {
            off_semi: 5,
            octave_low: 1,
            octave_high: 2,
            max_dev: s(12.0),
        }
    );
    assert_eq!(percent::<Hardware>(5, 8), s(62.5));
    let shown = frames(&[50.0, 0.0, 51.0, 48.0]);
    assert_eq!(
        faults::<Hardware>(&shown, s(50.0)),
        vec![Fault { index: 2, dev: s(1.0) }, Fault { index: 3, dev: s(-2.0) }]
    );
}

#[test]
fn timelines() {
    let quiet = Estimate { start: 0, hz: s(0.0), clarity: s(0.0), level: s(0.0001) };
    let loud = Estimate { start: 0, hz: s(0.0), clarity: s(0.0), level: s(0.1) };
    let rows = timeline(&[quiet, loud, loud], &frames(&[0.0, 0.0, 50.0]), s(0.001));
    assert_eq!(
        rows,
        vec![
            Row { index: 0, label: Label::Silence },
            Row { index: 1, label: Label::Unvoiced },
            Row { index: 2, label: Label::Voiced { pitch: s(50.0) } },
        ]
    );
    let many = vec![loud; 185];
    let rows = timeline(&many, &vec![None; 185], s(0.001));
    let indices: Vec<usize> = rows.iter().map(|r| r.index).collect();
    let expected: Vec<usize> = (0..185).filter(|i| i % 3 == 0).collect();
    assert_eq!(indices, expected);
    assert!(timeline(&[], &[], s(0.001)).is_empty());
}
