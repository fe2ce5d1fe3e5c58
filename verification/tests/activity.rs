use clipclip::vad::{keep, keep_by_verdicts, speech_windows, EnergyGate, KeepAll, SPEECH_WINDOW};

fn tone(n: usize, amp: f32) -> Vec<f32> {
    (0..n)
        .map(|i| amp * (2.0 * std::f32::consts::PI * 440.0 * i as f32 / 16_000.0).sin())
        .collect()
}

fn loud(threshold_dbfs: f32) -> impl Fn(&[f32]) -> bool {
    let threshold = 10f32.powf(threshold_dbfs / 20.0);
    move |w: &[f32]| {
        let sum_sq: f32 = w.iter().map(|x| x * x).sum();
        (sum_sq / w.len() as f32).sqrt() >= threshold
    }
}

fn enough(ratio: f32) -> impl Fn(usize, usize) -> bool {
    move |active: usize, total: usize| (active as f32 / total as f32) >= ratio
}

#[test]
fn energy_gate_rejects_silence_keeps_loud() {
    let g = EnergyGate::new(16_000, loud(-50.0), enough(0.0));
    assert!(!g.is_active(&vec![0.0f32; 16_000]));
    assert!(g.is_active(&tone(16_000, 0.3)));
}

#[test]
fn min_active_ratio_drops_mostly_silent() {
    let total = 16_000 * 30;
    let mut buf = vec![0.0f32; total];
    let t = tone(total / 50, 0.3); // ~2% active
    buf[..t.len()].copy_from_slice(&t);
    assert!(EnergyGate::new(16_000, loud(-50.0), enough(0.0)).is_active(&buf));
    assert!(!EnergyGate::new(16_000, loud(-50.0), enough(0.05)).is_active(&buf));
}

#[test]
fn windows_last_twenty_milliseconds() {
    // 320 samples at 16 kHz: of 1000 samples, three full windows and a part of one.
    let seen = std::cell::RefCell::new(Vec::new());
    let g = EnergyGate::new(
        16_000,
        |w: &[i32]| {
            seen.borrow_mut().push((w[0], w.len()));
            w[0] == 640
        },
        |active, total| active == 1 && total == 4,
    );
    let samples: Vec<i32> = (0..1000).collect();
    assert!(g.is_active(&samples));
    assert_eq!(*seen.borrow(), vec![(0, 320), (320, 320), (640, 320), (960, 40)]);
    // A window has at least one sample.
    let tiny = EnergyGate::new(49, |w: &[i32]| w.len() == 1, |active, total| active == total);
    assert!(tiny.is_active(&[1, 2, 3]));
}

#[test]
fn no_active_window_is_never_enough() {
    assert!(!keep(0, 10, &enough(0.0)));
    assert!(!keep(0, 0, &enough(0.0)));
    assert!(keep(1, 10, &enough(0.1)));
    assert!(!keep(1, 10, &enough(0.2)));
    assert!(!keep_by_verdicts(&[false, false], &enough(0.0)));
    assert!(keep_by_verdicts(&[false, true, true, false], &enough(0.5)));
    assert!(!keep_by_verdicts(&[], &enough(0.0)));
}

#[test]
fn keep_all_keeps_all() {
    assert!(KeepAll.is_active(&[0.0f32]));
    let nothing: [f32; 0] = [];
    assert!(KeepAll.is_active(&nothing));
}

#[test]
fn speech_windows_are_filled_up() {
    let samples: Vec<f32> = vec![0.5; SPEECH_WINDOW + 3];
    let windows = speech_windows(&samples);
    assert_eq!(windows.len(), 2);
    assert_eq!(windows[0], vec![0.5; SPEECH_WINDOW]);
    let mut last = vec![0.0; SPEECH_WINDOW];
    last[0] = 0.5;
    last[1] = 0.5;
    last[2] = 0.5;
    assert_eq!(windows[1], last);
    let none: [f32; 0] = [];
    assert!(speech_windows(&none).is_empty());
}
