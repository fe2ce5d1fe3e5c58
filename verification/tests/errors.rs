use clipclip::error::Error;
use clipclip::recording::{control_result, start_result, Outcome};

#[test]
fn errors_read_as_sentences() {
    let cases = vec![
        (Error::NoDevice("microphone"), "no microphone device available"),
        (Error::Device("mic config: gone".to_string()), "audio device error: mic config: gone"),
        (Error::Stream("play mic".to_string()), "could not build audio stream: play mic"),
        (
            Error::DeviceLost("[mic] unplugged".to_string()),
            "audio device lost during recording: [mic] unplugged",
        ),
        (Error::Resample("1->2: x".to_string()), "resampler error: 1->2: x"),
        (Error::Encode("full".to_string()), "encoding error: full"),
        (Error::Vad("no model".to_string()), "voice activity detector error: no model"),
        (Error::Config("bad".to_string()), "invalid configuration: bad"),
        (Error::NotRunning, "recording is not running"),
        (Error::StartTimeout, "timed out starting audio capture"),
        (Error::WorkerPanicked, "recording worker panicked"),
        (Error::Io("denied".to_string()), "io error: denied"),
    ];
    for (error, text) in cases {
        assert_eq!(error.message(), text);
    }
}

#[test]
fn stop_is_ok_after_clean_stop() {
    assert!(Outcome::new(None).stop().is_ok());
}

#[test]
fn stop_reports_device_fault() {
    let mut outcome = Outcome::new(Some(Error::DeviceLost("[mic] disconnected".into())));
    assert!(matches!(outcome.stop(), Err(Error::DeviceLost(_))));
}

#[test]
fn the_first_cause_is_reported_once() {
    let mut outcome = Outcome::new(None);
    outcome.finish(Some("[mic] disconnected".to_string()));
    outcome.panicked();
    match outcome.stop() {
        Err(Error::DeviceLost(why)) => assert_eq!(why, "[mic] disconnected"),
        other => panic!("{:?}", other),
    }
    assert!(outcome.stop().is_ok());
}

#[test]
fn a_panic_alone_is_reported() {
    let mut outcome = Outcome::new(None);
    outcome.finish(None);
    outcome.panicked();
    assert!(matches!(outcome.stop(), Err(Error::WorkerPanicked)));
}

#[test]
fn starting_reports_what_the_worker_said() {
    assert!(start_result(Some(Ok(()))).is_ok());
    assert!(matches!(
        start_result(Some(Err(Error::NoDevice("microphone")))),
        Err(Error::NoDevice("microphone"))
    ));
    assert!(matches!(start_result(None), Err(Error::StartTimeout)));
}

#[test]
fn controls_need_a_running_worker() {
    assert!(control_result(true).is_ok());
    assert!(matches!(control_result(false), Err(Error::NotRunning)));
}
