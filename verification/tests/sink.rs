use ricecomp::log_noop;
use ricecomp::read::{DecodeError, RCDecoder};
use ricecomp::sink::{Callback, LogSink};
use ricecomp::write::RCEncoder;
use std::sync::{Arc, Mutex};

fn recorder() -> (Arc<Mutex<Vec<String>>>, impl Fn(&str) + Send + Sync + 'static) {
    let log = Arc::new(Mutex::new(Vec::new()));
    let sink = log.clone();
    (log, move |msg: &str| sink.lock().unwrap().push(msg.to_string()))
}

#[test]
fn the_silent_sink_takes_any_message() {
    log_noop("");
    log_noop("decompression error: hit end of compressed byte stream");
}

#[test]
fn a_callback_hands_each_message_on() {
    let (log, f) = recorder();
    let sink = Callback::new(f);
    sink.log("one");
    sink.log("two");
    assert_eq!(*log.lock().unwrap(), vec!["one".to_string(), "two".to_string()]);
}

#[test]
fn the_end_of_the_buffer_is_reported_to_the_sink() {
    let (log, f) = recorder();
    let mut decoder = RCDecoder::new();
    decoder.set_log_fn(f);
    let mut out = Vec::new();
    let r = decoder.decode(&[0, 0, 0, 1], 4, 2, &mut out);
    assert_eq!(r, Err(DecodeError::EndOfBuffer));
    assert_eq!(
        *log.lock().unwrap(),
        vec!["decompression error: hit end of compressed byte stream".to_string()]
    );
}

#[test]
fn unused_bytes_are_reported_to_the_sink_and_are_no_error() {
    let (log, f) = recorder();
    let mut decoder = RCDecoder::new();
    decoder.set_log_fn(f);
    let mut out = Vec::new();
    let r = decoder.decode_byte(&[254, 0, 9, 9], 1, 7, &mut out);
    assert_eq!(r, Ok(()));
    assert_eq!(out, vec![254]);
    assert_eq!(
        *log.lock().unwrap(),
        vec!["decompression warning: unused bytes at end of compressed buffer".to_string()]
    );
}

#[test]
fn a_stream_read_to_its_end_is_not_reported() {
    let (log, f) = recorder();
    let mut decoder = RCDecoder::new();
    decoder.set_log_fn(f);
    let mut out = Vec::new();
    assert_eq!(decoder.decode_short(&[255, 254, 0], 1, 7, &mut out), Ok(()));
    assert_eq!(out, vec![0xfffe]);
    assert!(log.lock().unwrap().is_empty());
}

#[test]
fn a_plain_function_can_be_the_sink() {
    let mut decoder = RCDecoder::new();
    decoder.set_log_fn(log_noop);
    let mut out = Vec::new();
    assert_eq!(decoder.decode(&[], 1, 1, &mut out), Err(DecodeError::EndOfBuffer));
    let f: fn(&str) = log_noop;
    let mut encoder = RCEncoder::new();
    encoder.set_log_fn(f);
    let mut bytes = Vec::new();
    assert_eq!(encoder.encode(&[1, 2, 3], 3, 2, &mut bytes), Ok(7));
}

#[test]
fn encoding_reports_nothing() {
    let (log, f) = recorder();
    let mut encoder = RCEncoder::new();
    encoder.set_log_fn(f);
    let mut bytes = Vec::new();
    assert!(encoder.encode(&[1, -2, 3000, -40000], 4, 3, &mut bytes).is_ok());
    let empty: [i32; 0] = [];
    assert!(encoder.encode(&empty, 0, 3, &mut bytes).is_err());
    assert!(log.lock().unwrap().is_empty());
}
