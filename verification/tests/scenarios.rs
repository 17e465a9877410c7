use serial_telemetry::decode::decode;
use serial_telemetry::encode::clear_slice;
use serial_telemetry::encode::encode_frame;
use serial_telemetry::encode::write_frame;
use serial_telemetry::extract::eliminate_trailing_characters;
use serial_telemetry::pipeline::event_name;
use serial_telemetry::pipeline::process_chunk;
use serial_telemetry::pipeline::PipelineStep;
use serial_telemetry::reading::Channel;
use serial_telemetry::reading::Number;
use serial_telemetry::reading::Reading;

fn channel(name: &[u8], neg: bool, int_digits: &[u8], frac_digits: &[u8]) -> Channel {
    let n = Number::from_parts(neg, int_digits.to_vec(), frac_digits.to_vec(), false, Vec::new()).unwrap();
    Channel::new(name.to_vec(), n).unwrap()
}

fn assert_channel(r: &Reading, i: usize, name: &[u8], neg: bool, ip: &[u8], fp: &[u8]) {
    let c = r.channel_at(i);
    assert_eq!(c.name().as_slice(), name);
    assert_eq!(c.value().is_negative(), neg);
    assert_eq!(c.value().int_digits().as_slice(), ip);
    assert_eq!(c.value().frac_digits().as_slice(), fp);
}

#[test]
fn single_channel_end_to_end() {
    let input = b"{\"Temperature 1\":482}\r\n\x00\x00";
    let slice = eliminate_trailing_characters(input);
    assert_eq!(slice, b"{\"Temperature 1\":482}");
    let reading = decode(slice).expect("frame should decode");
    assert_eq!(reading.len(), 1);
    assert_channel(&reading, 0, b"Temperature 1", false, b"482", b"");
    match process_chunk(input) {
        PipelineStep::Publish(r) => {
            assert_eq!(r.len(), 1);
            assert_channel(&r, 0, b"Temperature 1", false, b"482", b"");
        }
        PipelineStep::DecodeFault => panic!("expected a publish"),
    }
    assert_eq!(event_name(), "data_push");
}

#[test]
fn multi_channel_end_to_end() {
    let input = b"{\"temp\":23.5,\"humidity\":41.2}\r\n";
    match process_chunk(input) {
        PipelineStep::Publish(r) => {
            assert_eq!(r.len(), 2);
            assert_channel(&r, 0, b"temp", false, b"23", b"5");
            assert_channel(&r, 1, b"humidity", false, b"41", b"2");
        }
        PipelineStep::DecodeFault => panic!("expected a publish"),
    }
}

#[test]
fn fault_scenario_not_json() {
    let input = b"not-json\r\n";
    match process_chunk(input) {
        PipelineStep::Publish(_) => panic!("expected a decode fault"),
        PipelineStep::DecodeFault => {}
    }
    assert!(decode(eliminate_trailing_characters(input)).is_none());
}

#[test]
fn no_terminator_yields_empty_and_fault() {
    let zeros = [0u8; 32];
    let slice = eliminate_trailing_characters(&zeros);
    assert!(slice.is_empty());
    assert!(decode(slice).is_none());
    let text = b"no terminator here at all";
    assert!(eliminate_trailing_characters(text).is_empty());
    match process_chunk(&zeros) {
        PipelineStep::Publish(_) => panic!("expected a decode fault"),
        PipelineStep::DecodeFault => {}
    }
}

#[test]
fn tie_break_takes_last_terminator() {
    // Two complete frames in one buffer: the extractor lands on the
    // last carriage return, yielding frame A in full plus frame B's
    // payload — a concatenated slice that then fails to decode.
    let buffer = b"{\"channel one\":111}\r\n{\"b\":2}\r\n";
    let slice = eliminate_trailing_characters(buffer);
    assert_eq!(slice, b"{\"channel one\":111}\r\n{\"b\":2}");
    assert!(decode(slice).is_none());
}

#[test]
fn round_trip_with_stale_suffix() {
    let mut reading = Reading::new();
    reading.push(channel(b"temp", false, b"23", b"5"));
    reading.push(channel(b"humidity", true, b"0", b"25"));
    let mut bytes = encode_frame(&reading);
    // Stale terminator-free bytes past the frame, as a reused consumer
    // buffer would hold.
    bytes.extend_from_slice(b"stale tail\x00\x00\x00");
    let slice = eliminate_trailing_characters(&bytes);
    let back = decode(slice).expect("frame should decode");
    assert_eq!(back.len(), 2);
    assert_channel(&back, 0, b"temp", false, b"23", b"5");
    assert_channel(&back, 1, b"humidity", true, b"0", b"25");
}

#[test]
fn buffer_reuse_second_read_shorter() {
    // First cycle: a long frame fills the buffer.
    let mut buf: Vec<u8> = vec![0u8; 64];
    let mut long_reading = Reading::new();
    long_reading.push(channel(b"a long channel name", false, b"123456", b"789"));
    let n1 = write_frame(&long_reading, &mut buf).expect("frame fits");
    assert!(decode(eliminate_trailing_characters(&buf)).is_some());

    // Second cycle without clearing: a shorter frame only partly
    // overwrites, the stale terminator further back wins, and the
    // concatenated slice is a decode fault, not a resurrected frame.
    let mut short_reading = Reading::new();
    short_reading.push(channel(b"b", false, b"2", b""));
    let n2 = write_frame(&short_reading, &mut buf).expect("frame fits");
    assert!(n2 < n1);
    match process_chunk(&buf) {
        PipelineStep::Publish(_) => panic!("stale bytes must not decode as a frame"),
        PipelineStep::DecodeFault => {}
    }

    // With the producer's hygiene step between writes the short frame
    // decodes cleanly.
    clear_slice(&mut buf);
    write_frame(&short_reading, &mut buf).expect("frame fits");
    match process_chunk(&buf) {
        PipelineStep::Publish(r) => {
            assert_eq!(r.len(), 1);
            assert_channel(&r, 0, b"b", false, b"2", b"");
        }
        PipelineStep::DecodeFault => panic!("cleared buffer should decode"),
    }
}
