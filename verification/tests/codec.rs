use serial_telemetry::decode::decode;
use serial_telemetry::encode::clear_slice;
use serial_telemetry::encode::encode_frame;
use serial_telemetry::encode::write_frame;
use serial_telemetry::extract::eliminate_trailing_characters;
use serial_telemetry::reading::Channel;
use serial_telemetry::reading::Number;
use serial_telemetry::reading::Reading;

fn channel(name: &[u8], neg: bool, int_digits: &[u8], frac_digits: &[u8]) -> Channel {
    let n = Number::from_parts(neg, int_digits.to_vec(), frac_digits.to_vec(), false, Vec::new()).unwrap();
    Channel::new(name.to_vec(), n).unwrap()
}

#[test]
fn encode_single_integer_channel() {
    let mut r = Reading::new();
    let c = Channel::new(b"Temperature 1".to_vec(), Number::from_u64(482)).unwrap();
    r.push(c);
    assert_eq!(encode_frame(&r), b"{\"Temperature 1\":482}\r\n");
}

#[test]
fn encode_multi_channel() {
    let mut r = Reading::new();
    r.push(channel(b"temp", false, b"23", b"5"));
    r.push(channel(b"humidity", false, b"41", b"2"));
    assert_eq!(encode_frame(&r), b"{\"temp\":23.5,\"humidity\":41.2}\r\n");
}

#[test]
fn encode_empty_and_negative() {
    let r = Reading::new();
    assert_eq!(encode_frame(&r), b"{}\r\n");
    let mut r2 = Reading::new();
    r2.push(channel(b"t", true, b"0", b"25"));
    assert_eq!(encode_frame(&r2), b"{\"t\":-0.25}\r\n");
}

#[test]
fn from_u64_digit_text() {
    assert_eq!(Number::from_u64(0).int_digits().as_slice(), b"0");
    assert_eq!(Number::from_u64(7).int_digits().as_slice(), b"7");
    assert_eq!(Number::from_u64(18446744073709551615).int_digits().as_slice(),
        b"18446744073709551615");
    assert!(!Number::from_u64(482).is_negative());
    assert!(Number::from_u64(482).frac_digits().is_empty());
}

#[test]
fn write_frame_fits_and_keeps_tail() {
    let mut r = Reading::new();
    r.push(channel(b"t", false, b"1", b""));
    let mut buf: Vec<u8> = vec![0xAA; 16];
    let n = write_frame(&r, &mut buf).expect("fits");
    assert_eq!(n, 9);
    assert_eq!(&buf[..9], b"{\"t\":1}\r\n");
    assert_eq!(&buf[9..], &[0xAA; 7]);
}

#[test]
fn write_frame_capacity_violation() {
    let mut r = Reading::new();
    r.push(channel(b"channel", false, b"12345", b"678"));
    let mut buf: Vec<u8> = vec![7u8; 4];
    assert!(write_frame(&r, &mut buf).is_none());
    assert_eq!(buf, vec![7u8; 4]);
}

#[test]
fn clear_slice_zeroes_everything() {
    let mut buf: Vec<u8> = b"leftover frame bytes\r\n".to_vec();
    clear_slice(&mut buf);
    assert_eq!(buf, vec![0u8; 22]);
}

#[test]
fn decode_accepts_whitespace_and_empty_object() {
    let r = decode(b"{ \"a\" : 1 , \"b\" : 2.5 }").expect("decodes");
    assert_eq!(r.len(), 2);
    assert_eq!(r.channel_at(0).name().as_slice(), b"a");
    assert_eq!(r.channel_at(1).value().frac_digits().as_slice(), b"5");
    let empty = decode(b"{}").expect("empty object decodes");
    assert_eq!(empty.len(), 0);
    assert_eq!(decode(b"  { }  ").expect("spaced empty").len(), 0);
}

#[test]
fn decode_rejects_malformed() {
    // Truncated payloads.
    assert!(decode(b"").is_none());
    assert!(decode(b"{").is_none());
    assert!(decode(b"{\"a\":1").is_none());
    assert!(decode(b"{\"a\"").is_none());
    assert!(decode(b"{\"a\":}").is_none());
    // Type mismatches: values must be numeric literals.
    assert!(decode(b"{\"a\":\"x\"}").is_none());
    assert!(decode(b"{\"a\":true}").is_none());
    assert!(decode(b"{\"a\":[1]}").is_none());
    // Malformed numbers.
    assert!(decode(b"{\"a\":01}").is_none());
    assert!(decode(b"{\"a\":1.}").is_none());
    assert!(decode(b"{\"a\":.5}").is_none());
    assert!(decode(b"{\"a\":-}").is_none());
    // Non-UTF-8 name bytes.
    assert!(decode(b"{\"\xFF\":1}").is_none());
    assert!(decode(b"{\"a\xC3\":1}").is_none());
    // Trailing bytes after the object.
    assert!(decode(b"{\"a\":1}x").is_none());
    assert!(decode(b"{\"a\":1}{\"b\":2}").is_none());
}

#[test]
fn decode_rejects_bad_utf8_forms() {
    // A surrogate encoding and an overlong encoding are not UTF-8.
    assert!(decode(b"{\"\xED\xA0\x80\":1}").is_none());
    assert!(decode(b"{\"\xC0\x80\":1}").is_none());
    // A truncated multi-byte sequence at the end of the name.
    assert!(decode(b"{\"a\xE2\x82\":1}").is_none());
}

#[test]
fn round_trip_without_garbage() {
    let mut r = Reading::new();
    r.push(channel(b"Temperature 1", false, b"482", b""));
    let frame = encode_frame(&r);
    let slice = eliminate_trailing_characters(&frame);
    let back = decode(slice).expect("own frame decodes");
    assert_eq!(back.len(), 1);
    assert_eq!(back.channel_at(0).name().as_slice(), b"Temperature 1");
    assert_eq!(back.value_of(b"Temperature 1").unwrap().int_digits().as_slice(), b"482");
}

#[test]
fn decode_accepts_utf8_names() {
    let r = decode("{\"temp\u{00b0}C\":21}".as_bytes()).expect("decodes");
    assert_eq!(r.channel_at(0).name().as_slice(), "temp\u{00b0}C".as_bytes());
}

#[test]
fn number_from_parts_validation() {
    assert!(Number::from_parts(false, b"".to_vec(), b"".to_vec(), false, Vec::new()).is_none());
    assert!(Number::from_parts(false, b"01".to_vec(), b"".to_vec(), false, Vec::new()).is_none());
    assert!(Number::from_parts(false, b"1a".to_vec(), b"".to_vec(), false, Vec::new()).is_none());
    assert!(Number::from_parts(false, b"1".to_vec(), b"x".to_vec(), false, Vec::new()).is_none());
    assert!(Number::from_parts(false, b"1".to_vec(), b"".to_vec(), false, b"y".to_vec()).is_none());
    // A negative exponent needs exponent digits.
    assert!(Number::from_parts(false, b"1".to_vec(), b"".to_vec(), true, Vec::new()).is_none());
    assert!(Number::from_parts(false, b"0".to_vec(), b"".to_vec(), false, Vec::new()).is_some());
    assert!(Number::from_parts(true, b"0".to_vec(), b"5".to_vec(), false, Vec::new()).is_some());
    assert!(Number::from_parts(false, b"1".to_vec(), b"5".to_vec(), true, b"10".to_vec()).is_some());
}

#[test]
fn channel_name_validation() {
    // Quotes, backslashes and the escapable controls are fine in a
    // stored name: the encoder escapes them on the wire.
    let n = Number::from_u64(1);
    assert!(Channel::new(b"has \"quote".to_vec(), n).is_some());
    let n = Number::from_u64(1);
    assert!(Channel::new(b"back\\slash".to_vec(), n).is_some());
    let n = Number::from_u64(1);
    assert!(Channel::new(b"tab\there".to_vec(), n).is_some());
    // Controls without an escape form, and invalid UTF-8, are not.
    let n = Number::from_u64(1);
    assert!(Channel::new(b"ctrl\x07byte".to_vec(), n).is_none());
    let n = Number::from_u64(1);
    assert!(Channel::new(b"bad\xFFutf8".to_vec(), n).is_none());
    let n = Number::from_u64(1);
    assert!(Channel::new("ok name \u{00b0}".as_bytes().to_vec(), n).is_some());
}

#[test]
fn value_lookup_by_name() {
    // A repeated channel name reads as a mapping filled by insertion:
    // the last occurrence wins.
    let r = decode(b"{\"temp\":23.5,\"humidity\":41.2,\"temp\":9}").expect("decodes");
    let v = r.value_of(b"temp").expect("temp is present");
    assert_eq!(v.int_digits().as_slice(), b"9");
    assert_eq!(v.frac_digits().as_slice(), b"");
    let h = r.value_of(b"humidity").expect("humidity is present");
    assert_eq!(h.int_digits().as_slice(), b"41");
    assert!(r.value_of(b"pressure").is_none());
}

#[test]
fn decode_exponent_forms() {
    let r = decode(b"{\"a\":1e3,\"b\":2.5E-10,\"c\":7e+2}").expect("decodes");
    assert_eq!(r.len(), 3);
    let a = r.value_of(b"a").unwrap();
    assert_eq!(a.int_digits().as_slice(), b"1");
    assert!(!a.exp_is_negative());
    assert_eq!(a.exp_digits().as_slice(), b"3");
    let b = r.value_of(b"b").unwrap();
    assert_eq!(b.frac_digits().as_slice(), b"5");
    assert!(b.exp_is_negative());
    assert_eq!(b.exp_digits().as_slice(), b"10");
    let c = r.value_of(b"c").unwrap();
    assert!(!c.exp_is_negative());
    assert_eq!(c.exp_digits().as_slice(), b"2");
    // An exponent letter without digits is malformed.
    assert!(decode(b"{\"a\":1e}").is_none());
    assert!(decode(b"{\"a\":1e-}").is_none());
    assert!(decode(b"{\"a\":1ex}").is_none());
}

#[test]
fn encode_exponent_and_round_trip() {
    let mut r = Reading::new();
    let n = Number::from_parts(false, b"1".to_vec(), b"5".to_vec(), true, b"3".to_vec()).unwrap();
    r.push(Channel::new(b"a".to_vec(), n).unwrap());
    let frame = encode_frame(&r);
    assert_eq!(frame, b"{\"a\":1.5e-3}\r\n");
    let back = decode(eliminate_trailing_characters(&frame)).expect("decodes");
    let v = back.value_of(b"a").unwrap();
    assert!(v.exp_is_negative());
    assert_eq!(v.exp_digits().as_slice(), b"3");
}

#[test]
fn decode_escaped_names() {
    let r = decode(b"{\"a\\\"b\":1,\"tab\\there\":2,\"slash\\/ok\":3}").expect("decodes");
    assert_eq!(r.len(), 3);
    assert_eq!(r.channel_at(0).name().as_slice(), b"a\"b");
    assert_eq!(r.channel_at(1).name().as_slice(), b"tab\there");
    assert_eq!(r.channel_at(2).name().as_slice(), b"slash/ok");
    // Unknown escapes and a lone backslash are malformed.
    assert!(decode(b"{\"a\\x\":1}").is_none());
    assert!(decode(b"{\"a\\u0041\":1}").is_none());
    assert!(decode(b"{\"a\\").is_none());
}

#[test]
fn encode_escaped_names_round_trip() {
    let mut r = Reading::new();
    r.push(channel(b"a\"b\\c", false, b"1", b""));
    r.push(channel(b"line\nbreak", false, b"2", b""));
    let frame = encode_frame(&r);
    assert_eq!(frame, b"{\"a\\\"b\\\\c\":1,\"line\\nbreak\":2}\r\n");
    let back = decode(eliminate_trailing_characters(&frame)).expect("decodes");
    assert_eq!(back.channel_at(0).name().as_slice(), b"a\"b\\c");
    assert_eq!(back.channel_at(1).name().as_slice(), b"line\nbreak");
    // A carriage return inside a name leaves escaped, so framing holds.
    let mut r2 = Reading::new();
    r2.push(channel(b"cr\rname", false, b"3", b""));
    let frame2 = encode_frame(&r2);
    assert_eq!(frame2, b"{\"cr\\rname\":3}\r\n");
    let back2 = decode(eliminate_trailing_characters(&frame2)).expect("decodes");
    assert_eq!(back2.channel_at(0).name().as_slice(), b"cr\rname");
}

#[test]
fn encoded_frames_parse_as_json() {
    // The payload our encoder emits is ordinary JSON, so a consumer
    // with a general JSON parser reads it too.
    let mut r = Reading::new();
    r.push(channel(b"temp", false, b"23", b"5"));
    r.push(channel(b"Temperature 1", false, b"482", b""));
    let frame = encode_frame(&r);
    let payload = &frame[..frame.len() - 2];
    let v: serde_json::Value = serde_json::from_slice(payload).expect("valid JSON");
    assert_eq!(v["temp"].as_f64(), Some(23.5));
    assert_eq!(v["Temperature 1"].as_u64(), Some(482));
}

#[test]
fn decodes_what_json_printer_emits() {
    let mut map = serde_json::Map::new();
    map.insert("a".to_string(), serde_json::Value::from(1u64));
    map.insert("b".to_string(), serde_json::Value::from(2.5f64));
    let text = serde_json::to_string(&serde_json::Value::Object(map)).unwrap();
    let r = decode(text.as_bytes()).expect("round trip from JSON text");
    assert_eq!(r.len(), 2);
    assert_eq!(r.channel_at(0).name().as_slice(), b"a");
    assert_eq!(r.channel_at(1).value().int_digits().as_slice(), b"2");
    assert_eq!(r.channel_at(1).value().frac_digits().as_slice(), b"5");
}
