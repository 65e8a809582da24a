use wialon_protocol::number::{parse_decimal, parse_int};
use wialon_protocol::text::text_in;
use wialon_protocol::{
    decode, encode_response, DataPacket, LoginPacket, AccessError, Decimal, FrameError, GeoPacket, Packet, Params, ResponsePacket,
    ShortDataPacket, Timestamp,
};

const SD: &str = "#SD#280421;055447;5355.09260;N;02732.40990;E;60;0;300;7\r\n";

#[test]
fn login_frame_decodes_and_is_acknowledged() {
    let (res, used) = decode(b"#L#1;1\r\n");
    assert_eq!(used, 8);
    let p = res.unwrap();
    assert!(p.is_auth_packet());
    let auth = p.get_auth_data().unwrap();
    assert_eq!(auth.imei, "1");
    assert_eq!(auth.password, "1");
    assert_eq!(p.response(1).unwrap().to_bytes(), b"#AL#1\r\n".to_vec());
}

#[test]
fn navigation_frame_values() {
    let p = Packet::from(SD.as_bytes()).unwrap();
    let nav = p.get_navigate_data().unwrap();
    assert_eq!(
        nav.timestamp,
        Timestamp { year: 2021, month: 4, day: 28, hour: 5, minute: 54, second: 47 }
    );
    assert_eq!(nav.lat, Decimal { mantissa: 273240990, scale: 7 });
    assert_eq!(nav.lon, Decimal { mantissa: 535509260, scale: 7 });
    assert_eq!((nav.speed, nav.course, nav.height, nav.sats), (60, 0, 300, 7));
    assert_eq!(p.response(1).unwrap().to_string(), "#ASD#1\r\n");
}

#[test]
fn extended_frame_params() {
    let p = Packet::from(
        "#D#280421;055500;5355.09260;N;02732.40990;E;60;0;300;7;22;5;5120;;eee;test1:1:1,var:2:4.5,texttest:3:1\r\n"
            .as_bytes(),
    )
    .unwrap();
    assert_eq!(p.get_extra_param("test1"), Ok(&Params::Int(1)));
    assert_eq!(p.get_extra_param("var"), Ok(&Params::Float(Decimal { mantissa: 45, scale: 1 })));
    assert_eq!(p.get_extra_param("texttest"), Ok(&Params::Int(0)));
    assert_eq!(p.get_extra_param("other"), Err(AccessError::NoSuchParam));
    assert_eq!(p.response(1).unwrap().to_string(), "#AD#1\r\n");
}

#[test]
fn repeated_param_keeps_the_later_value() {
    let p = Packet::from(
        "#D#280421;055500;5355.09260;N;02732.40990;E;60;0;300;7;22;5;5120;;eee;a:1:1,a:1:-7\r\n".as_bytes(),
    )
    .unwrap();
    assert_eq!(p.get_extra_param("a"), Ok(&Params::Int(-7)));
}

#[test]
fn empty_params_field_gives_no_params() {
    let p = Packet::from("#D#280421;055500;5355.09260;N;02732.40990;E;60;0;300;7;1.5;0;0;a;b;\r\n".as_bytes())
        .unwrap();
    assert_eq!(p.get_extra_param("a"), Err(AccessError::NoSuchParam));
}

#[test]
fn accessors_refuse_other_types() {
    let login = Packet::from(b"#L#1;1\r\n").unwrap();
    assert_eq!(login.get_navigate_data().err(), Some(AccessError::WrongType));
    assert_eq!(login.get_extra_param("x"), Err(AccessError::NoExtraData));
    let nav = Packet::from(SD.as_bytes()).unwrap();
    assert_eq!(nav.get_auth_data().err(), Some(AccessError::WrongType));
    assert_eq!(nav.get_extra_param("x"), Err(AccessError::NoExtraData));
}

#[test]
fn first_frame_of_a_message() {
    assert_eq!(Packet::from(b"#L#1;").err(), Some(FrameError::Incomplete));
    assert_eq!(Packet::from(b"#").err(), Some(FrameError::Incomplete));
    let mut both = b"#L#1;1\r\n".to_vec();
    both.extend_from_slice(SD.as_bytes());
    let p = Packet::from(&both).unwrap();
    assert_eq!(p.get_auth_data().unwrap().password, "1");
    let (res, used) = decode(&both);
    assert_eq!(used, 8);
    assert!(res.unwrap().is_auth_packet());
    let (res, used) = decode(&both[8..]);
    assert_eq!(used, SD.len());
    assert_eq!(res.unwrap().get_navigate_data().unwrap().speed, 60);
}

#[test]
fn hdop_with_exponent() {
    let p = Packet::from(
        "#D#280421;055500;5355.09260;N;02732.40990;E;60;0;300;7;1e1;5;5120;;eee;\r\n".as_bytes(),
    )
    .unwrap();
    assert!(p.get_extra_param("x").is_err());
    let (res, _) = decode(b"#D#280421;055500;5355.09260;N;02732.40990;E;60;0;300;7;1e1;5;5120;;eee;\r\n");
    assert!(res.is_ok());
    let d = DataPacket::from(vec![
        "280421", "055500", "5355.09260", "N", "02732.40990", "E", "60", "0", "300", "7", "1e1", "5", "5120", "", "eee",
        "",
    ])
    .unwrap();
    assert_eq!(d.hdop, Decimal { mantissa: 10, scale: 0 });
}

#[test]
fn unknown_param_type_needs_text() {
    let mut frame = b"#D#280421;055500;5355.09260;N;02732.40990;E;60;0;300;7;22;5;5120;;eee;t:3:".to_vec();
    frame.push(0xff);
    frame.extend_from_slice(b"\r\n");
    assert_eq!(Packet::from(&frame).err(), Some(FrameError::FieldError));
}

#[test]
fn incomplete_until_terminator() {
    let (res, used) = decode(b"#L#1;1");
    assert_eq!(res.err(), Some(FrameError::Incomplete));
    assert_eq!(used, 0);
    let (res, used) = decode(b"#L#1;1\r");
    assert_eq!(res.err(), Some(FrameError::Incomplete));
    assert_eq!(used, 0);
    let (res, used) = decode(b"wer\n");
    assert_eq!(res.err(), Some(FrameError::Incomplete));
    assert_eq!(used, 0);
}

#[test]
fn malformed_once_terminated() {
    let (res, used) = decode(b"wer\r\n#L#1;1\r\n");
    assert_eq!(res.err(), Some(FrameError::Malformed));
    assert_eq!(used, 5);
    let (res, used) = decode(b"#L1;1\r\n");
    assert_eq!(res.err(), Some(FrameError::Malformed));
    assert_eq!(used, 7);
    assert_eq!(Packet::from(b"wer\r\n").err(), Some(FrameError::Malformed));
    let first = Packet::from(b"#L#1;1\r\nx").unwrap();
    assert_eq!(first.get_auth_data().unwrap().imei, "1");
}

#[test]
fn wrong_field_count_is_malformed() {
    assert_eq!(Packet::from(b"#L#1\r\n").err(), Some(FrameError::Malformed));
    assert_eq!(Packet::from(b"#L#1;1;1\r\n").err(), Some(FrameError::Malformed));
    assert_eq!(Packet::from(b"#SD#280421;055447\r\n").err(), Some(FrameError::Malformed));
}

#[test]
fn unknown_type() {
    assert_eq!(Packet::from(b"#X#1;1\r\n").err(), Some(FrameError::UnknownType));
    assert_eq!(encode_response(b"X", 1), Err(FrameError::UnknownType));
    assert_eq!(encode_response(b"SD", 1), Ok(b"#ASD#1\r\n".to_vec()));
}

#[test]
fn bad_fields() {
    let bad_hemisphere = "#SD#280421;055447;5355.09260;Q;02732.40990;E;60;0;300;7\r\n";
    assert_eq!(Packet::from(bad_hemisphere.as_bytes()).err(), Some(FrameError::FieldError));
    let bad_number = "#SD#280421;055447;5355.09260;N;02732.40990;E;6x;0;300;7\r\n";
    assert_eq!(Packet::from(bad_number.as_bytes()).err(), Some(FrameError::FieldError));
    let too_fast = "#SD#280421;055447;5355.09260;N;02732.40990;E;40000;0;300;7\r\n";
    assert_eq!(Packet::from(too_fast.as_bytes()).err(), Some(FrameError::FieldError));
    let no_such_day = "#SD#310221;055447;5355.09260;N;02732.40990;E;60;0;300;7\r\n";
    assert_eq!(Packet::from(no_such_day.as_bytes()).err(), Some(FrameError::FieldError));
    let not_utf8 = b"#L#\xff;1\r\n";
    assert_eq!(Packet::from(not_utf8).err(), Some(FrameError::FieldError));
}

#[test]
fn hemispheres_negate_their_own_axis() {
    let south_east = ShortDataPacket::from(vec![
        "280421", "055447", "5355.09260", "S", "02732.40990", "E", "60", "0", "300", "7",
    ])
    .unwrap();
    assert_eq!(south_east.lon, Decimal { mantissa: -535509260, scale: 7 });
    assert_eq!(south_east.lat, Decimal { mantissa: 273240990, scale: 7 });
    let north_west = ShortDataPacket::from(vec![
        "280421", "055447", "5355.09260", "N", "02732.40990", "W", "60", "0", "300", "7",
    ])
    .unwrap();
    assert_eq!(north_west.lon, Decimal { mantissa: 535509260, scale: 7 });
    assert_eq!(north_west.lat, Decimal { mantissa: -273240990, scale: 7 });
}

#[test]
fn timestamps_follow_the_calendar() {
    let leap = ShortDataPacket::from(vec!["290220", "235960", "0", "N", "0", "E", "0", "0", "0", "0"]).unwrap();
    assert_eq!(
        leap.timestamp,
        Timestamp { year: 2020, month: 2, day: 29, hour: 23, minute: 59, second: 59 }
    );
    let old = ShortDataPacket::from(vec!["010170", "000000", "0", "N", "0", "E", "0", "0", "0", "0"]).unwrap();
    assert_eq!(old.timestamp.year, 1970);
    assert_eq!(
        ShortDataPacket::from(vec!["290221", "000000", "0", "N", "0", "E", "0", "0", "0", "0"]).err(),
        Some(FrameError::FieldError)
    );
    assert_eq!(
        ShortDataPacket::from(vec!["28042", "1055447", "0", "N", "0", "E", "0", "0", "0", "0"]).err(),
        Some(FrameError::FieldError)
    );
}

#[test]
fn response_codes_in_decimal() {
    let r = ResponsePacket { ptype: "AL".to_string(), code: -5 };
    assert_eq!(r.to_string(), "#AL#-5\r\n");
    let r = ResponsePacket { ptype: "ASD".to_string(), code: 127 };
    assert_eq!(r.to_bytes(), b"#ASD#127\r\n".to_vec());
    let r = ResponsePacket { ptype: "AD".to_string(), code: -128 };
    assert_eq!(r.to_string(), "#AD#-128\r\n");
    let r = ResponsePacket { ptype: "AD".to_string(), code: 0 };
    assert_eq!(r.to_string(), "#AD#0\r\n");
}

#[test]
fn numbers() {
    let b = b"-12.50";
    assert_eq!(parse_decimal(b, 0, b.len()), Some(Decimal { mantissa: -1250, scale: 2 }));
    assert_eq!(parse_decimal(b"+.5", 0, 3), Some(Decimal { mantissa: 5, scale: 1 }));
    assert_eq!(parse_decimal(b"7.", 0, 2), Some(Decimal { mantissa: 7, scale: 0 }));
    assert_eq!(parse_decimal(b".", 0, 1), None);
    assert_eq!(parse_decimal(b"1.2.3", 0, 5), None);
    assert_eq!(parse_decimal(b"", 0, 0), None);
    assert_eq!(parse_decimal(b"1e1", 0, 3), Some(Decimal { mantissa: 10, scale: 0 }));
    assert_eq!(parse_decimal(b"-1.5E-2", 0, 7), Some(Decimal { mantissa: -15, scale: 3 }));
    assert_eq!(parse_decimal(b"2.50e1", 0, 6), Some(Decimal { mantissa: 250, scale: 1 }));
    assert_eq!(parse_decimal(b"3e+2", 0, 4), Some(Decimal { mantissa: 300, scale: 0 }));
    assert_eq!(parse_decimal(b"1e", 0, 2), None);
    assert_eq!(parse_decimal(b"e5", 0, 2), None);
    assert_eq!(parse_decimal(b"9e99", 0, 4), None);
    assert_eq!(parse_int(b"-32768", 0, 6, -32768, 32767), Some(-32768));
    assert_eq!(parse_int(b"32768", 0, 5, -32768, 32767), None);
    assert_eq!(parse_int(b"+12", 0, 3, -10, 100), Some(12));
    assert_eq!(parse_int(b"-", 0, 1, -10, 10), None);
    assert_eq!(parse_int(b"x12;", 1, 3, 0, 100), Some(12));
}

#[test]
fn text_of_bytes() {
    assert_eq!(text_in(b"abc;def", 4, 7), Some("def".to_string()));
    assert_eq!(text_in("ид".as_bytes(), 0, 4), Some("ид".to_string()));
    assert_eq!(text_in(b"a\xffb", 0, 3), None);
}

#[test]
fn telemetry_event_merges_device_and_record() {
    let nav = *Packet::from(SD.as_bytes()).unwrap().get_navigate_data().unwrap();
    let g = GeoPacket::new(b"12345".to_vec(), &nav);
    assert_eq!(g.imei, "12345");
    assert_eq!(g.timestamp, nav.timestamp);
    assert_eq!((g.lat, g.lon), (nav.lat, nav.lon));
    assert_eq!((g.speed, g.course, g.height, g.sats), (60, 0, 300, 7));
}

#[test]
fn record_equality() {
    let a = LoginPacket::from(vec!["1", "x"]).unwrap();
    let b = LoginPacket::from(vec!["1", "x"]).unwrap();
    let c = LoginPacket::from(vec!["1", "y"]).unwrap();
    assert!(a == b);
    assert!(a != c);
    let base = ["280421", "055429", "5355.09260", "N", "02732.40990", "E", "0", "0", "300", "7", "22", "5", "0", "", "NA"];
    let mut with_params = base.to_vec();
    with_params.push("p:1:1");
    let mut other_params = base.to_vec();
    other_params.push("q:2:3.5");
    let x = DataPacket::from(with_params).unwrap();
    let y = DataPacket::from(other_params).unwrap();
    assert!(x == y);
    let mut moved = base.to_vec();
    moved[6] = "1";
    moved.push("p:1:1");
    assert!(x != DataPacket::from(moved).unwrap());
}
