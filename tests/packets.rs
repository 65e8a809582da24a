use chrono::{NaiveDate, NaiveDateTime};
use wialon_protocol::{DataPacket, Decimal, LoginPacket, Packet, Params, ShortDataPacket, Timestamp};

fn as_f64(d: Decimal) -> f64 {
    d.mantissa as f64 / 10f64.powi(d.scale as i32)
}

fn naive(t: Timestamp) -> NaiveDateTime {
    NaiveDate::from_ymd_opt(t.year, t.month, t.day)
        .unwrap()
        .and_hms_opt(t.hour, t.minute, t.second)
        .unwrap()
}

#[test]
fn test_login_packet_body() {
    let test_data = vec!["1", "1"];
    let msg = LoginPacket::from(test_data).unwrap();

    assert_eq!(msg.imei, "1");
    assert_eq!(msg.password, "1");
}

#[test]
fn short_data_packet_test_short_data_packet_body() {
    let test_data = vec!["280421", "055220", "5355.09260", "N", "02732.40990", "E", "0", "0", "300", "7"];
    let msg = ShortDataPacket::from(test_data).unwrap();

    let test_ts = NaiveDateTime::parse_from_str("280421055220", "%d%m%y%H%M%S").unwrap();
    assert_eq!(naive(msg.timestamp), test_ts);
    assert_eq!(as_f64(msg.lon), 53.5509260);
    assert_eq!(as_f64(msg.lat), 27.3240990);
    assert_eq!(msg.speed, 0);
    assert_eq!(msg.course, 0);
    assert_eq!(msg.height, 300);
    assert_eq!(msg.sats, 7);

    let test_data = vec!["280421", "055447", "5355.09260", "N", "02732.40990", "E", "60", "0", "300", "7"];
    let msg = ShortDataPacket::from(test_data).unwrap();

    let test_ts = NaiveDateTime::parse_from_str("280421055447", "%d%m%y%H%M%S").unwrap();
    assert_eq!(naive(msg.timestamp), test_ts);
    assert_eq!(msg.speed, 60);
}

#[test]
fn data_packet_test_short_data_packet_body() {
    let test_data = vec![
        "280421", "055429", "5355.09260", "N", "02732.40990", "E", "0", "0", "300", "7", "22", "5", "0", "", "NA",
        "test1:1:1,var:2:4.5,texttest:3:1",
    ];
    let msg = DataPacket::from(test_data).unwrap();

    let test_ts = NaiveDateTime::parse_from_str("280421055429", "%d%m%y%H%M%S").unwrap();
    assert_eq!(naive(msg.spd.timestamp), test_ts);
    assert_eq!(as_f64(msg.spd.lon), 53.5509260);
    assert_eq!(as_f64(msg.spd.lat), 27.3240990);
    assert_eq!(msg.spd.speed, 0);
    assert_eq!(msg.spd.course, 0);
    assert_eq!(msg.spd.height, 300);
    assert_eq!(msg.spd.sats, 7);
    assert_eq!(as_f64(msg.hdop), 22.0);
    assert_eq!(msg.adc, "");

    let p = msg.params.iter().rev().find(|(name, _)| name == "test1").map(|(_, v)| *v).unwrap();
    assert_eq!(p, Params::Int(1));

    let p = msg.params.iter().rev().find(|(name, _)| name == "var").map(|(_, v)| *v).unwrap();
    assert!(matches!(p, Params::Float(d) if as_f64(d) == 4.5));
}

#[test]
fn parsing_packets() {
    match Packet::from(&[0x77, 0x65, 0x72, 0x0a]) {
        Ok(_) => panic!("no frame is complete"),
        Err(err) => assert_eq!(wialon_protocol::FrameError::Incomplete, err),
    }

    match Packet::from(&[0x23, 0x77, 0x65, 0x72, 0x0a]) {
        Ok(_) => panic!("no frame is complete"),
        Err(err) => assert_eq!(wialon_protocol::FrameError::Incomplete, err),
    }

    match Packet::from("#L#1;1\r\n".as_bytes()) {
        Ok(p) => {
            assert_eq!(p.ptype(), "L");

            let msg = p.get_auth_data().unwrap();

            assert_eq!(msg.imei, "1");
            assert_eq!(msg.password, "1");
        }
        Err(err) => panic!("{:?}", err),
    }

    match Packet::from("#SD#280421;055447;5355.09260;N;02732.40990;E;60;0;300;7\r\n".as_bytes()) {
        Ok(p) => {
            assert_eq!(p.ptype(), "SD");
            let msg = p.get_navigate_data().unwrap();

            assert_eq!(
                naive(msg.timestamp),
                NaiveDateTime::parse_from_str("280421055447", "%d%m%y%H%M%S").unwrap()
            );
            assert_eq!(as_f64(msg.lon), 53.5509260);
            assert_eq!(as_f64(msg.lat), 27.3240990);
            assert_eq!(msg.speed, 60);
            assert_eq!(msg.course, 0);
            assert_eq!(msg.height, 300);
            assert_eq!(msg.sats, 7);
        }
        Err(err) => panic!("{:?}", err),
    }

    match Packet::from(
        "#D#280421;055500;5355.09260;N;02732.40990;E;60;0;300;7;22;5;5120;;eee;test1:1:1,var:2:4.5,texttest:3:1\r\n"
            .as_bytes(),
    ) {
        Ok(p) => {
            assert_eq!(p.ptype(), "D");
            let msg = p.get_navigate_data().unwrap();

            assert_eq!(
                naive(msg.timestamp),
                NaiveDateTime::parse_from_str("280421055500", "%d%m%y%H%M%S").unwrap()
            );

            assert_eq!(p.get_extra_param("test1").unwrap(), &Params::Int(1));
            assert!(matches!(p.get_extra_param("var").unwrap(), Params::Float(d) if as_f64(*d) == 4.5));
        }
        Err(err) => panic!("{:?}", err),
    }
}

#[test]
fn response_packets() {
    match Packet::from("#L#1;1\r\n".as_bytes()) {
        Ok(p) => assert_eq!(p.response(1).unwrap().to_string(), "#AL#1\r\n"),
        Err(err) => panic!("{:?}", err),
    }

    match Packet::from("#SD#280421;055447;5355.09260;N;02732.40990;E;60;0;300;7\r\n".as_bytes()) {
        Ok(p) => {
            let r = p.response(1).unwrap();
            assert_eq!(r.to_string(), "#ASD#1\r\n")
        }
        Err(err) => panic!("{:?}", err),
    }

    match Packet::from(
        "#D#280421;055500;5355.09260;N;02732.40990;E;60;0;300;7;22;5;5120;;eee;test1:1:1,var:2:4.5,texttest:3:1\r\n"
            .as_bytes(),
    ) {
        Ok(p) => {
            let r = p.response(1).unwrap();
            assert_eq!(r.to_string(), "#AD#1\r\n")
        }
        Err(err) => panic!("{:?}", err),
    }
}
