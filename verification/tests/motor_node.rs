use wrx::motor_node::{clean_reply, counts_of_reply, encoder_reading, frame_command, velocity_command, EncoderCounts, TickDelta};
use wrx::wheel_controller::{report_line, LineAction, decide_line};

#[test]
fn velocity_command_text() {
    assert_eq!(velocity_command(100, -255).as_slice(), b"o 100 -255>");
    assert_eq!(velocity_command(0, 0).as_slice(), b"o 0 0>");
    assert_eq!(velocity_command(i32::MIN, i32::MAX).as_slice(), b"o -2147483648 2147483647>");
}

#[test]
fn requests_are_framed() {
    assert_eq!(frame_command(b"e").as_slice(), b"e>");
    assert_eq!(frame_command(b"abc").as_slice(), b"abc>");
    assert_eq!(frame_command(b"").as_slice(), b">");
}

#[test]
fn reply_cleaning() {
    assert_eq!(clean_reply(b"12 -7\r\n").unwrap().as_slice(), b"12 -7");
    assert_eq!(clean_reply(b"\n1\r2\n").unwrap().as_slice(), b"12");
    assert!(clean_reply(&[0x31, 0xc3]).is_none());
    assert_eq!(clean_reply("é\n".as_bytes()).unwrap(), "é".as_bytes().to_vec());
}

#[test]
fn encoder_reading_parses_all_or_nothing() {
    assert_eq!(encoder_reading(b"12 -7"), vec![12, -7]);
    assert_eq!(encoder_reading(b"1 2 3"), vec![1, 2, 3]);
    assert_eq!(encoder_reading(b"12 x"), Vec::<i32>::new());
    assert_eq!(encoder_reading(b""), Vec::<i32>::new());
    assert_eq!(encoder_reading(b"12  7"), Vec::<i32>::new());
    assert_eq!(encoder_reading(b"2147483648"), Vec::<i32>::new());
    assert_eq!(encoder_reading(b"-2147483648"), vec![i32::MIN]);
}

#[test]
fn report_round_trip() {
    for (l, r) in [(0, 0), (5, -5), (i32::MIN, i32::MAX), (123456, -987654)] {
        let raw = report_line(l, r);
        let text = clean_reply(&raw).unwrap();
        assert_eq!(encoder_reading(&text), vec![l, r]);
    }
}

#[test]
fn velocity_command_round_trip() {
    for (l, r) in [(0, 0), (127, -127), (-1, 1), (50, 300), (300, 50)] {
        let cmd = velocity_command(l, r);
        let body = &cmd[..cmd.len() - 1];
        let expected = if !(-128..=127).contains(&l) {
            LineAction::Mark
        } else if !(-128..=127).contains(&r) {
            LineAction::Left(l as i8)
        } else {
            LineAction::Both(l as i8, r as i8)
        };
        assert_eq!(decide_line(body), expected);
    }
}

#[test]
fn encoder_update_takes_differences() {
    let mut c = EncoderCounts::new(1000, 10, 20);
    assert_eq!(c.update(1500, &[15, 18]), Some(TickDelta { elapsed_ms: 500, left: 5, right: -2 }));
    assert_eq!(c.last_read_time, 1500);
    assert_eq!(c.last_left_enc, 15);
    assert_eq!(c.last_right_enc, 18);
}

#[test]
fn successive_readings_use_each_wheels_previous_count() {
    let mut c = EncoderCounts::new(1000, 0, 0);
    assert_eq!(c.update(1100, &[5, 7]), Some(TickDelta { elapsed_ms: 100, left: 5, right: 7 }));
    assert_eq!(c.update(1300, &[8, 9]), Some(TickDelta { elapsed_ms: 200, left: 3, right: 2 }));
    assert_eq!((c.last_read_time, c.last_left_enc, c.last_right_enc), (1300, 8, 9));
}

#[test]
fn counts_of_raw_reply() {
    assert_eq!(counts_of_reply(b"10 20\r\n"), vec![10, 20]);
    assert_eq!(counts_of_reply(b"10 x\r\n"), Vec::<i32>::new());
    assert_eq!(counts_of_reply(&[0xff]), Vec::<i32>::new());
    assert_eq!(counts_of_reply(&report_line(-3, 4)), vec![-3, 4]);
}

#[test]
fn encoder_update_ignores_other_readings() {
    let mut c = EncoderCounts::new(1000, 10, 20);
    assert_eq!(c.update(1500, &[]), None);
    assert_eq!(c.update(1500, &[1, 2, 3]), None);
    assert_eq!((c.last_read_time, c.last_left_enc, c.last_right_enc), (1000, 10, 20));
}
