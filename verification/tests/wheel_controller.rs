use wrx::wheel_controller::{decide_line, duty_for, report_line, LineAction, MotorDriver, Reaction, Turn, WheelDuty};

fn feed(driver: &mut MotorDriver, bytes: &[u8]) -> Vec<Reaction> {
    let mut out = Vec::new();
    for &b in bytes {
        assert!(!driver.overflows_on(b));
        out.push(driver.on_byte(b));
    }
    out
}

#[test]
fn drive_command_sets_both_wheels() {
    let mut d = MotorDriver::new();
    let reactions = feed(&mut d, b"o 100 -50>");
    for r in &reactions[..reactions.len() - 1] {
        assert!(matches!(r, Reaction::Nothing));
    }
    match reactions.last().unwrap() {
        Reaction::DriveBoth { left, right, report } => {
            assert_eq!(*left, WheelDuty { forward: 100, backward: 0 });
            assert_eq!(*right, WheelDuty { forward: 0, backward: 50 });
            assert_eq!(report.as_slice(), b"0 0\n");
        }
        _ => panic!("expected both wheels to be driven"),
    }
    assert_eq!(d.elapsed(), 10);
}

#[test]
fn zero_speed_drives_backward_pin_to_zero() {
    assert_eq!(duty_for(0), WheelDuty { forward: 0, backward: 0 });
    assert_eq!(duty_for(127), WheelDuty { forward: 127, backward: 0 });
    assert_eq!(duty_for(-127), WheelDuty { forward: 0, backward: 127 });
    assert_eq!(duty_for(1), WheelDuty { forward: 1, backward: 0 });
}

#[test]
fn speed_out_of_i8_range_is_not_applied() {
    // the motor node may send up to 255, which the controller cannot read as i8
    assert_eq!(decide_line(b"o 200 10"), LineAction::Mark);
    assert_eq!(decide_line(b"o 10 200"), LineAction::Left(10));
    assert_eq!(decide_line(b"o -128 5"), LineAction::Both(-128, 5));
    assert_eq!(decide_line(b"o 127 -128"), LineAction::Both(127, -128));
}

#[test]
fn decide_line_cases() {
    assert_eq!(decide_line(b"e"), LineAction::Encoders);
    assert_eq!(decide_line(b"e 1 2"), LineAction::Encoders);
    assert_eq!(decide_line(b"o"), LineAction::Mark);
    assert_eq!(decide_line(b"o x"), LineAction::Mark);
    assert_eq!(decide_line(b"o 5"), LineAction::Left(5));
    assert_eq!(decide_line(b"o 5 "), LineAction::Left(5));
    assert_eq!(decide_line(b"o +5 -0"), LineAction::Both(5, 0));
    assert_eq!(decide_line(b"o  5 6"), LineAction::Mark);
    assert_eq!(decide_line(b"x"), LineAction::Stop);
    assert_eq!(decide_line(b"oo 1 2"), LineAction::Stop);
    assert_eq!(decide_line(b" o 1 2"), LineAction::Stop);
    assert_eq!(decide_line(&[0xff, 0x20]), LineAction::Ignore);
    assert_eq!(decide_line("é".as_bytes()), LineAction::Stop);
}

#[test]
fn unreadable_line_stays_pending() {
    let mut d = MotorDriver::new();
    let r = feed(&mut d, b"o 1>");
    assert!(matches!(r.last().unwrap(), Reaction::DriveLeft { left: WheelDuty { forward: 1, backward: 0 } }));
    // the line was not cleared: the next bytes are appended to it
    let r = feed(&mut d, b" 2>");
    match r.last().unwrap() {
        Reaction::DriveBoth { left, right, .. } => {
            assert_eq!(*left, WheelDuty { forward: 1, backward: 0 });
            assert_eq!(*right, WheelDuty { forward: 2, backward: 0 });
        }
        _ => panic!("expected the appended line to drive both wheels"),
    }
}

#[test]
fn unknown_command_stops_and_clears() {
    let mut d = MotorDriver::new();
    let r = feed(&mut d, b"stop>");
    assert!(matches!(r.last().unwrap(), Reaction::StopAll));
    let r = feed(&mut d, b"o 3 4>");
    assert!(matches!(r.last().unwrap(), Reaction::DriveBoth { .. }));
}

#[test]
fn empty_line_does_nothing() {
    let mut d = MotorDriver::new();
    let r = feed(&mut d, b">>>");
    assert!(r.iter().all(|x| matches!(x, Reaction::Nothing)));
    assert_eq!(d.elapsed(), 3);
}

#[test]
fn encoder_turns_are_counted_with_mirrored_right_wheel() {
    let mut d = MotorDriver::new();
    let r = feed(&mut d, b"e>");
    assert!(matches!(r.last().unwrap(), Reaction::ReadEncoders));
    assert!(d.turns_fit(Turn::Clockwise, Turn::Clockwise));
    let report = d.record_turns(Turn::Clockwise, Turn::Clockwise);
    assert_eq!(report.as_slice(), b"1 -1\n");
    let report = d.record_turns(Turn::CounterClockwise, Turn::Still);
    assert_eq!(report.as_slice(), b"0 -1\n");
    let report = d.record_turns(Turn::CounterClockwise, Turn::CounterClockwise);
    assert_eq!(report.as_slice(), b"-1 0\n");
    assert_eq!(d.counts(), (-1, 0));
}

#[test]
fn over_long_line_drops_extra_bytes() {
    let mut d = MotorDriver::new();
    let mut bytes = vec![b'o', b' ', b'7', b' ', b'8'];
    bytes.extend(std::iter::repeat(b' ').take(300));
    feed(&mut d, &bytes);
    let r = d.on_byte(b'>');
    match r {
        Reaction::DriveBoth { left, right, .. } => {
            assert_eq!(left, WheelDuty { forward: 7, backward: 0 });
            assert_eq!(right, WheelDuty { forward: 8, backward: 0 });
        }
        _ => panic!("expected both wheels"),
    }
}

#[test]
fn negating_minus_128_is_reported_as_overflow() {
    let mut d = MotorDriver::new();
    feed(&mut d, b"o -128 1");
    assert!(d.overflows_on(b'>'));
    assert!(!d.overflows_on(b'1'));
}

#[test]
fn read_error_stops_everything() {
    let mut d = MotorDriver::new();
    feed(&mut d, b"o 1");
    assert!(matches!(d.on_read_error(), Reaction::ReadFault));
    assert_eq!(d.elapsed(), 4);
}

#[test]
fn report_line_formats_counts() {
    assert_eq!(report_line(0, 0).as_slice(), b"0 0\n");
    assert_eq!(report_line(-2147483648, 2147483647).as_slice(), b"-2147483648 2147483647\n");
}
