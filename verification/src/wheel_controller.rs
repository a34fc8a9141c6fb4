//! The wheel controller's command loop: bytes arrive one by one over the serial line,
//! `>` ends a command, `o <left> <right>` sets the two motors, `e` asks for the encoder
//! counts, anything else stops the motors. The firmware performs each reaction on its
//! pins and serial port; this module decides it.
use vstd::prelude::*;
use vstd::utf8::valid_utf8;
use crate::decimal::{integer_text, parse_i8, parsed_i8, push_i32};
use crate::text::{is_utf8, lemma_split_len, pieces_view, split_on, split_seq};

verus! {

broadcast use vstd::seq::group_seq_axioms;

/// Byte that ends a command line (`>`).
pub const END_OF_COMMAND: u8 = 62;

/// Separator between the words of a command line (space).
pub const WORD_SEPARATOR: u8 = 32;

/// Most bytes a pending command line holds; later bytes of an over-long line are dropped.
pub const LINE_CAPACITY: usize = 255;

/// Direction in which a wheel encoder was seen to move since it was last looked at.
#[derive(Clone, Copy, PartialEq, Eq, Structural, Debug)]
pub enum Turn {
    Clockwise,
    CounterClockwise,
    Still,
}

/// Duty cycles of the two PWM pins that drive one motor, forward and backward.
#[derive(Clone, Copy, PartialEq, Eq, Structural, Debug)]
pub struct WheelDuty {
    pub forward: u8,
    pub backward: u8,
}

/// What a complete command line asks for.
#[derive(Clone, Copy, PartialEq, Eq, Structural, Debug)]
pub enum LineAction {
    /// Not UTF-8 text: nothing happens and the line stays pending.
    Ignore,
    /// `o` without a readable left speed: only the command time is noted; the line stays.
    Mark,
    /// `o` with a left speed but no readable right one: the left motor is set; the line stays.
    Left(i8),
    /// `o` with both speeds: both motors are set and the counts reported.
    Both(i8, i8),
    /// `e`: the encoders are read and the counts reported.
    Encoders,
    /// Any other word: all motors stop.
    Stop,
}

/// What the firmware does in response to one step of the command loop.
pub enum Reaction {
    /// Nothing to do.
    Nothing,
    /// Set the left motor's pins.
    DriveLeft { left: WheelDuty },
    /// Set both motors' pins, then send `report`.
    DriveBoth { left: WheelDuty, right: WheelDuty, report: Vec<u8> },
    /// Look at both encoders and hand the turns to `MotorDriver::record_turns`.
    ReadEncoders,
    /// Set every motor pin to zero.
    StopAll,
    /// The serial read failed: set every motor pin to zero and send the error message.
    ReadFault,
}

/// The abstract state of the command loop.
pub struct DriverView {
    /// Bytes of the command line received so far.
    pub line: Seq<u8>,
    pub left_count: i32,
    pub right_count: i32,
    /// Loop iteration at which the last `o` command was seen.
    pub last_command: u32,
    /// Loop iterations so far.
    pub elapsed: u32,
}

/// State of the wheel controller's command loop.
pub struct MotorDriver {
    line: Vec<u8>,
    left_count: i32,
    right_count: i32,
    last_command: u32,
    elapsed: u32,
}

impl View for MotorDriver {
    type V = DriverView;

    closed spec fn view(&self) -> DriverView {
        DriverView {
            line: self.line@,
            left_count: self.left_count,
            right_count: self.right_count,
            last_command: self.last_command,
            elapsed: self.elapsed,
        }
    }
}

/// The one-byte word `w`.
pub open spec fn word(w: u8) -> Seq<u8> {
    seq![w]
}

/// What the complete command line `line` asks for.
pub open spec fn line_action(line: Seq<u8>) -> LineAction {
    if !valid_utf8(line) {
        LineAction::Ignore
    } else {
        let words = split_seq(line, WORD_SEPARATOR);
        if words[0] == word(111) {
            if words.len() < 2 {
                LineAction::Mark
            } else {
                match parsed_i8(words[1]) {
                    None => LineAction::Mark,
                    Some(l) => if words.len() < 3 {
                        LineAction::Left(l)
                    } else {
                        match parsed_i8(words[2]) {
                            None => LineAction::Left(l),
                            Some(r) => LineAction::Both(l, r),
                        }
                    },
                }
            }
        } else if words[0] == word(101) {
            LineAction::Encoders
        } else {
            LineAction::Stop
        }
    }
}

/// The firmware negates a negative speed with `i8` arithmetic, which overflows on -128.
pub open spec fn line_overflows(line: Seq<u8>) -> bool {
    match line_action(line) {
        LineAction::Left(l) => l == -128,
        LineAction::Both(l, r) => l == -128 || r == -128,
        _ => false,
    }
}

/// Pin duties for a signed speed: a positive speed drives forward, any other backward.
pub open spec fn duty_of(v: i8) -> WheelDuty {
    if v > 0 {
        WheelDuty { forward: v as u8, backward: 0 }
    } else {
        WheelDuty { forward: 0, backward: (-v) as u8 }
    }
}

/// The counts report: `<left> <right>` and a newline.
pub open spec fn report_text(left: i32, right: i32) -> Seq<u8> {
    integer_text(left as int) + seq![WORD_SEPARATOR] + integer_text(right as int) + seq![10u8]
}

/// The loop state after one more iteration, with its line and command time replaced.
pub open spec fn next_iteration(s: DriverView, line: Seq<u8>, last_command: u32) -> DriverView {
    DriverView {
        line,
        left_count: s.left_count,
        right_count: s.right_count,
        last_command,
        elapsed: (s.elapsed + 1) as u32,
    }
}

/// The loop state after the byte `b` was read.
pub open spec fn after_byte(s: DriverView, b: u8) -> DriverView {
    let now = (s.elapsed + 1) as u32;
    if b == END_OF_COMMAND {
        if s.line.len() == 0 {
            next_iteration(s, s.line, s.last_command)
        } else {
            match line_action(s.line) {
                LineAction::Ignore => next_iteration(s, s.line, s.last_command),
                LineAction::Mark => next_iteration(s, s.line, now),
                LineAction::Left(_) => next_iteration(s, s.line, now),
                LineAction::Both(_, _) => next_iteration(s, Seq::empty(), now),
                LineAction::Encoders => next_iteration(s, Seq::empty(), s.last_command),
                LineAction::Stop => next_iteration(s, Seq::empty(), s.last_command),
            }
        }
    } else if s.line.len() < LINE_CAPACITY {
        next_iteration(s, s.line.push(b), s.last_command)
    } else {
        next_iteration(s, s.line, s.last_command)
    }
}

/// The loop state after the bytes `bs` were read, one per iteration.
pub open spec fn after_bytes(s: DriverView, bs: Seq<u8>) -> DriverView
    decreases bs.len(),
{
    if bs.len() == 0 {
        s
    } else {
        after_byte(after_bytes(s, bs.drop_last()), bs.last())
    }
}

/// `r` is the firmware's reaction to the byte `b` read in state `s`.
pub open spec fn byte_reaction(s: DriverView, b: u8, r: Reaction) -> bool {
    if b != END_OF_COMMAND || s.line.len() == 0 {
        r is Nothing
    } else {
        match line_action(s.line) {
            LineAction::Ignore => r is Nothing,
            LineAction::Mark => r is Nothing,
            LineAction::Left(l) => r == Reaction::DriveLeft { left: duty_of(l) },
            LineAction::Both(l, rv) => match r {
                Reaction::DriveBoth { left, right, report } => left == duty_of(l) && right
                    == duty_of(rv) && report@ == report_text(s.left_count, s.right_count),
                _ => false,
            },
            LineAction::Encoders => r is ReadEncoders,
            LineAction::Stop => r is StopAll,
        }
    }
}

/// How far the left count moves for a turn of the left wheel.
pub open spec fn left_step(t: Turn) -> int {
    match t {
        Turn::Clockwise => 1,
        Turn::CounterClockwise => -1,
        Turn::Still => 0,
    }
}

/// How far the right count moves for a turn of the right wheel (mounted mirrored).
pub open spec fn right_step(t: Turn) -> int {
    -left_step(t)
}

/// The counts stay within `i32` after the turns are added.
pub open spec fn turns_fit(s: DriverView, left: Turn, right: Turn) -> bool {
    i32::MIN <= s.left_count + left_step(left) <= i32::MAX && i32::MIN <= s.right_count
        + right_step(right) <= i32::MAX
}

/// The pin duties for the speed `v`.
pub fn duty_for(v: i8) -> (d: WheelDuty)
    requires
        v != -128,
    ensures
        d == duty_of(v),
{
    if v > 0 {
        WheelDuty { forward: v as u8, backward: 0 }
    } else {
        let positive: i8 = 0 - v;
        WheelDuty { forward: 0, backward: positive as u8 }
    }
}

/// The counts report for `left` and `right`.
pub fn report_line(left: i32, right: i32) -> (t: Vec<u8>)
    ensures
        t@ == report_text(left, right),
{
    let mut t: Vec<u8> = Vec::new();
    push_i32(&mut t, left);
    t.push(WORD_SEPARATOR);
    push_i32(&mut t, right);
    t.push(10);
    t
}

/// Whether the one-word piece `w` is the byte `c`.
fn is_word(w: &Vec<u8>, c: u8) -> (res: bool)
    ensures
        res == (w@ == word(c)),
{
    if w.len() == 1 && w[0] == c {
        assert(w@ =~= word(c));
        true
    } else {
        false
    }
}

/// What the complete command line `line` asks for.
pub fn decide_line(line: &[u8]) -> (a: LineAction)
    ensures
        a == line_action(line@),
{
    if !is_utf8(line) {
        return LineAction::Ignore;
    }
    let words = split_on(line, WORD_SEPARATOR);
    let ghost spec_words = split_seq(line@, WORD_SEPARATOR);
    proof {
        lemma_split_len(line@, WORD_SEPARATOR);
    }
    assert(words@.len() == spec_words.len());
    assert(forall|k: int| 0 <= k < words@.len() ==> #[trigger] words@[k]@ == spec_words[k]) by {
        assert forall|k: int| 0 <= k < words@.len() implies #[trigger] words@[k]@
            == spec_words[k] by {
            assert(pieces_view(words@)[k] == words@[k]@);
        }
    }
    if is_word(&words[0], 111) {
        if words.len() < 2 {
            return LineAction::Mark;
        }
        match parse_i8(words[1].as_slice()) {
            None => LineAction::Mark,
            Some(l) => {
                if words.len() < 3 {
                    return LineAction::Left(l);
                }
                match parse_i8(words[2].as_slice()) {
                    None => LineAction::Left(l),
                    Some(r) => LineAction::Both(l, r),
                }
            },
        }
    } else if is_word(&words[0], 101) {
        LineAction::Encoders
    } else {
        LineAction::Stop
    }
}

impl MotorDriver {
    /// The loop state at power-on: empty line, zero counts, no command seen.
    pub fn new() -> (d: MotorDriver)
        ensures
            d@.line == Seq::<u8>::empty(),
            d@.left_count == 0,
            d@.right_count == 0,
            d@.last_command == 0,
            d@.elapsed == 0,
    {
        MotorDriver { line: Vec::new(), left_count: 0, right_count: 0, last_command: 0, elapsed: 0 }
    }

    /// Loop iterations so far.
    pub fn elapsed(&self) -> (e: u32)
        ensures
            e == self@.elapsed,
    {
        self.elapsed
    }

    /// The current left and right encoder counts.
    pub fn counts(&self) -> (c: (i32, i32))
        ensures
            c == (self@.left_count, self@.right_count),
    {
        (self.left_count, self.right_count)
    }

    /// Whether reading `b` now would make the firmware overflow while negating a speed.
    pub fn overflows_on(&self, b: u8) -> (res: bool)
        ensures
            res == (b == END_OF_COMMAND && self@.line.len() > 0 && line_overflows(self@.line)),
    {
        if b != END_OF_COMMAND || self.line.len() == 0 {
            return false;
        }
        match decide_line(self.line.as_slice()) {
            LineAction::Left(l) => l == -128,
            LineAction::Both(l, r) => l == -128 || r == -128,
            _ => false,
        }
    }

    /// One iteration of the command loop in which the byte `b` was read.
    pub fn on_byte(&mut self, b: u8) -> (r: Reaction)
        requires
            old(self)@.elapsed < u32::MAX,
            !(b == END_OF_COMMAND && old(self)@.line.len() > 0 && line_overflows(old(self)@.line)),
        ensures
            final(self)@ == after_byte(old(self)@, b),
            byte_reaction(old(self)@, b, r),
    {
        self.elapsed = self.elapsed + 1;
        if b == END_OF_COMMAND {
            if self.line.len() == 0 {
                return Reaction::Nothing;
            }
            match decide_line(self.line.as_slice()) {
                LineAction::Ignore => Reaction::Nothing,
                LineAction::Mark => {
                    self.last_command = self.elapsed;
                    Reaction::Nothing
                },
                LineAction::Left(l) => {
                    self.last_command = self.elapsed;
                    Reaction::DriveLeft { left: duty_for(l) }
                },
                LineAction::Both(l, r) => {
                    self.last_command = self.elapsed;
                    let left = duty_for(l);
                    let right = duty_for(r);
                    let report = report_line(self.left_count, self.right_count);
                    self.line = Vec::new();
                    Reaction::DriveBoth { left, right, report }
                },
                LineAction::Encoders => {
                    self.line = Vec::new();
                    Reaction::ReadEncoders
                },
                LineAction::Stop => {
                    self.line = Vec::new();
                    Reaction::StopAll
                },
            }
        } else {
            if self.line.len() < LINE_CAPACITY {
                self.line.push(b);
            }
            Reaction::Nothing
        }
    }

    /// One iteration of the command loop in which the serial read failed.
    pub fn on_read_error(&mut self) -> (r: Reaction)
        requires
            old(self)@.elapsed < u32::MAX,
        ensures
            final(self)@ == next_iteration(old(self)@, old(self)@.line, old(self)@.last_command),
            r is ReadFault,
    {
        self.elapsed = self.elapsed + 1;
        Reaction::ReadFault
    }

    /// Whether adding the turns `left` and `right` keeps both counts within `i32`.
    pub fn turns_fit(&self, left: Turn, right: Turn) -> (res: bool)
        ensures
            res == turns_fit(self@, left, right),
    {
        let l = self.left_count as i64 + match left {
            Turn::Clockwise => 1i64,
            Turn::CounterClockwise => -1i64,
            Turn::Still => 0i64,
        };
        let r = self.right_count as i64 - match right {
            Turn::Clockwise => 1i64,
            Turn::CounterClockwise => -1i64,
            Turn::Still => 0i64,
        };
        -2147483648 <= l && l <= 2147483647 && -2147483648 <= r && r <= 2147483647
    }

    /// Adds the encoder turns seen after an `e` command and returns the counts report.
    pub fn record_turns(&mut self, left: Turn, right: Turn) -> (report: Vec<u8>)
        requires
            turns_fit(old(self)@, left, right),
        ensures
            final(self)@ == (DriverView {
                left_count: (old(self)@.left_count + left_step(left)) as i32,
                right_count: (old(self)@.right_count + right_step(right)) as i32,
                ..old(self)@
            }),
            report@ == report_text(final(self)@.left_count, final(self)@.right_count),
    {
        match left {
            Turn::Clockwise => self.left_count = self.left_count + 1,
            Turn::CounterClockwise => self.left_count = self.left_count - 1,
            Turn::Still => {},
        }
        match right {
            Turn::Clockwise => self.right_count = self.right_count - 1,
            Turn::CounterClockwise => self.right_count = self.right_count + 1,
            Turn::Still => {},
        }
        report_line(self.left_count, self.right_count)
    }
}

} // verus!
