//! Laws of the serial protocols as a whole: what one program writes, the program at the
//! other end of the line reads back.
use vstd::prelude::*;
use vstd::utf8::valid_utf8;
use crate::decimal::{
    integer_text, lemma_i32_text_len, lemma_integer_text_bytes, lemma_parse_format_i32, lemma_parse_i8_of_text,
    natural_text, parsed_i32, parsed_i8,
};
use crate::imu_node::{pending_after, reader_after, END_OF_READING};
use crate::motor_node::{
    all_words_parse, counts_from_reply, reading_values, reply_text, velocity_command_text,
    EncoderCounts, TickDelta,
};
use crate::text::{
    is_ascii_bytes, lemma_ascii_is_utf8, lemma_split_at_separator, lemma_split_no_separator,
    lemma_split_len, lemma_without_absent, lemma_without_push, split_seq,
};
use crate::wheel_controller::{
    after_byte, after_bytes, byte_reaction, duty_of, line_action, report_text, word,
    left_step, right_step, DriverView, LineAction, Reaction, Turn, END_OF_COMMAND, LINE_CAPACITY,
    WORD_SEPARATOR,
};

verus! {

broadcast use vstd::seq::group_seq_axioms;

/// The decimal text of an integer is ASCII and holds no space, `>`, `\r` or `\n`.
proof fn lemma_number_bytes(v: int)
    ensures
        integer_text(v).len() >= 1,
        is_ascii_bytes(integer_text(v)),
        forall|i: int|
            0 <= i < integer_text(v).len() ==> #[trigger] integer_text(v)[i] != 32
                && integer_text(v)[i] != 62 && integer_text(v)[i] != 13 && integer_text(v)[i]
                != 10,
{
    lemma_integer_text_bytes(v);
}

/// The decimal text of a value in the range of `i8` has at most four bytes.
proof fn lemma_small_number_len(v: int)
    requires
        -128 <= v <= 127,
    ensures
        integer_text(v).len() <= 4,
{
    let n: nat = if v < 0 {
        (-v) as nat
    } else {
        v as nat
    };
    reveal_with_fuel(natural_text, 3);
    assert(natural_text(n).len() <= 3);
}

/// Two numbers separated by one space.
pub open spec fn number_pair(a: int, b: int) -> Seq<u8> {
    integer_text(a) + seq![32u8] + integer_text(b)
}

/// Two numbers separated by one space split into exactly those two numbers.
proof fn lemma_split_number_pair(a: int, b: int)
    ensures
        split_seq(number_pair(a, b), 32) == seq![integer_text(a), integer_text(b)],
{
    lemma_number_bytes(a);
    lemma_number_bytes(b);
    assert(number_pair(a, b) =~= integer_text(a).push(32) + integer_text(b));
    lemma_split_at_separator(integer_text(a), integer_text(b), 32);
    lemma_split_no_separator(integer_text(a), 32);
    lemma_split_no_separator(integer_text(b), 32);
}

/// Two numbers separated by a space are ASCII and hold no `>`, `\r` or `\n`.
proof fn lemma_number_pair_bytes(a: int, b: int)
    ensures
        is_ascii_bytes(number_pair(a, b)),
        forall|i: int|
            0 <= i < number_pair(a, b).len() ==> #[trigger] number_pair(a, b)[i] != 62
                && number_pair(a, b)[i] != 13 && number_pair(a, b)[i] != 10,
{
    let pair = number_pair(a, b);
    lemma_number_bytes(a);
    lemma_number_bytes(b);
    let na = integer_text(a).len();
    assert forall|i: int| 0 <= i < pair.len() implies #[trigger] pair[i] < 0x80 && pair[i] != 62
        && pair[i] != 13 && pair[i] != 10 by {
        if i < na {
            assert(pair[i] == integer_text(a)[i]);
        } else if i > na {
            assert(pair[i] == integer_text(b)[i - na - 1]);
        }
    }
}

/// The report's text, once its line feed is gone, is the two counts and a space.
proof fn lemma_report_text(left: i32, right: i32)
    ensures
        reply_text(report_text(left, right)) === Some(number_pair(left as int, right as int)),
{
    let body = number_pair(left as int, right as int);
    let report = report_text(left, right);
    lemma_number_pair_bytes(left as int, right as int);
    assert(report =~= body.push(10));
    assert(is_ascii_bytes(report)) by {
        assert forall|i: int| 0 <= i < report.len() implies #[trigger] report[i] < 0x80 by {
            if i < body.len() {
                assert(report[i] == body[i]);
            }
        }
    }
    lemma_ascii_is_utf8(report);
    assert forall|i: int| 0 <= i < report.len() implies #[trigger] report[i] != 13 by {
        if i < body.len() {
            assert(report[i] == body[i]);
        }
    }
    lemma_without_absent(report, 13);
    lemma_without_push(body, 10, 10);
    lemma_without_absent(body, 10);
}

/// The counts report that the wheel controller sends reads back, at the motor node, as
/// exactly the two counts it carries.
pub proof fn law_report_reads_back(left: i32, right: i32)
    ensures
        counts_from_reply(report_text(left, right)) === seq![left, right],
{
    lemma_counts_of_report(left, right);
    lemma_reading_of_pair(left, right);
}

/// The node takes from the report the numbers of its two-number text.
proof fn lemma_counts_of_report(left: i32, right: i32)
    ensures
        counts_from_reply(report_text(left, right)) === reading_values(
            number_pair(left as int, right as int),
        ),
{
    lemma_report_text(left, right);
}

/// The two words of a number pair read as the two numbers.
proof fn lemma_reading_of_pair(left: i32, right: i32)
    ensures
        reading_values(number_pair(left as int, right as int)) === seq![left, right],
{
    let body = number_pair(left as int, right as int);
    lemma_split_number_pair(left as int, right as int);
    let words = split_seq(body, 32);
    assert(words.len() == 2);
    assert(words[0] == integer_text(left as int));
    assert(words[1] == integer_text(right as int));
    lemma_parse_format_i32(left);
    lemma_parse_format_i32(right);
    assert(parsed_i32(words[0]) == Some(left));
    assert(parsed_i32(words[1]) == Some(right));
    assert(all_words_parse(words)) by {
        assert forall|i: int| 0 <= i < words.len() implies (#[trigger] parsed_i32(
            words[i],
        )) is Some by {
            if i == 0 {
            } else {
                assert(i == 1);
            }
        }
    }
    let vals = words.map_values(|w: Seq<u8>| parsed_i32(w).unwrap());
    assert(vals =~= seq![left, right]);
}

/// What the wheel controller makes of the motor node's speed command for `left` and
/// `right` (the line before its closing `>`): both speeds when both fit an `i8`; only
/// the left one when just that one fits; neither when the left one does not.
pub proof fn law_velocity_command_decoded(left: i32, right: i32)
    ensures
        line_action(velocity_command_text(left, right).drop_last()) == (if !(-128 <= left
            <= 127) {
            LineAction::Mark
        } else if !(-128 <= right <= 127) {
            LineAction::Left(left as i8)
        } else {
            LineAction::Both(left as i8, right as i8)
        }),
{
    let line = velocity_command_text(left, right).drop_last();
    let pair = number_pair(left as int, right as int);
    lemma_number_bytes(left as int);
    lemma_number_bytes(right as int);
    assert(line =~= word(111).push(32) + pair);
    assert(is_ascii_bytes(line)) by {
        assert forall|i: int| 0 <= i < line.len() implies #[trigger] line[i] < 0x80 by {
            let nl = integer_text(left as int).len();
            if 2 <= i < 2 + nl {
                assert(line[i] == integer_text(left as int)[i - 2]);
            } else if i > 2 + nl {
                assert(line[i] == integer_text(right as int)[i - nl - 3]);
            }
        }
    }
    lemma_ascii_is_utf8(line);
    lemma_split_at_separator(word(111), pair, 32);
    lemma_split_no_separator(word(111), 32);
    lemma_split_number_pair(left as int, right as int);
    let words = split_seq(line, WORD_SEPARATOR);
    assert(words =~= seq![word(111), integer_text(left as int), integer_text(right as int)]);
    lemma_parse_i8_of_text(left as int);
    lemma_parse_i8_of_text(right as int);
}

/// The speed command is the word `o` and the two speeds, each reading back as exactly the
/// speed it carries over the whole of `i32`, separated by single spaces and closed by its
/// only `>`.
pub proof fn law_velocity_command_words(left: i32, right: i32)
    ensures
        ({
            let cmd = velocity_command_text(left, right);
            let words = split_seq(cmd.drop_last(), WORD_SEPARATOR);
            &&& cmd.len() >= 1
            &&& cmd.last() == END_OF_COMMAND
            &&& forall|i: int| 0 <= i < cmd.len() - 1 ==> #[trigger] cmd[i] != END_OF_COMMAND
            &&& words.len() == 3
            &&& words[0] == seq![111u8]
            &&& parsed_i32(words[1]) == Some(left)
            &&& parsed_i32(words[2]) == Some(right)
        }),
{
    let cmd = velocity_command_text(left, right);
    let line = cmd.drop_last();
    let pair = number_pair(left as int, right as int);
    lemma_number_bytes(left as int);
    lemma_number_bytes(right as int);
    assert(line =~= word(111).push(32) + pair);
    assert forall|i: int| 0 <= i < cmd.len() - 1 implies #[trigger] cmd[i] != END_OF_COMMAND by {
        let nl = integer_text(left as int).len();
        if 2 <= i < 2 + nl {
            assert(cmd[i] == integer_text(left as int)[i - 2]);
        } else if i > 2 + nl {
            assert(cmd[i] == integer_text(right as int)[i - nl - 3]);
        }
    }
    lemma_split_at_separator(word(111), pair, 32);
    lemma_split_no_separator(word(111), 32);
    lemma_split_number_pair(left as int, right as int);
    let words = split_seq(line, WORD_SEPARATOR);
    assert(words =~= seq![word(111), integer_text(left as int), integer_text(right as int)]);
    lemma_parse_format_i32(left);
    lemma_parse_format_i32(right);
}

/// The words of a line whose first word is the single byte `c`, followed by nothing or by
/// a space and more.
proof fn lemma_first_word(line: Seq<u8>, c: u8)
    requires
        line.len() >= 1,
        line[0] == c,
        line.len() == 1 || line[1] == WORD_SEPARATOR,
        c != WORD_SEPARATOR,
    ensures
        split_seq(line, WORD_SEPARATOR).len() >= 1,
        split_seq(line, WORD_SEPARATOR)[0] == seq![c],
{
    lemma_split_no_separator(seq![c], WORD_SEPARATOR);
    lemma_split_len(line, WORD_SEPARATOR);
    if line.len() == 1 {
        assert(line =~= seq![c]);
    } else {
        let rest = line.subrange(2, line.len() as int);
        assert(line =~= seq![c].push(WORD_SEPARATOR) + rest);
        lemma_split_at_separator(seq![c], rest, WORD_SEPARATOR);
    }
}

/// A complete `e` line makes the controller read the encoders and nothing else, and
/// leaves it idle for the next command: the line is emptied and the command time kept.
/// Polling with `e>` again and again therefore reads the encoders every time.
pub proof fn law_encoder_request_handled(s: DriverView)
    requires
        s.line.len() >= 1,
        s.line[0] == 101,
        s.line.len() == 1 || s.line[1] == WORD_SEPARATOR,
        valid_utf8(s.line),
        s.elapsed < u32::MAX,
    ensures
        after_byte(s, END_OF_COMMAND) == (DriverView {
            line: Seq::empty(),
            elapsed: (s.elapsed + 1) as u32,
            ..s
        }),
        byte_reaction(s, END_OF_COMMAND, Reaction::ReadEncoders),
        forall|r: Reaction| #[trigger]
            byte_reaction(s, END_OF_COMMAND, r) ==> r is ReadEncoders,
{
    lemma_first_word(s.line, 101);
    let words = split_seq(s.line, WORD_SEPARATOR);
    assert(words[0] != word(111)) by {
        assert(words[0][0] != word(111)[0]);
    }
    assert(line_action(s.line) == LineAction::Encoders);
}

/// An `o` line whose left speed does not read as an `i8` changes no motor pin and sends
/// nothing: only the command time is noted, and the line stays pending.
pub proof fn law_unreadable_speed_ignored(s: DriverView)
    requires
        valid_utf8(s.line),
        s.line.len() >= 1,
        split_seq(s.line, WORD_SEPARATOR)[0] == seq![111u8],
        split_seq(s.line, WORD_SEPARATOR).len() < 2 || parsed_i8(
            split_seq(s.line, WORD_SEPARATOR)[1],
        ) is None,
        s.elapsed < u32::MAX,
    ensures
        after_byte(s, END_OF_COMMAND) == (DriverView {
            last_command: (s.elapsed + 1) as u32,
            elapsed: (s.elapsed + 1) as u32,
            ..s
        }),
        byte_reaction(s, END_OF_COMMAND, Reaction::Nothing),
        forall|r: Reaction| #[trigger] byte_reaction(s, END_OF_COMMAND, r) ==> r is Nothing,
{
    assert(line_action(s.line) == LineAction::Mark);
}

/// A line whose first word is neither `o` nor `e` stops every motor, sends nothing and
/// leaves the controller idle.
pub proof fn law_unknown_command_stops(s: DriverView)
    requires
        valid_utf8(s.line),
        s.line.len() >= 1,
        split_seq(s.line, WORD_SEPARATOR)[0] != seq![111u8],
        split_seq(s.line, WORD_SEPARATOR)[0] != seq![101u8],
        s.elapsed < u32::MAX,
    ensures
        after_byte(s, END_OF_COMMAND) == (DriverView {
            line: Seq::empty(),
            elapsed: (s.elapsed + 1) as u32,
            ..s
        }),
        byte_reaction(s, END_OF_COMMAND, Reaction::StopAll),
        forall|r: Reaction| #[trigger] byte_reaction(s, END_OF_COMMAND, r) ==> r is StopAll,
{
    assert(line_action(s.line) == LineAction::Stop);
}

/// A line that is not UTF-8 text changes nothing but the iteration count: no pin, no
/// reply, and the line stays pending.
pub proof fn law_non_text_line_ignored(s: DriverView)
    requires
        !valid_utf8(s.line),
        s.elapsed < u32::MAX,
    ensures
        after_byte(s, END_OF_COMMAND) == (DriverView { elapsed: (s.elapsed + 1) as u32, ..s }),
        byte_reaction(s, END_OF_COMMAND, Reaction::Nothing),
        forall|r: Reaction| #[trigger] byte_reaction(s, END_OF_COMMAND, r) ==> r is Nothing,
{
    assert(s.line.len() > 0);
}

/// A speed command whose left speed lies outside `i8` (the motor node sends up to 255)
/// leaves an idle controller's motors as they were and sends nothing; the command stays
/// pending as the start of the next line.
pub proof fn law_out_of_range_command_ignored(s: DriverView, left: i32, right: i32)
    requires
        s.line.len() == 0,
        s.elapsed + velocity_command_text(left, right).len() <= u32::MAX,
        !(-128 <= left <= 127),
    ensures
        ({
            let cmd = velocity_command_text(left, right);
            let before_end = after_bytes(s, cmd.drop_last());
            &&& before_end.line == cmd.drop_last()
            &&& byte_reaction(before_end, END_OF_COMMAND, Reaction::Nothing)
            &&& (forall|r: Reaction| #[trigger]
                byte_reaction(before_end, END_OF_COMMAND, r) ==> r is Nothing)
            &&& after_bytes(s, cmd) == (DriverView {
                line: cmd.drop_last(),
                last_command: (s.elapsed + cmd.len()) as u32,
                elapsed: (s.elapsed + cmd.len()) as u32,
                ..s
            })
        }),
{
    let cmd = velocity_command_text(left, right);
    let body = cmd.drop_last();
    lemma_i32_text_len(left);
    lemma_i32_text_len(right);
    law_velocity_command_words(left, right);
    law_plain_bytes_collect(s, body);
    assert(s.line + body =~= body);
    law_velocity_command_decoded(left, right);
    assert(cmd.last() == END_OF_COMMAND);
    assert(body.len() >= 1);
    let mid = after_bytes(s, body);
    assert(after_bytes(s, cmd) == after_byte(mid, END_OF_COMMAND)) by {
        assert(cmd.drop_last() == body);
    }
}

/// A wheel that did not turn keeps its count; a clockwise turn moves the left count up by
/// one and a counterclockwise turn down by one; the right wheel is mounted mirrored, so
/// its count always moves the other way.
pub proof fn law_turn_steps(t: Turn)
    ensures
        left_step(t) == 0 <==> t == Turn::Still,
        right_step(t) == 0 <==> t == Turn::Still,
        t == Turn::Clockwise ==> left_step(t) == 1,
        t == Turn::CounterClockwise ==> left_step(t) == -1,
        left_step(t) + right_step(t) == 0,
{
}

/// Bytes other than `>` that fit in the line are collected in order; nothing else changes
/// but the iteration count.
pub proof fn law_plain_bytes_collect(s: DriverView, bs: Seq<u8>)
    requires
        forall|i: int| 0 <= i < bs.len() ==> #[trigger] bs[i] != END_OF_COMMAND,
        s.line.len() + bs.len() <= LINE_CAPACITY,
        s.elapsed + bs.len() <= u32::MAX,
    ensures
        after_bytes(s, bs) == (DriverView {
            line: s.line + bs,
            elapsed: (s.elapsed + bs.len()) as u32,
            ..s
        }),
    decreases bs.len(),
{
    if bs.len() == 0 {
        assert(s.line + bs =~= s.line);
    } else {
        law_plain_bytes_collect(s, bs.drop_last());
        assert(bs[bs.len() - 1] != END_OF_COMMAND);
        assert((s.line + bs.drop_last()).push(bs.last()) =~= s.line + bs);
    }
}

/// A speed command sent by the motor node to an idle wheel controller sets both motors to
/// the commanded speeds, reports the counts, and leaves the controller idle again.
pub proof fn law_velocity_command_drives(s: DriverView, left: i32, right: i32)
    requires
        s.line.len() == 0,
        s.elapsed + velocity_command_text(left, right).len() <= u32::MAX,
        -128 < left <= 127,
        -128 < right <= 127,
    ensures
        ({
            let cmd = velocity_command_text(left, right);
            let before_end = after_bytes(s, cmd.drop_last());
            &&& after_bytes(s, cmd) == (DriverView {
                line: Seq::empty(),
                last_command: (s.elapsed + cmd.len()) as u32,
                elapsed: (s.elapsed + cmd.len()) as u32,
                ..s
            })
            &&& forall|r: Reaction|
                #[trigger] byte_reaction(before_end, END_OF_COMMAND, r) ==> (match r {
                    Reaction::DriveBoth { left: l, right: rr, report } => l == duty_of(
                        left as i8,
                    ) && rr == duty_of(right as i8) && report@ == report_text(
                        s.left_count,
                        s.right_count,
                    ),
                    _ => false,
                })
        }),
{
    let cmd = velocity_command_text(left, right);
    let body = cmd.drop_last();
    lemma_small_number_len(left as int);
    lemma_small_number_len(right as int);
    lemma_number_bytes(left as int);
    lemma_number_bytes(right as int);
    assert forall|i: int| 0 <= i < body.len() implies #[trigger] body[i] != END_OF_COMMAND by {
        let nl = integer_text(left as int).len();
        if 2 <= i < 2 + nl {
            assert(body[i] == integer_text(left as int)[i - 2]);
        } else if i > 2 + nl {
            assert(body[i] == integer_text(right as int)[i - nl - 3]);
        }
    }
    law_plain_bytes_collect(s, body);
    assert(s.line + body =~= body);
    law_velocity_command_decoded(left, right);
    assert(cmd.last() == END_OF_COMMAND);
}

/// A wheel is never driven both ways: one of its two duties is zero, and forward minus
/// backward is the commanded speed.
pub proof fn law_duty_single_direction(v: i8)
    requires
        v != -128,
    ensures
        duty_of(v).forward == 0 || duty_of(v).backward == 0,
        duty_of(v).forward - duty_of(v).backward == v,
{
}

/// The pending command line never grows past its capacity.
pub proof fn law_line_within_capacity(s: DriverView, b: u8)
    requires
        s.line.len() <= LINE_CAPACITY,
    ensures
        after_byte(s, b).line.len() <= LINE_CAPACITY,
{
}

/// What the IMU sends before its `>`, one byte at a time, is what the node collects, as
/// long as it is ASCII without a `>`; the `>` then hands it over without line feeds.
pub proof fn law_imu_reading_collected(pending: Seq<u8>, t: Seq<u8>)
    requires
        is_ascii_bytes(t),
        forall|i: int| 0 <= i < t.len() ==> #[trigger] t[i] != END_OF_READING,
    ensures
        pending_after(pending, t) == pending + t,
        valid_utf8(seq![END_OF_READING]),
        reader_after(pending + t, seq![END_OF_READING]) == Seq::<u8>::empty(),
    decreases t.len(),
{
    lemma_ascii_is_utf8(seq![END_OF_READING]);
    if t.len() == 0 {
        assert(pending + t =~= pending);
    } else {
        law_imu_reading_collected(pending, t.drop_last());
        let c = seq![t.last()];
        assert(is_ascii_bytes(c));
        lemma_ascii_is_utf8(c);
        assert(t[t.len() - 1] != END_OF_READING);
        assert(c != seq![END_OF_READING]) by {
            assert(c[0] != seq![END_OF_READING][0]);
        }
        assert((pending + t.drop_last()) + c =~= pending + t);
    }
}

/// Each reading of two counts becomes the baseline of the next: the second of two
/// readings is measured, wheel by wheel and in time, against the first.
pub proof fn law_reading_becomes_baseline(
    c: EncoderCounts,
    t1: u128,
    first: Seq<i32>,
    t2: u128,
    second: Seq<i32>,
)
    requires
        first.len() == 2,
        second.len() == 2,
        c.after_reading(t1, first).update_fits(t2, second),
    ensures
        c.after_reading(t1, first).change_to(t2, second) == (TickDelta {
            elapsed_ms: (t2 - t1) as u128,
            left: (second[0] - first[0]) as i32,
            right: (second[1] - first[1]) as i32,
        }),
        c.after_reading(t1, first).after_reading(t2, second) == c.after_reading(t2, second),
{
}

} // verus!
