//! The host's motor node: the commands it sends to the wheel controller, how it reads
//! the controller's replies, and the encoder bookkeeping between two readings.
use vstd::prelude::*;
use vstd::utf8::valid_utf8;
use crate::decimal::{integer_text, parse_i32, parsed_i32, push_i32};
use crate::text::{
    is_utf8, lemma_split_len, pieces_view, remove_byte, split_on, split_seq, without,
};

verus! {

broadcast use vstd::seq::group_seq_axioms;

/// The command `o <left> <right>>` that sets the two wheel speeds.
pub open spec fn velocity_command_text(left: i32, right: i32) -> Seq<u8> {
    seq![111u8, 32u8] + integer_text(left as int) + seq![32u8] + integer_text(right as int)
        + seq![62u8]
}

/// The command `o <left> <right>>` for the wheel speeds `left` and `right`
/// (`format!("o {} {}>", left, right)`).
pub fn velocity_command(left: i32, right: i32) -> (c: Vec<u8>)
    ensures
        c@ == velocity_command_text(left, right),
{
    let mut c: Vec<u8> = Vec::new();
    c.push(111);
    c.push(32);
    push_i32(&mut c, left);
    c.push(32);
    push_i32(&mut c, right);
    c.push(62);
    c
}

/// `cmd` closed with the end-of-command byte `>`, as the node sends a command that
/// expects an answer.
pub fn frame_command(cmd: &[u8]) -> (framed: Vec<u8>)
    ensures
        framed@ == cmd@.push(62),
{
    let mut framed: Vec<u8> = Vec::new();
    let n = cmd.len();
    let mut i: usize = 0;
    while i < n
        invariant
            n == cmd@.len(),
            i <= n,
            framed@ == cmd@.take(i as int),
        decreases n - i,
    {
        framed.push(cmd[i]);
        assert(cmd@.take(i + 1) =~= cmd@.take(i as int).push(cmd@[i as int]));
        i = i + 1;
    }
    assert(cmd@.take(n as int) =~= cmd@);
    framed.push(62);
    framed
}

/// The text of a reply: `None` unless the bytes are UTF-8, else the bytes without any
/// carriage return or line feed.
pub open spec fn reply_text(raw: Seq<u8>) -> Option<Seq<u8>> {
    if valid_utf8(raw) {
        Some(without(without(raw, 13), 10))
    } else {
        None
    }
}

/// The text of the bytes that one read of the serial port returned
/// (`str::from_utf8`, then the `\r` and `\n` removed).
pub fn clean_reply(raw: &[u8]) -> (text: Option<Vec<u8>>)
    ensures
        text matches Some(t) ==> reply_text(raw@) == Some(t@),
        text is None ==> reply_text(raw@) is None,
{
    if !is_utf8(raw) {
        return None;
    }
    let no_cr = remove_byte(raw, 13);
    let text = remove_byte(no_cr.as_slice(), 10);
    Some(text)
}

/// Every word reads as an `i32`.
pub open spec fn all_words_parse(words: Seq<Seq<u8>>) -> bool {
    forall|i: int| 0 <= i < words.len() ==> (#[trigger] parsed_i32(words[i])) is Some
}

/// The numbers of a reply: its space-separated words read as `i32`, or nothing at all
/// when any word does not read.
pub open spec fn reading_values(text: Seq<u8>) -> Seq<i32> {
    let words = split_seq(text, 32);
    if all_words_parse(words) {
        words.map_values(|w: Seq<u8>| parsed_i32(w).unwrap())
    } else {
        Seq::empty()
    }
}

/// The counts that the node takes from the raw bytes of a reply: the numbers of its
/// text, or none when the bytes are not text.
pub open spec fn counts_from_reply(raw: Seq<u8>) -> Seq<i32> {
    match reply_text(raw) {
        Some(t) => reading_values(t),
        None => Seq::empty(),
    }
}

/// The counts that the node takes from the raw bytes of a reply.
pub fn counts_of_reply(raw: &[u8]) -> (values: Vec<i32>)
    ensures
        values@ == counts_from_reply(raw@),
{
    match clean_reply(raw) {
        Some(text) => encoder_reading(text.as_slice()),
        None => Vec::new(),
    }
}

/// The numbers of a reply, as the node reads the encoder counts from it.
pub fn encoder_reading(text: &[u8]) -> (values: Vec<i32>)
    ensures
        values@ == reading_values(text@),
{
    let words = split_on(text, 32);
    let ghost spec_words = split_seq(text@, 32);
    proof {
        lemma_split_len(text@, 32);
    }
    assert forall|k: int| 0 <= k < words@.len() implies #[trigger] words@[k]@ == spec_words[k] by {
        assert(pieces_view(words@)[k] == words@[k]@);
    }
    let n = words.len();
    let mut values: Vec<i32> = Vec::new();
    let mut k: usize = 0;
    while k < n
        invariant
            n == words@.len(),
            spec_words == split_seq(text@, 32),
            n == spec_words.len(),
            forall|j: int| 0 <= j < n ==> #[trigger] words@[j]@ == spec_words[j],
            k <= n,
            values@.len() == k,
            forall|j: int|
                0 <= j < k ==> #[trigger] parsed_i32(spec_words[j]) == Some(values@[j]),
        decreases n - k,
    {
        match parse_i32(words[k].as_slice()) {
            Some(v) => values.push(v),
            None => {
                assert(!all_words_parse(spec_words)) by {
                    assert(parsed_i32(spec_words[k as int]) is None);
                }
                return Vec::new();
            },
        }
        k = k + 1;
    }
    assert(all_words_parse(spec_words)) by {
        assert forall|i: int| 0 <= i < spec_words.len() implies (#[trigger] parsed_i32(
            spec_words[i],
        )) is Some by {
            assert(parsed_i32(spec_words[i]) == Some(values@[i]));
        }
    }
    assert(values@ =~= spec_words.map_values(|w: Seq<u8>| parsed_i32(w).unwrap()));
    values
}

/// The encoder counts and time of the node's last reading.
pub struct EncoderCounts {
    /// Time of the last reading, in milliseconds since the epoch.
    pub last_read_time: u128,
    pub last_left_enc: i32,
    pub last_right_enc: i32,
}

/// What changed between two encoder readings.
#[derive(PartialEq, Eq, Structural, Debug)]
pub struct TickDelta {
    /// Milliseconds between the two readings.
    pub elapsed_ms: u128,
    /// Ticks of the left encoder since the previous reading.
    pub left: i32,
    /// Ticks of the right encoder since the previous reading.
    pub right: i32,
}

impl EncoderCounts {
    /// Counts as of the time `last_read_time`.
    pub fn new(last_read_time: u128, last_left_enc: i32, last_right_enc: i32) -> (c: Self)
        ensures
            c == (EncoderCounts { last_read_time, last_left_enc, last_right_enc }),
    {
        EncoderCounts { last_read_time, last_left_enc, last_right_enc }
    }

    /// For a reading of two counts, the differences fit: time does not run backwards and
    /// each tick difference is an `i32`.
    pub open spec fn update_fits(self, now_ms: u128, reading: Seq<i32>) -> bool {
        reading.len() == 2 ==> {
            &&& self.last_read_time <= now_ms
            &&& i32::MIN <= reading[0] - self.last_left_enc <= i32::MAX
            &&& i32::MIN <= reading[1] - self.last_right_enc <= i32::MAX
        }
    }

    /// The baseline after a reading of two counts taken at `now_ms`: that reading and
    /// its time.
    pub open spec fn after_reading(self, now_ms: u128, reading: Seq<i32>) -> EncoderCounts {
        EncoderCounts {
            last_read_time: now_ms,
            last_left_enc: reading[0],
            last_right_enc: reading[1],
        }
    }

    /// What changed since the baseline, for a reading of two counts taken at `now_ms`:
    /// the time, and each wheel's count against that wheel's previous count.
    pub open spec fn change_to(self, now_ms: u128, reading: Seq<i32>) -> TickDelta {
        TickDelta {
            elapsed_ms: (now_ms - self.last_read_time) as u128,
            left: (reading[0] - self.last_left_enc) as i32,
            right: (reading[1] - self.last_right_enc) as i32,
        }
    }

    /// Takes in a reading taken at `now_ms`. A reading of other than two counts changes
    /// nothing. Otherwise the differences to the previous reading are returned, and the
    /// reading and its time become the baseline for the next one.
    pub fn update(&mut self, now_ms: u128, reading: &[i32]) -> (delta: Option<TickDelta>)
        requires
            old(self).update_fits(now_ms, reading@),
        ensures
            reading@.len() != 2 ==> delta is None && *final(self) == *old(self),
            reading@.len() == 2 ==> delta == Some(old(self).change_to(now_ms, reading@))
                && *final(self) == old(self).after_reading(now_ms, reading@),
    {
        if reading.len() != 2 {
            return None;
        }
        let elapsed_ms = now_ms - self.last_read_time;
        let left = reading[0] - self.last_left_enc;
        let right = reading[1] - self.last_right_enc;
        self.last_left_enc = reading[0];
        self.last_right_enc = reading[1];
        self.last_read_time = now_ms;
        Some(TickDelta { elapsed_ms, left, right })
    }
}

} // verus!
