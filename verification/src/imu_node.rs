//! The host's IMU node: it reads the IMU's serial stream chunk by chunk until the
//! end-of-reading byte `>`, then splits the reading into its orientation words and its
//! angular-velocity words.
use vstd::prelude::*;
use vstd::utf8::valid_utf8;
use crate::text::{
    find_first, is_first_occurrence, is_utf8, occurs_at, pieces_view, remove_byte, split_on,
    split_seq, without,
};

verus! {

broadcast use vstd::seq::group_seq_axioms;

/// Byte that ends one reading of the IMU (`>`).
pub const END_OF_READING: u8 = 62;

/// Separator between the orientation part and the angular-velocity part of a reading.
pub open spec fn angular_velocity_marker() -> Seq<u8> {
    seq![124u8, 97u8, 110u8, 103u8, 95u8, 118u8, 101u8, 108u8, 58u8]
}

/// The bytes `|ang_vel:`.
pub fn marker() -> (m: Vec<u8>)
    ensures
        m@ == angular_velocity_marker(),
{
    let m: Vec<u8> = vec![124u8, 97u8, 110u8, 103u8, 95u8, 118u8, 101u8, 108u8, 58u8];
    assert(m@ =~= angular_velocity_marker());
    m
}

/// Outcome of taking in one chunk that the serial port returned.
pub enum ReadStep {
    /// The reading goes on.
    Pending,
    /// The end of the reading arrived: the reading without its line feeds.
    Reading(Vec<u8>),
    /// The chunk was not UTF-8: the reading is abandoned.
    Invalid,
}

/// What the reader holds after taking in `chunk` while holding `pending`.
pub open spec fn reader_after(pending: Seq<u8>, chunk: Seq<u8>) -> Seq<u8> {
    if !valid_utf8(chunk) || chunk == seq![END_OF_READING] {
        Seq::empty()
    } else {
        pending + chunk
    }
}

/// What the reader holds after taking in the bytes `bs`, one byte per chunk.
pub open spec fn pending_after(pending: Seq<u8>, bs: Seq<u8>) -> Seq<u8>
    decreases bs.len(),
{
    if bs.len() == 0 {
        pending
    } else {
        reader_after(pending_after(pending, bs.drop_last()), seq![bs.last()])
    }
}

/// Collects one reading of the IMU.
pub struct ImuReader {
    pending: Vec<u8>,
}

impl View for ImuReader {
    type V = Seq<u8>;

    closed spec fn view(&self) -> Seq<u8> {
        self.pending@
    }
}

impl ImuReader {
    /// A reader that has received nothing yet.
    pub fn new() -> (r: ImuReader)
        ensures
            r@ == Seq::<u8>::empty(),
    {
        ImuReader { pending: Vec::new() }
    }

    /// Takes in one chunk from the serial port. A chunk that is not UTF-8 abandons the
    /// reading; the chunk `>` ends it; any other chunk is appended. A reading that ends
    /// or is abandoned leaves the reader empty for the next one.
    pub fn feed(&mut self, chunk: &[u8]) -> (step: ReadStep)
        ensures
            final(self)@ == reader_after(old(self)@, chunk@),
            !valid_utf8(chunk@) ==> step is Invalid && final(self)@ == Seq::<u8>::empty(),
            valid_utf8(chunk@) && chunk@ == seq![END_OF_READING] ==> (match step {
                ReadStep::Reading(r) => r@ == without(old(self)@, 10),
                _ => false,
            }) && final(self)@ == Seq::<u8>::empty(),
            valid_utf8(chunk@) && chunk@ != seq![END_OF_READING] ==> step is Pending
                && final(self)@ == old(self)@ + chunk@,
    {
        if !is_utf8(chunk) {
            self.pending = Vec::new();
            return ReadStep::Invalid;
        }
        if chunk.len() == 1 && chunk[0] == END_OF_READING {
            assert(chunk@ =~= seq![END_OF_READING]);
            let reading = remove_byte(self.pending.as_slice(), 10);
            self.pending = Vec::new();
            return ReadStep::Reading(reading);
        }
        assert(chunk@ != seq![END_OF_READING]) by {
            if chunk@ == seq![END_OF_READING] {
                assert(chunk@.len() == 1 && chunk@[0] == END_OF_READING);
            }
        }
        let n = chunk.len();
        let ghost start = self.pending@;
        let mut i: usize = 0;
        while i < n
            invariant
                n == chunk@.len(),
                i <= n,
                self.pending@ == start + chunk@.take(i as int),
            decreases n - i,
        {
            self.pending.push(chunk[i]);
            assert(chunk@.take(i + 1) =~= chunk@.take(i as int).push(chunk@[i as int]));
            i = i + 1;
        }
        assert(chunk@.take(n as int) =~= chunk@);
        ReadStep::Pending
    }
}

/// The two parts of a reading, each split into its space-separated words.
pub struct ImuFields {
    /// Words before the marker: the orientation.
    pub orientation: Vec<Vec<u8>>,
    /// Words after the marker: the angular velocity.
    pub angular_velocity: Vec<Vec<u8>>,
}

/// The fields of a reading split at the first marker at index `i`.
pub open spec fn fields_at(reading: Seq<u8>, i: int, f: ImuFields) -> bool {
    &&& is_first_occurrence(reading, angular_velocity_marker(), i)
    &&& pieces_view(f.orientation@) == split_seq(reading.take(i), 32)
    &&& pieces_view(f.angular_velocity@) == split_seq(
        reading.skip(i + angular_velocity_marker().len()),
        32,
    )
}

/// Splits a reading at its first `|ang_vel:` and each part at its spaces; `None` when
/// the reading holds no marker.
pub fn split_reading(reading: &[u8]) -> (fields: Option<ImuFields>)
    ensures
        fields is None <==> forall|j: int| !occurs_at(reading@, angular_velocity_marker(), j),
        fields matches Some(f) ==> exists|i: int| fields_at(reading@, i, f),
{
    let m = marker();
    match find_first(reading, m.as_slice()) {
        None => None,
        Some(i) => {
            let n = reading.len();
            assert(i + m@.len() <= n);
            let before = slice_prefix(reading, i);
            let after = slice_suffix(reading, i + m.len());
            let f = ImuFields {
                orientation: split_on(before.as_slice(), 32),
                angular_velocity: split_on(after.as_slice(), 32),
            };
            assert(fields_at(reading@, i as int, f));
            let res = Some(f);
            assert(res matches Some(g) && fields_at(reading@, i as int, g));
            res
        },
    }
}

/// The first `k` bytes of `s`.
fn slice_prefix(s: &[u8], k: usize) -> (out: Vec<u8>)
    requires
        k <= s@.len(),
    ensures
        out@ == s@.take(k as int),
{
    let mut out: Vec<u8> = Vec::new();
    let mut i: usize = 0;
    while i < k
        invariant
            k <= s@.len(),
            i <= k,
            out@ == s@.take(i as int),
        decreases k - i,
    {
        out.push(s[i]);
        assert(s@.take(i + 1) =~= s@.take(i as int).push(s@[i as int]));
        i = i + 1;
    }
    out
}

/// The bytes of `s` from index `k` on.
fn slice_suffix(s: &[u8], k: usize) -> (out: Vec<u8>)
    requires
        k <= s@.len(),
    ensures
        out@ == s@.skip(k as int),
{
    let n = s.len();
    let mut out: Vec<u8> = Vec::new();
    let mut i: usize = k;
    while i < n
        invariant
            n == s@.len(),
            k <= i <= n,
            out@ == s@.subrange(k as int, i as int),
        decreases n - i,
    {
        out.push(s[i]);
        assert(s@.subrange(k as int, i + 1) =~= s@.subrange(k as int, i as int).push(
            s@[i as int],
        ));
        i = i + 1;
    }
    assert(s@.subrange(k as int, n as int) =~= s@.skip(k as int));
    out
}

} // verus!
