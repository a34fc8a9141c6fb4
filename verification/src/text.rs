//! Byte-string utilities shared by the serial protocols: UTF-8 validation,
//! removal of line-control bytes, splitting on a separator and substring search.
use vstd::prelude::*;
use vstd::utf8::*;

verus! {

broadcast use vstd::seq::group_seq_axioms;

/// Width of the scalar that starts at `bytes[i]` when it is well formed, else 0.
fn first_scalar_width(bytes: &[u8], i: usize) -> (k: usize)
    requires
        i < bytes@.len(),
    ensures
        k == 0 <==> !valid_first_scalar(bytes@.subrange(i as int, bytes@.len() as int)),
        k != 0 ==> k as int == length_of_first_scalar(
            bytes@.subrange(i as int, bytes@.len() as int),
        ),
{
    let ghost rest = bytes@.subrange(i as int, bytes@.len() as int);
    let n = bytes.len();
    let b0 = bytes[i];
    assert(rest[0] == b0);
    if b0 <= 0x7f {
        let cp: u32 = (b0 & 0x7f) as u32;
        assert(cp == decode_first_codepoint(rest));
        assert(cp <= 0x7f) by (bit_vector)
            requires
                cp == (b0 & 0x7f) as u32,
        ;
        1
    } else if 0xc0 <= b0 && b0 <= 0xdf {
        if n - i < 2 {
            return 0;
        }
        let b1 = bytes[i + 1];
        assert(rest[1] == b1);
        if !(0x80 <= b1 && b1 <= 0xbf) {
            return 0;
        }
        let cp: u32 = (((b0 & 0x1f) as u32) << 6u32) | ((b1 & 0x3f) as u32);
        assert(cp == decode_first_codepoint(rest));
        assert(cp <= 0x7ff) by (bit_vector)
            requires
                cp == (((b0 & 0x1f) as u32) << 6u32) | ((b1 & 0x3f) as u32),
        ;
        if cp >= 0x80 {
            2
        } else {
            0
        }
    } else if 0xe0 <= b0 && b0 <= 0xef {
        if n - i < 3 {
            return 0;
        }
        let b1 = bytes[i + 1];
        let b2 = bytes[i + 2];
        assert(rest[1] == b1 && rest[2] == b2);
        if !(0x80 <= b1 && b1 <= 0xbf && 0x80 <= b2 && b2 <= 0xbf) {
            return 0;
        }
        let cp: u32 = (((b0 & 0x0f) as u32) << 12u32) | (((b1 & 0x3f) as u32) << 6u32) | ((b2
            & 0x3f) as u32);
        assert(cp == decode_first_codepoint(rest));
        if cp >= 0x800 && !(0xd800 <= cp && cp <= 0xdfff) {
            3
        } else {
            0
        }
    } else if 0xf0 <= b0 && b0 <= 0xf7 {
        if n - i < 4 {
            return 0;
        }
        let b1 = bytes[i + 1];
        let b2 = bytes[i + 2];
        let b3 = bytes[i + 3];
        assert(rest[1] == b1 && rest[2] == b2 && rest[3] == b3);
        if !(0x80 <= b1 && b1 <= 0xbf && 0x80 <= b2 && b2 <= 0xbf && 0x80 <= b3 && b3 <= 0xbf) {
            return 0;
        }
        let cp: u32 = (((b0 & 0x07) as u32) << 18u32) | (((b1 & 0x3f) as u32) << 12u32) | (((b2
            & 0x3f) as u32) << 6u32) | ((b3 & 0x3f) as u32);
        assert(cp == decode_first_codepoint(rest));
        if 0x10000 <= cp && cp <= 0x10ffff && !(0xd800 <= cp && cp <= 0xdfff) {
            4
        } else {
            0
        }
    } else {
        0
    }
}

/// Whether `bytes` is well-formed UTF-8, the test that `core::str::from_utf8` makes.
pub fn is_utf8(bytes: &[u8]) -> (res: bool)
    ensures
        res == valid_utf8(bytes@),
{
    let n = bytes.len();
    let mut i: usize = 0;
    assert(bytes@.subrange(0, 0) =~= Seq::<u8>::empty());
    while i < n
        invariant
            n == bytes@.len(),
            i <= n,
            partial_valid_utf8(bytes@, i as int),
        decreases n - i,
    {
        let k = first_scalar_width(bytes, i);
        if k == 0 {
            proof {
                let rest = bytes@.subrange(i as int, n as int);
                assert(rest.len() > 0);
                assert(!valid_utf8(rest));
                partial_valid_partial_invalid_utf8(bytes@, i as int);
            }
            return false;
        }
        proof {
            partial_valid_utf8_extend(bytes@, i as int);
        }
        i = i + k;
    }
    assert(bytes@.subrange(0, n as int) =~= bytes@);
    true
}


/// `s` with every occurrence of the byte `x` taken out.
pub open spec fn without(s: Seq<u8>, x: u8) -> Seq<u8> {
    s.filter(|b: u8| b != x)
}

/// A copy of `bytes` with every occurrence of `x` removed (`str::replace(x, "")` for an
/// ASCII `x` in UTF-8 text).
pub fn remove_byte(bytes: &[u8], x: u8) -> (out: Vec<u8>)
    ensures
        out@ == without(bytes@, x),
{
    let n = bytes.len();
    let mut out: Vec<u8> = Vec::new();
    let mut i: usize = 0;
    assert(bytes@.take(0) =~= Seq::<u8>::empty());
    proof {
        reveal(Seq::filter);
    }
    while i < n
        invariant
            n == bytes@.len(),
            i <= n,
            out@ == without(bytes@.take(i as int), x),
        decreases n - i,
    {
        let b = bytes[i];
        proof {
            reveal(Seq::filter);
            assert(bytes@.take(i + 1).drop_last() =~= bytes@.take(i as int));
            assert(bytes@.take(i + 1).last() == b);
        }
        if b != x {
            out.push(b);
        }
        i = i + 1;
    }
    assert(bytes@.take(n as int) =~= bytes@);
    out
}

/// The abstract contents of a list of byte strings.
pub open spec fn pieces_view(v: Seq<Vec<u8>>) -> Seq<Seq<u8>> {
    v.map_values(|p: Vec<u8>| p@)
}

/// The pieces of `s` between occurrences of the separator byte `sep`, as `str::split`
/// yields them for a one-byte pattern: the empty input has one empty piece, and each
/// separator closes the current piece and opens a new one.
pub open spec fn split_seq(s: Seq<u8>, sep: u8) -> Seq<Seq<u8>>
    decreases s.len(),
{
    if s.len() == 0 {
        seq![Seq::<u8>::empty()]
    } else {
        let init = split_seq(s.drop_last(), sep);
        if s.last() == sep {
            init.push(Seq::<u8>::empty())
        } else {
            init.update(init.len() - 1, init.last().push(s.last()))
        }
    }
}

/// Splitting always yields at least one piece, and one more than there are separators.
pub proof fn lemma_split_len(s: Seq<u8>, sep: u8)
    ensures
        split_seq(s, sep).len() >= 1,
        split_seq(s, sep).len() == s.filter(|b: u8| b == sep).len() + 1,
    decreases s.len(),
{
    reveal(Seq::filter);
    if s.len() > 0 {
        lemma_split_len(s.drop_last(), sep);
    }
}

/// Splits `bytes` at every occurrence of `sep` (`str::split` with a one-byte pattern).
pub fn split_on(bytes: &[u8], sep: u8) -> (pieces: Vec<Vec<u8>>)
    ensures
        pieces_view(pieces@) == split_seq(bytes@, sep),
{
    let n = bytes.len();
    let mut done: Vec<Vec<u8>> = Vec::new();
    let mut cur: Vec<u8> = Vec::new();
    let mut i: usize = 0;
    assert(bytes@.take(0) =~= Seq::<u8>::empty());
    assert(pieces_view(done@).push(cur@) =~= split_seq(bytes@.take(0), sep));
    while i < n
        invariant
            n == bytes@.len(),
            i <= n,
            pieces_view(done@).push(cur@) == split_seq(bytes@.take(i as int), sep),
        decreases n - i,
    {
        let b = bytes[i];
        let ghost before = bytes@.take(i as int);
        assert(bytes@.take(i + 1).drop_last() =~= before);
        assert(bytes@.take(i + 1).last() == b);
        proof {
            lemma_split_len(before, sep);
        }
        if b == sep {
            let finished = cur;
            done.push(finished);
            cur = Vec::new();
            assert(pieces_view(done@).push(cur@) =~= split_seq(before, sep).push(Seq::<u8>::empty()));
        } else {
            let ghost old_cur = cur@;
            cur.push(b);
            let ghost init = split_seq(before, sep);
            assert(init.last() == old_cur);
            assert(pieces_view(done@).push(cur@) =~= init.update(init.len() - 1, init.last().push(b)));
        }
        i = i + 1;
    }
    assert(bytes@.take(n as int) =~= bytes@);
    let last = cur;
    done.push(last);
    assert(pieces_view(done@) =~= split_seq(bytes@, sep));
    done
}

/// `p` occurs in `s` starting at index `i`.
pub open spec fn occurs_at(s: Seq<u8>, p: Seq<u8>, i: int) -> bool {
    0 <= i && i + p.len() <= s.len() && s.subrange(i, i + p.len()) == p
}

/// `i` is the first index at which `p` occurs in `s`.
pub open spec fn is_first_occurrence(s: Seq<u8>, p: Seq<u8>, i: int) -> bool {
    occurs_at(s, p, i) && forall|j: int| 0 <= j < i ==> !occurs_at(s, p, j)
}

/// Whether `p` starts at `s[i]`, compared byte by byte.
fn matches_at(s: &[u8], p: &[u8], i: usize) -> (res: bool)
    requires
        i + p@.len() <= s@.len(),
    ensures
        res == occurs_at(s@, p@, i as int),
{
    let m = p.len();
    let n = s.len();
    let mut k: usize = 0;
    while k < m
        invariant
            m == p@.len(),
            n == s@.len(),
            i + m <= s@.len(),
            k <= m,
            forall|j: int| 0 <= j < k ==> s@[i + j] == p@[j],
        decreases m - k,
    {
        if s[i + k] != p[k] {
            assert(s@.subrange(i as int, i + m)[k as int] != p@[k as int]);
            return false;
        }
        k = k + 1;
    }
    assert(s@.subrange(i as int, i + m) =~= p@);
    true
}

/// The first index at which `p` occurs in `s` (`str::find` with a string pattern).
pub fn find_first(s: &[u8], p: &[u8]) -> (res: Option<usize>)
    ensures
        res matches Some(i) ==> is_first_occurrence(s@, p@, i as int),
        res is None ==> forall|j: int| !occurs_at(s@, p@, j),
{
    let n = s.len();
    let m = p.len();
    if m > n {
        return None;
    }
    let last = n - m;
    let mut i: usize = 0;
    loop
        invariant
            n == s@.len(),
            m == p@.len(),
            last == n - m,
            i <= last,
            forall|j: int| 0 <= j < i ==> !occurs_at(s@, p@, j),
        decreases last - i,
    {
        if matches_at(s, p, i) {
            return Some(i);
        }
        if i == last {
            return None;
        }
        i = i + 1;
    }
}


/// Every byte of `s` is ASCII.
pub open spec fn is_ascii_bytes(s: Seq<u8>) -> bool {
    forall|i: int| 0 <= i < s.len() ==> #[trigger] s[i] < 0x80
}

/// ASCII text is well-formed UTF-8.
pub proof fn lemma_ascii_is_utf8(s: Seq<u8>)
    requires
        is_ascii_bytes(s),
    ensures
        valid_utf8(s),
{
    assert(s.subrange(0, 0) =~= Seq::<u8>::empty());
    assert(partial_valid_utf8(s, 0));
    assert forall|i: int| 0 <= 0 <= i < s.len() <= s.len() implies #[trigger] is_leading_byte_width_1(
        s[i],
    ) by {
        assert(s[i] < 0x80);
    }
    partial_valid_utf8_extend_ascii_block(s, 0, s.len() as int);
    assert(s.subrange(0, s.len() as int) =~= s);
}

/// Removing `x` from `s` followed by `b`.
pub proof fn lemma_without_push(s: Seq<u8>, b: u8, x: u8)
    ensures
        without(s.push(b), x) == (if b == x {
            without(s, x)
        } else {
            without(s, x).push(b)
        }),
{
    reveal(Seq::filter);
    assert(s.push(b).drop_last() =~= s);
}

/// Removing a byte that does not occur changes nothing.
pub proof fn lemma_without_absent(s: Seq<u8>, x: u8)
    requires
        forall|i: int| 0 <= i < s.len() ==> #[trigger] s[i] != x,
    ensures
        without(s, x) == s,
    decreases s.len(),
{
    reveal(Seq::filter);
    if s.len() > 0 {
        lemma_without_absent(s.drop_last(), x);
        lemma_without_push(s.drop_last(), s.last(), x);
        assert(s.drop_last().push(s.last()) =~= s);
    }
}

/// Text without the separator is a single piece.
pub proof fn lemma_split_no_separator(s: Seq<u8>, sep: u8)
    requires
        forall|i: int| 0 <= i < s.len() ==> #[trigger] s[i] != sep,
    ensures
        split_seq(s, sep) == seq![s],
    decreases s.len(),
{
    if s.len() > 0 {
        lemma_split_no_separator(s.drop_last(), sep);
        assert(s.drop_last().push(s.last()) =~= s);
        assert(split_seq(s, sep) =~= seq![s]);
    } else {
        assert(s =~= Seq::<u8>::empty());
    }
}

/// A separator between two texts splits them apart: the pieces of `x`, then those of `y`.
pub proof fn lemma_split_at_separator(x: Seq<u8>, y: Seq<u8>, sep: u8)
    ensures
        split_seq(x.push(sep) + y, sep) == split_seq(x, sep) + split_seq(y, sep),
    decreases y.len(),
{
    lemma_split_len(x, sep);
    lemma_split_len(y, sep);
    let z = x.push(sep) + y;
    if y.len() == 0 {
        assert(z =~= x.push(sep));
        assert(x.push(sep).drop_last() =~= x);
        assert(split_seq(z, sep) =~= split_seq(x, sep) + split_seq(y, sep));
    } else {
        lemma_split_at_separator(x, y.drop_last(), sep);
        lemma_split_len(y.drop_last(), sep);
        assert(z.drop_last() =~= x.push(sep) + y.drop_last());
        assert(z.last() == y.last());
        assert(split_seq(z, sep) =~= split_seq(x, sep) + split_seq(y, sep));
    }
}

} // verus!
