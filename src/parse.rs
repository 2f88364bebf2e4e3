use vstd::prelude::*;
use crate::frame::{Frame, FrameV, CR, LF, is_i64, frame_view};

verus! {

broadcast use vstd::std_specs::vec::axiom_vec_index_decreases;

/// What decoding from a position of a buffer gives: a frame and the position
/// just after it, a buffer that ends too early, or bytes that no encoding
/// starts with.
pub enum Decoded {
    Complete(FrameV, int),
    Incomplete,
    Malformed,
}

/// Like `Decoded`, for a run of consecutive frames.
pub enum ItemsDecoded {
    Done(Seq<FrameV>, int),
    Incomplete,
    Malformed,
}

/// The first position at or after `i` where a CR LF pair starts.
pub open spec fn crlf_from(s: Seq<u8>, i: int) -> Option<int>
    decreases s.len() - i,
{
    if i < 0 || i + 1 >= s.len() {
        None
    } else if s[i] == CR && s[i + 1] == LF {
        Some(i)
    } else {
        crlf_from(s, i + 1)
    }
}

pub open spec fn is_digit(b: u8) -> bool {
    48 <= b <= 57
}

pub open spec fn all_digits(t: Seq<u8>) -> bool {
    t.len() > 0 && forall|i: int| 0 <= i < t.len() ==> is_digit(#[trigger] t[i])
}

/// The number that a run of decimal digits writes.
pub open spec fn digits_value(t: Seq<u8>) -> nat
    decreases t.len(),
{
    if t.len() == 0 {
        0
    } else {
        digits_value(t.drop_last()) * 10 + (t.last() - 48) as nat
    }
}

/// The integer that a line of decimal text writes, optionally led by `-`,
/// where it fits in 64 bits.
pub open spec fn parse_int(t: Seq<u8>) -> Option<int> {
    let neg = t.len() > 0 && t[0] == 45;
    let d = if neg {
        t.subrange(1, t.len() as int)
    } else {
        t
    };
    let v = if neg {
        -digits_value(d)
    } else {
        digits_value(d) as int
    };
    if all_digits(d) && is_i64(v) {
        Some(v)
    } else {
        None
    }
}

/// Decoding one frame that starts at position `i` of `s`.
pub open spec fn parse_at(s: Seq<u8>, i: int) -> Decoded
    decreases s.len() - i, 0nat,
{
    if i < 0 || i >= s.len() {
        Decoded::Incomplete
    } else {
        let m = s[i];
        if m != 43 && m != 45 && m != 58 && m != 36 && m != 42 {
            Decoded::Malformed
        } else {
            match crlf_from(s, i + 1) {
                None => Decoded::Incomplete,
                Some(p) => {
                    let line = s.subrange(i + 1, p);
                    let after = p + 2;
                    if p <= i || after > s.len() {
                        Decoded::Malformed
                    } else if m == 43 {
                        Decoded::Complete(FrameV::Simple(line), after)
                    } else if m == 45 {
                        Decoded::Complete(FrameV::Error(line), after)
                    } else {
                        match parse_int(line) {
                            None => Decoded::Malformed,
                            Some(n) => {
                                if m == 58 {
                                    Decoded::Complete(FrameV::Integer(n), after)
                                } else if n == -1 {
                                    Decoded::Complete(FrameV::Null, after)
                                } else if n < -1 {
                                    Decoded::Malformed
                                } else if m == 36 {
                                    if s.len() < after + n + 2 {
                                        Decoded::Incomplete
                                    } else if s[after + n] == CR && s[after + n + 1] == LF {
                                        Decoded::Complete(
                                            FrameV::Bulk(s.subrange(after, after + n)),
                                            after + n + 2,
                                        )
                                    } else {
                                        Decoded::Malformed
                                    }
                                } else {
                                    match parse_items_at(s, after, n as nat) {
                                        ItemsDecoded::Done(items, e) => Decoded::Complete(
                                            FrameV::Array(items),
                                            e,
                                        ),
                                        ItemsDecoded::Incomplete => Decoded::Incomplete,
                                        ItemsDecoded::Malformed => Decoded::Malformed,
                                    }
                                }
                            },
                        }
                    }
                },
            }
        }
    }
}

/// Decoding `k` consecutive frames, the first at position `i` of `s`.
pub open spec fn parse_items_at(s: Seq<u8>, i: int, k: nat) -> ItemsDecoded
    decreases s.len() - i, k + 1,
{
    if k == 0 {
        ItemsDecoded::Done(Seq::empty(), i)
    } else if i < 0 || i >= s.len() {
        ItemsDecoded::Incomplete
    } else {
        match parse_at(s, i) {
            Decoded::Complete(f, e) => {
                if e <= i || e > s.len() {
                    ItemsDecoded::Malformed
                } else {
                    match parse_items_at(s, e, (k - 1) as nat) {
                        ItemsDecoded::Done(fs, e2) => ItemsDecoded::Done(seq![f] + fs, e2),
                        other => other,
                    }
                }
            },
            Decoded::Incomplete => ItemsDecoded::Incomplete,
            Decoded::Malformed => ItemsDecoded::Malformed,
        }
    }
}

/// Decoding one frame from the start of `s`.
pub open spec fn parse_frame(s: Seq<u8>) -> Decoded {
    parse_at(s, 0)
}

/// The outcome of decoding, with the frame and the end position in hand.
#[derive(Debug, PartialEq, Eq)]
pub enum Parsed {
    Complete(Frame, usize),
    Incomplete,
    Malformed,
}

impl View for Parsed {
    type V = Decoded;

    open spec fn view(&self) -> Decoded {
        match *self {
            Parsed::Complete(f, e) => Decoded::Complete(f@, e as int),
            Parsed::Incomplete => Decoded::Incomplete,
            Parsed::Malformed => Decoded::Malformed,
        }
    }
}

pub enum ItemsParsed {
    Done(Vec<Frame>, usize),
    Incomplete,
    Malformed,
}

pub open spec fn frames_view(v: Seq<Frame>) -> Seq<FrameV> {
    Seq::new(v.len(), |j: int| v[j]@)
}

impl View for ItemsParsed {
    type V = ItemsDecoded;

    open spec fn view(&self) -> ItemsDecoded {
        match *self {
            ItemsParsed::Done(v, e) => ItemsDecoded::Done(frames_view(v@), e as int),
            ItemsParsed::Incomplete => ItemsDecoded::Incomplete,
            ItemsParsed::Malformed => ItemsDecoded::Malformed,
        }
    }
}

fn find_crlf(s: &[u8], from: usize) -> (r: Option<usize>)
    ensures
        match r {
            Some(p) => crlf_from(s@, from as int) == Some(p as int),
            None => crlf_from(s@, from as int) is None,
        },
{
    let mut j: usize = from;
    while j < s.len() && j + 1 < s.len()
        invariant
            j >= from,
            crlf_from(s@, from as int) == crlf_from(s@, j as int),
        decreases s.len() - j,
    {
        if s[j] == CR && s[j + 1] == LF {
            return Some(j);
        }
        j = j + 1;
    }
    None
}

proof fn lemma_digits_prefix(t: Seq<u8>, m: int)
    requires
        0 <= m <= t.len(),
    ensures
        digits_value(t) >= digits_value(t.subrange(0, m)),
    decreases t.len(),
{
    if m < t.len() {
        lemma_digits_prefix(t.drop_last(), m);
        assert(t.drop_last().subrange(0, m) =~= t.subrange(0, m));
    } else {
        assert(t.subrange(0, m) =~= t);
    }
}

pub(crate) fn parse_int_exec(s: &[u8], a: usize, b: usize) -> (r: Option<i64>)
    requires
        a <= b <= s.len(),
    ensures
        match r {
            Some(n) => parse_int(s@.subrange(a as int, b as int)) == Some(n as int),
            None => parse_int(s@.subrange(a as int, b as int)) is None,
        },
{
    let ghost t = s@.subrange(a as int, b as int);
    let neg = a < b && s[a] == 45;
    let start: usize = if neg {
        a + 1
    } else {
        a
    };
    let ghost d = s@.subrange(start as int, b as int);
    assert(neg ==> d =~= t.subrange(1, t.len() as int));
    assert(!neg ==> d =~= t);
    assert(neg == (t.len() > 0 && t[0] == 45));
    if start >= b {
        return None;
    }
    let mut acc: u128 = 0;
    let mut j: usize = start;
    #[verifier::loop_isolation(false)]
    while j < b
        invariant
            start <= j <= b <= s.len(),
            d == s@.subrange(start as int, b as int),
            acc == digits_value(d.subrange(0, j - start)),
            acc <= 9223372036854775808,
            forall|q: int| 0 <= q < j - start ==> is_digit(#[trigger] d[q]),
        decreases b - j,
    {
        let c = s[j];
        if c < 48 || c > 57 {
            assert(!is_digit(d[j - start]));
            assert(!all_digits(d));
            return None;
        }
        assert(d.subrange(0, j - start + 1).drop_last() =~= d.subrange(0, j - start));
        acc = acc * 10 + (c - 48) as u128;
        j = j + 1;
        assert(acc == digits_value(d.subrange(0, j - start)));
        if acc > 9223372036854775808 {
            proof {
                if all_digits(d) {
                    lemma_digits_prefix(d, j - start);
                }
            }
            return None;
        }
    }
    assert(d.subrange(0, j - start) =~= d);
    if neg {
        if acc == 9223372036854775808 {
            Some(i64::MIN)
        } else {
            Some(-(acc as i64))
        }
    } else {
        if acc == 9223372036854775808 {
            None
        } else {
            Some(acc as i64)
        }
    }
}

pub(crate) fn copy_range(s: &[u8], a: usize, b: usize) -> (r: Vec<u8>)
    requires
        a <= b <= s.len(),
    ensures
        r@ == s@.subrange(a as int, b as int),
{
    let mut out: Vec<u8> = Vec::new();
    let mut j: usize = a;
    while j < b
        invariant
            a <= j <= b <= s.len(),
            out@ == s@.subrange(a as int, j as int),
        decreases b - j,
    {
        out.push(s[j]);
        j = j + 1;
        assert(out@ =~= s@.subrange(a as int, j as int));
    }
    out
}

/// Decodes one frame that starts at position `i` of `s`.
pub fn decode_at(s: &[u8], i: usize) -> (r: Parsed)
    ensures
        r@ == parse_at(s@, i as int),
    decreases s@.len() - i, 0nat,
{
    if i >= s.len() {
        return Parsed::Incomplete;
    }
    let m = s[i];
    if m != 43 && m != 45 && m != 58 && m != 36 && m != 42 {
        return Parsed::Malformed;
    }
    let p = match find_crlf(s, i + 1) {
        None => {
            return Parsed::Incomplete;
        },
        Some(p) => p,
    };
    proof {
        lemma_crlf_from_bounds(s@, i + 1);
    }
    let after = p + 2;
    if m == 43 {
        return Parsed::Complete(Frame::Simple(copy_range(s, i + 1, p)), after);
    }
    if m == 45 {
        return Parsed::Complete(Frame::Error(copy_range(s, i + 1, p)), after);
    }
    let n = match parse_int_exec(s, i + 1, p) {
        None => {
            return Parsed::Malformed;
        },
        Some(n) => n,
    };
    if m == 58 {
        return Parsed::Complete(Frame::Integer(n), after);
    }
    if n == -1 {
        return Parsed::Complete(Frame::Null, after);
    }
    if n < -1 {
        return Parsed::Malformed;
    }
    if m == 36 {
        let avail: u64 = (s.len() - after) as u64;
        if avail < n as u64 + 2 {
            return Parsed::Incomplete;
        }
        let len = n as usize;
        if s[after + len] == CR && s[after + len + 1] == LF {
            let body = copy_range(s, after, after + len);
            return Parsed::Complete(Frame::Bulk(body), after + len + 2);
        } else {
            return Parsed::Malformed;
        }
    }
    match decode_items_at(s, after, n as u64) {
        ItemsParsed::Done(items, e) => {
            let f = Frame::Array(items);
            assert(f@ == FrameV::Array(frames_view(items@))) by {
                assert(frames_view(items@) =~= frame_view(f)->Array_0);
            }
            Parsed::Complete(f, e)
        },
        ItemsParsed::Incomplete => Parsed::Incomplete,
        ItemsParsed::Malformed => Parsed::Malformed,
    }
}

/// Decodes `k` consecutive frames, the first at position `i` of `s`.
pub fn decode_items_at(s: &[u8], i: usize, k: u64) -> (r: ItemsParsed)
    ensures
        r@ == parse_items_at(s@, i as int, k as nat),
    decreases s@.len() - i, k + 1,
{
    if k == 0 {
        let v: Vec<Frame> = Vec::new();
        assert(frames_view(v@) =~= Seq::<FrameV>::empty());
        return ItemsParsed::Done(v, i);
    }
    if i >= s.len() {
        return ItemsParsed::Incomplete;
    }
    match decode_at(s, i) {
        Parsed::Complete(f, e) => {
            if e <= i || e > s.len() {
                return ItemsParsed::Malformed;
            }
            match decode_items_at(s, e, k - 1) {
                ItemsParsed::Done(mut fs, e2) => {
                    let ghost old_fs = fs@;
                    let ghost fv = f@;
                    fs.insert(0, f);
                    assert(frames_view(fs@) =~= seq![fv] + frames_view(old_fs));
                    ItemsParsed::Done(fs, e2)
                },
                ItemsParsed::Incomplete => ItemsParsed::Incomplete,
                ItemsParsed::Malformed => ItemsParsed::Malformed,
            }
        },
        Parsed::Incomplete => ItemsParsed::Incomplete,
        Parsed::Malformed => ItemsParsed::Malformed,
    }
}

pub proof fn lemma_crlf_from_bounds(s: Seq<u8>, i: int)
    ensures
        crlf_from(s, i) matches Some(p) ==> i <= p && p + 1 < s.len() && s[p] == CR && s[p + 1]
            == LF,
    decreases s.len() - i,
{
    if i < 0 || i + 1 >= s.len() {
    } else if s[i] == CR && s[i + 1] == LF {
    } else {
        lemma_crlf_from_bounds(s, i + 1);
    }
}

/// A decoded frame ends after where it started and within the buffer.
pub proof fn lemma_parse_end(s: Seq<u8>, i: int)
    ensures
        parse_at(s, i) matches Decoded::Complete(_, e) ==> i < e <= s.len(),
    decreases s.len() - i, 0nat,
{
    if 0 <= i < s.len() {
        lemma_crlf_from_bounds(s, i + 1);
        if let Some(p) = crlf_from(s, i + 1) {
            if let Some(n) = parse_int(s.subrange(i + 1, p)) {
                if p > i && p + 2 <= s.len() && n >= 0 {
                    lemma_items_end(s, p + 2, n as nat);
                }
            }
        }
    }
}

proof fn lemma_items_end(s: Seq<u8>, i: int, k: nat)
    requires
        0 <= i <= s.len(),
    ensures
        parse_items_at(s, i, k) matches ItemsDecoded::Done(_, e) ==> i <= e <= s.len(),
    decreases s.len() - i, k + 1,
{
    if k > 0 && i < s.len() {
        lemma_parse_end(s, i);
        if let Decoded::Complete(_, e) = parse_at(s, i) {
            if i < e <= s.len() {
                lemma_items_end(s, e, (k - 1) as nat);
            }
        }
    }
}

} // verus!
