use vstd::prelude::*;
use crate::frame::{FrameV, CR, LF, wf, has_crlf, is_i64, crlf, nat_text, int_text, encode, encode_all, Frame};
use crate::parse::{
    Decoded, ItemsDecoded, crlf_from, all_digits, digits_value, parse_int, parse_at,
    parse_items_at, parse_frame,
};

verus! {

broadcast use vstd::seq::axiom_seq_subrange_decreases;

proof fn lemma_nat_text(n: nat)
    ensures
        all_digits(nat_text(n)),
        digits_value(nat_text(n)) == n,
    decreases n,
{
    let t = nat_text(n);
    if n < 10 {
        assert(t.drop_last() =~= Seq::<u8>::empty());
        assert(t.last() == 48 + n);
        assert(digits_value(t.drop_last()) == 0);
        assert(digits_value(t) == digits_value(t.drop_last()) * 10 + (t.last() - 48) as nat);
    } else {
        lemma_nat_text(n / 10);
        assert(t.drop_last() =~= nat_text(n / 10));
        assert(t.last() == 48 + n % 10);
        assert(n == (n / 10) * 10 + n % 10);
        assert(digits_value(t) == digits_value(t.drop_last()) * 10 + (t.last() - 48) as nat);
        assert forall|i: int| 0 <= i < t.len() implies crate::parse::is_digit(#[trigger] t[i]) by {
            if i < t.len() - 1 {
                assert(t[i] == nat_text(n / 10)[i]);
            }
        }
    }
}

proof fn lemma_int_text(n: int)
    requires
        is_i64(n),
    ensures
        parse_int(int_text(n)) == Some(n),
        forall|k: int| 0 <= k < int_text(n).len() ==> #[trigger] int_text(n)[k] != CR,
{
    let t = int_text(n);
    if n < 0 {
        lemma_nat_text((-n) as nat);
        assert(t.subrange(1, t.len() as int) =~= nat_text((-n) as nat));
        assert forall|k: int| 0 <= k < t.len() implies #[trigger] t[k] != CR by {
            if k > 0 {
                assert(t[k] == nat_text((-n) as nat)[k - 1]);
            }
        }
    } else {
        lemma_nat_text(n as nat);
        assert(t[0] != 45);
    }
}

proof fn lemma_crlf_at(s: Seq<u8>, j: int, p: int)
    requires
        0 <= j <= p,
        p + 1 < s.len(),
        s[p] == CR,
        s[p + 1] == LF,
        forall|q: int| j <= q < p ==> !(s[q] == CR && #[trigger] s[q + 1] == LF),
    ensures
        crlf_from(s, j) == Some(p),
    decreases p - j,
{
    if j < p {
        assert(!(s[j] == CR && s[j + 1] == LF));
        lemma_crlf_at(s, j + 1, p);
    }
}

proof fn lemma_split(s: Seq<u8>, i: int, a: Seq<u8>, b: Seq<u8>)
    requires
        0 <= i,
        i + a.len() + b.len() <= s.len(),
        s.subrange(i, i + a.len() + b.len()) == a + b,
    ensures
        s.subrange(i, i + a.len()) == a,
        s.subrange(i + a.len(), i + a.len() + b.len()) == b,
{
    assert(s.subrange(i, i + a.len()) =~= (a + b).subrange(0, a.len() as int));
    assert(s.subrange(i + a.len(), i + a.len() + b.len()) =~= (a + b).subrange(
        a.len() as int,
        (a.len() + b.len()) as int,
    ));
    assert((a + b).subrange(0, a.len() as int) =~= a);
    assert((a + b).subrange(a.len() as int, (a.len() + b.len()) as int) =~= b);
}

/// A header line, a marker and a text free of CR LF pairs, is found at `i`.
proof fn lemma_line(s: Seq<u8>, i: int, m: u8, line: Seq<u8>)
    requires
        0 <= i,
        i + line.len() + 3 <= s.len(),
        s.subrange(i, i + line.len() + 3) == seq![m] + line + crlf(),
        !has_crlf(line),
    ensures
        s[i] == m,
        crlf_from(s, i + 1) == Some(i + 1 + line.len()),
        s.subrange(i + 1, i + 1 + line.len()) == line,
        forall|q: int| i + 1 <= q < i + 1 + line.len() ==> !(s[q] == CR && #[trigger] s[q + 1] == LF),
{
    let w = seq![m] + line + crlf();
    let p = i + 1 + line.len();
    assert(s[i] == w[0]);
    assert(s[p] == w[p - i]);
    assert(s[p + 1] == w[p + 1 - i]);
    assert(s.subrange(i + 1, p) =~= line) by {
        assert forall|k: int| 0 <= k < line.len() implies s.subrange(i + 1, p)[k] == line[k] by {
            assert(s[i + 1 + k] == w[1 + k]);
        }
    }
    assert forall|q: int| i + 1 <= q < p implies !(s[q] == CR && #[trigger] s[q + 1] == LF) by {
        assert(s[q] == line[q - i - 1]);
        if q + 1 < p {
            assert(s[q + 1] == line[q + 1 - i - 1]);
            if s[q] == CR && s[q + 1] == LF {
                assert(line[q - i - 1] == CR && line[(q - i - 1) + 1] == LF);
            }
        }
    }
    lemma_crlf_at(s, i + 1, p);
}

proof fn lemma_int_line(n: int)
    requires
        is_i64(n),
    ensures
        !has_crlf(int_text(n)),
        parse_int(int_text(n)) == Some(n),
{
    lemma_int_text(n);
    let t = int_text(n);
    if has_crlf(t) {
        let k = choose|k: int| 0 <= k && k + 1 < t.len() && t[k] == CR && #[trigger] t[k + 1] == LF;
        assert(t[k] != CR);
    }
}

pub proof fn lemma_encode_all_first(items: Seq<FrameV>)
    requires
        items.len() > 0,
    ensures
        encode_all(items) == encode(items[0]) + encode_all(items.drop_first()),
    decreases items.len(),
{
    let n = items.len();
    if n == 1 {
        assert(items.subrange(0, 0) =~= Seq::<FrameV>::empty());
        assert(items.drop_first() =~= Seq::<FrameV>::empty());
        assert(encode_all(items) =~= encode(items[0]) + encode_all(items.drop_first()));
    } else {
        let init = items.subrange(0, n - 1);
        lemma_encode_all_first(init);
        assert(init.drop_first() =~= items.drop_first().subrange(0, n - 2));
        assert(items.drop_first()[n - 2] == items[n - 1]);
        assert(encode_all(items) =~= encode(items[0]) + encode_all(items.drop_first()));
    }
}

proof fn lemma_decode_encoded(f: FrameV, s: Seq<u8>, i: int)
    requires
        wf(f),
        0 <= i,
        i + encode(f).len() <= s.len(),
        s.subrange(i, i + encode(f).len()) == encode(f),
    ensures
        parse_at(s, i) == Decoded::Complete(f, i + encode(f).len()),
    decreases f,
{
    match f {
        FrameV::Simple(t) => {
            lemma_line(s, i, 43u8, t);
        },
        FrameV::Error(t) => {
            lemma_line(s, i, 45u8, t);
        },
        FrameV::Integer(n) => {
            lemma_int_line(n);
            lemma_line(s, i, 58u8, int_text(n));
        },
        FrameV::Null => {
            lemma_int_line(-1);
            lemma_line(s, i, 36u8, int_text(-1));
        },
        FrameV::Bulk(b) => {
            let t = int_text(b.len() as int);
            let h = seq![36u8] + t + crlf();
            lemma_int_line(b.len() as int);
            assert(encode(f) =~= h + (b + crlf()));
            lemma_split(s, i, h, b + crlf());
            lemma_line(s, i, 36u8, t);
            let after = i + h.len();
            lemma_split(s, after, b, crlf());
            assert(s[after + b.len()] == crlf()[0]);
            assert(s[after + b.len() + 1] == crlf()[1]);
        },
        FrameV::Array(items) => {
            let t = int_text(items.len() as int);
            let h = seq![42u8] + t + crlf();
            lemma_int_line(items.len() as int);
            assert(encode(f) =~= h + encode_all(items));
            lemma_split(s, i, h, encode_all(items));
            lemma_line(s, i, 42u8, t);
            lemma_decode_encoded_all(items, s, i + h.len());
        },
    }
}

proof fn lemma_decode_encoded_all(items: Seq<FrameV>, s: Seq<u8>, i: int)
    requires
        forall|j: int| 0 <= j < items.len() ==> wf(#[trigger] items[j]),
        0 <= i,
        i + encode_all(items).len() <= s.len(),
        s.subrange(i, i + encode_all(items).len()) == encode_all(items),
    ensures
        parse_items_at(s, i, items.len()) == ItemsDecoded::Done(items, i + encode_all(items).len()),
    decreases items,
{
    if items.len() > 0 {
        let first = items[0];
        let rest = items.drop_first();
        assert(rest =~= items.subrange(1, items.len() as int));
        lemma_encode_all_first(items);
        lemma_split(s, i, encode(first), encode_all(rest));
        lemma_decode_encoded(first, s, i);
        assert(encode(first).len() > 0);
        lemma_decode_encoded_all(rest, s, i + encode(first).len());
        assert(seq![first] + rest =~= items);
    } else {
        assert(items =~= Seq::<FrameV>::empty());
    }
}

/// Decoding the bytes of a frame gives the frame back and takes exactly its
/// bytes, whatever follows them in the buffer.
pub proof fn lemma_round_trip(f: Frame, rest: Seq<u8>)
    requires
        wf(f@),
    ensures
        parse_frame(encode(f@) + rest) == Decoded::Complete(f@, encode(f@).len() as int),
{
    let s = encode(f@) + rest;
    assert(s.subrange(0, encode(f@).len() as int) =~= encode(f@));
    lemma_decode_encoded(f@, s, 0);
}

proof fn lemma_crlf_none(s: Seq<u8>, j: int)
    requires
        0 <= j,
        forall|q: int| j <= q && q + 1 < s.len() ==> !(s[q] == CR && #[trigger] s[q + 1] == LF),
    ensures
        crlf_from(s, j) is None,
    decreases s.len() - j,
{
    if j + 1 < s.len() {
        assert(!(s[j] == CR && s[j + 1] == LF));
        lemma_crlf_none(s, j + 1);
    }
}

/// A header line cut before the end of its CR LF has no line end yet.
proof fn lemma_line_cut(s: Seq<u8>, i: int, m: u8, line: Seq<u8>, k: int)
    requires
        0 <= i < k < i + line.len() + 3,
        i + line.len() + 3 <= s.len(),
        s.subrange(i, i + line.len() + 3) == seq![m] + line + crlf(),
        !has_crlf(line),
    ensures
        s.subrange(0, k)[i] == m,
        crlf_from(s.subrange(0, k), i + 1) is None,
{
    lemma_line(s, i, m, line);
    let c = s.subrange(0, k);
    assert forall|q: int| i + 1 <= q && q + 1 < c.len() implies !(c[q] == CR && #[trigger] c[q + 1]
        == LF) by {
        assert(c[q] == s[q] && c[q + 1] == s[q + 1]);
    }
    lemma_crlf_none(c, i + 1);
}

proof fn lemma_cut_keeps(s: Seq<u8>, k: int, a: int, b: int)
    requires
        0 <= a <= b <= k <= s.len(),
    ensures
        s.subrange(0, k).subrange(a, b) == s.subrange(a, b),
{
    assert(s.subrange(0, k).subrange(a, b) =~= s.subrange(a, b));
}

proof fn lemma_decode_cut(f: FrameV, s: Seq<u8>, i: int, k: int)
    requires
        wf(f),
        0 <= i <= k < i + encode(f).len(),
        i + encode(f).len() <= s.len(),
        s.subrange(i, i + encode(f).len()) == encode(f),
    ensures
        parse_at(s.subrange(0, k), i) == Decoded::Incomplete,
    decreases f,
{
    let c = s.subrange(0, k);
    if k == i {
        return;
    }
    match f {
        FrameV::Simple(t) => {
            lemma_line_cut(s, i, 43u8, t, k);
        },
        FrameV::Error(t) => {
            lemma_line_cut(s, i, 45u8, t, k);
        },
        FrameV::Integer(n) => {
            lemma_int_line(n);
            lemma_line_cut(s, i, 58u8, int_text(n), k);
        },
        FrameV::Null => {
            lemma_int_line(-1);
            lemma_line_cut(s, i, 36u8, int_text(-1), k);
        },
        FrameV::Bulk(b) => {
            let t = int_text(b.len() as int);
            let h = seq![36u8] + t + crlf();
            lemma_int_line(b.len() as int);
            assert(encode(f) =~= h + (b + crlf()));
            lemma_split(s, i, h, b + crlf());
            if k < i + h.len() {
                lemma_line_cut(s, i, 36u8, t, k);
            } else {
                lemma_cut_keeps(s, k, i, i + h.len());
                lemma_line(c, i, 36u8, t);
            }
        },
        FrameV::Array(items) => {
            let t = int_text(items.len() as int);
            let h = seq![42u8] + t + crlf();
            lemma_int_line(items.len() as int);
            assert(encode(f) =~= h + encode_all(items));
            lemma_split(s, i, h, encode_all(items));
            if k < i + h.len() {
                lemma_line_cut(s, i, 42u8, t, k);
            } else {
                lemma_cut_keeps(s, k, i, i + h.len());
                lemma_line(c, i, 42u8, t);
                lemma_decode_cut_all(items, s, i + h.len(), k);
            }
        },
    }
}

proof fn lemma_decode_cut_all(items: Seq<FrameV>, s: Seq<u8>, i: int, k: int)
    requires
        forall|j: int| 0 <= j < items.len() ==> wf(#[trigger] items[j]),
        0 <= i <= k < i + encode_all(items).len(),
        i + encode_all(items).len() <= s.len(),
        s.subrange(i, i + encode_all(items).len()) == encode_all(items),
    ensures
        parse_items_at(s.subrange(0, k), i, items.len()) == ItemsDecoded::Incomplete,
    decreases items,
{
    let c = s.subrange(0, k);
    if items.len() == 0 {
        assert(encode_all(items).len() == 0);
        return;
    }
    let first = items[0];
    let rest = items.drop_first();
    assert(rest =~= items.subrange(1, items.len() as int));
    lemma_encode_all_first(items);
    lemma_split(s, i, encode(first), encode_all(rest));
    let e = i + encode(first).len();
    if k < e {
        lemma_decode_cut(first, s, i, k);
    } else {
        lemma_cut_keeps(s, k, i, e);
        lemma_decode_encoded(first, c, i);
        assert(encode(first).len() > 0);
        lemma_decode_cut_all(rest, s, e, k);
    }
}

/// Bytes of a frame cut anywhere before their end decode as incomplete, and
/// once the rest of the bytes has come the buffer decodes to the frame, as
/// the whole did at once.
pub proof fn lemma_split_decode(f: Frame, k: int)
    requires
        wf(f@),
        0 <= k < encode(f@).len(),
    ensures
        parse_frame(encode(f@).subrange(0, k)) == Decoded::Incomplete,
        parse_frame(encode(f@).subrange(0, k) + encode(f@).subrange(k, encode(f@).len() as int))
            == parse_frame(encode(f@)),
        parse_frame(encode(f@)) == Decoded::Complete(f@, encode(f@).len() as int),
{
    let s = encode(f@);
    assert(s.subrange(0, s.len() as int) =~= s);
    lemma_decode_cut(f@, s, 0, k);
    assert(s.subrange(0, k) + s.subrange(k, s.len() as int) =~= s);
    lemma_round_trip(f, Seq::empty());
    assert(s + Seq::<u8>::empty() =~= s);
}

} // verus!
