use vstd::prelude::*;

verus! {

broadcast use {
    vstd::std_specs::vec::axiom_vec_index_decreases,
    vstd::seq::axiom_seq_subrange_decreases,
};

/// Carriage return.
pub const CR: u8 = 13;

/// Line feed.
pub const LF: u8 = 10;

/// One value of the wire protocol.
///
/// `Simple` and `Error` carry text that never holds a CR LF pair; `Bulk`
/// carries arbitrary bytes.
#[derive(Debug, PartialEq, Eq)]
pub enum Frame {
    Simple(Vec<u8>),
    Error(Vec<u8>),
    Integer(i64),
    Bulk(Vec<u8>),
    Null,
    Array(Vec<Frame>),
}

/// The mathematical value of a frame.
pub enum FrameV {
    Simple(Seq<u8>),
    Error(Seq<u8>),
    Integer(int),
    Bulk(Seq<u8>),
    Null,
    Array(Seq<FrameV>),
}

pub open spec fn frame_view(f: Frame) -> FrameV
    decreases f,
{
    match f {
        Frame::Simple(t) => FrameV::Simple(t@),
        Frame::Error(t) => FrameV::Error(t@),
        Frame::Integer(n) => FrameV::Integer(n as int),
        Frame::Bulk(b) => FrameV::Bulk(b@),
        Frame::Null => FrameV::Null,
        Frame::Array(items) => FrameV::Array(
            Seq::new(
                items.len() as nat,
                |i: int|
                    if 0 <= i < items.len() {
                        frame_view(items[i])
                    } else {
                        FrameV::Null
                    },
            ),
        ),
    }
}

impl View for Frame {
    type V = FrameV;

    open spec fn view(&self) -> FrameV {
        frame_view(*self)
    }
}

/// Whether `t` holds a CR immediately followed by an LF.
pub open spec fn has_crlf(t: Seq<u8>) -> bool {
    exists|i: int| 0 <= i && i + 1 < t.len() && t[i] == CR && #[trigger] t[i + 1] == LF
}

pub open spec fn is_i64(n: int) -> bool {
    i64::MIN <= n <= i64::MAX
}

/// A frame that can be put on the wire: its status and error texts hold no
/// CR LF pair, and its integers and lengths fit in 64 bits.
pub open spec fn wf(f: FrameV) -> bool
    decreases f,
{
    match f {
        FrameV::Simple(t) => !has_crlf(t),
        FrameV::Error(t) => !has_crlf(t),
        FrameV::Integer(n) => is_i64(n),
        FrameV::Bulk(b) => is_i64(b.len() as int),
        FrameV::Null => true,
        FrameV::Array(items) => is_i64(items.len() as int) && forall|i: int| 0 <= i < items.len() ==> wf(#[trigger] items[i]),
    }
}

pub open spec fn crlf() -> Seq<u8> {
    seq![CR, LF]
}

/// The decimal digits of a natural number, most significant first.
pub open spec fn nat_text(n: nat) -> Seq<u8>
    decreases n,
{
    if n < 10 {
        seq![(48 + n) as u8]
    } else {
        nat_text(n / 10).push((48 + n % 10) as u8)
    }
}

/// The decimal text of an integer, with a leading `-` when negative.
pub open spec fn int_text(n: int) -> Seq<u8> {
    if n < 0 {
        seq![45u8] + nat_text((-n) as nat)
    } else {
        nat_text(n as nat)
    }
}

/// The bytes that stand for a frame on the wire.
pub open spec fn encode(f: FrameV) -> Seq<u8>
    decreases f,
{
    match f {
        FrameV::Simple(t) => seq![43u8] + t + crlf(),
        FrameV::Error(t) => seq![45u8] + t + crlf(),
        FrameV::Integer(n) => seq![58u8] + int_text(n) + crlf(),
        FrameV::Bulk(b) => seq![36u8] + int_text(b.len() as int) + crlf() + b + crlf(),
        FrameV::Null => seq![36u8] + int_text(-1) + crlf(),
        FrameV::Array(items) => seq![42u8] + int_text(items.len() as int) + crlf() + encode_all(
            items,
        ),
    }
}

/// The encodings of a sequence of frames, one after the other.
pub open spec fn encode_all(items: Seq<FrameV>) -> Seq<u8>
    decreases items,
{
    if items.len() == 0 {
        Seq::empty()
    } else {
        encode_all(items.subrange(0, items.len() - 1)) + encode(items[items.len() - 1])
    }
}

fn push_nat(out: &mut Vec<u8>, n: u64)
    ensures
        final(out)@ == old(out)@ + nat_text(n as nat),
    decreases n,
{
    if n < 10 {
        out.push((48 + n) as u8);
        assert(final(out)@ =~= old(out)@ + nat_text(n as nat));
    } else {
        push_nat(out, n / 10);
        out.push((48 + n % 10) as u8);
        assert(final(out)@ =~= old(out)@ + nat_text(n as nat));
    }
}

fn push_int(out: &mut Vec<u8>, n: i64)
    ensures
        final(out)@ == old(out)@ + int_text(n as int),
{
    if n < 0 {
        out.push(45u8);
        let m: u64 = (0i128 - n as i128) as u64;
        push_nat(out, m);
        assert(final(out)@ =~= old(out)@ + int_text(n as int));
    } else {
        push_nat(out, n as u64);
    }
}

fn push_bytes(out: &mut Vec<u8>, b: &Vec<u8>)
    ensures
        final(out)@ == old(out)@ + b@,
{
    let ghost start = out@;
    let mut i: usize = 0;
    while i < b.len()
        invariant
            i <= b.len(),
            out@ == start + b@.subrange(0, i as int),
        decreases b.len() - i,
    {
        out.push(b[i]);
        i = i + 1;
        assert(out@ =~= start + b@.subrange(0, i as int));
    }
    assert(b@.subrange(0, b.len() as int) =~= b@);
}

fn push_crlf(out: &mut Vec<u8>)
    ensures
        final(out)@ == old(out)@ + crlf(),
{
    out.push(CR);
    out.push(LF);
    assert(final(out)@ =~= old(out)@ + crlf());
}

impl Frame {
    /// Appends the wire bytes of this frame to `out`.
    pub fn write_to(&self, out: &mut Vec<u8>)
        ensures
            final(out)@ == old(out)@ + encode(self@),
        decreases self,
    {
        let ghost start = out@;
        match self {
            Frame::Simple(t) => {
                out.push(43u8);
                push_bytes(out, t);
                push_crlf(out);
                assert(out@ =~= start + encode(self@));
            },
            Frame::Error(t) => {
                out.push(45u8);
                push_bytes(out, t);
                push_crlf(out);
                assert(out@ =~= start + encode(self@));
            },
            Frame::Integer(n) => {
                out.push(58u8);
                push_int(out, *n);
                push_crlf(out);
                assert(out@ =~= start + encode(self@));
            },
            Frame::Bulk(b) => {
                out.push(36u8);
                push_nat(out, b.len() as u64);
                push_crlf(out);
                push_bytes(out, b);
                push_crlf(out);
                assert(out@ =~= start + encode(self@));
            },
            Frame::Null => {
                out.push(36u8);
                push_int(out, -1i64);
                push_crlf(out);
                assert(out@ =~= start + encode(self@));
            },
            Frame::Array(items) => {
                out.push(42u8);
                push_nat(out, items.len() as u64);
                push_crlf(out);
                let ghost head = out@;
                let ghost views = Seq::new(items.len() as nat, |j: int| items@[j]@);
                assert(views =~= match self@ {
                    FrameV::Array(v) => v,
                    _ => views,
                });
                let mut i: usize = 0;
                #[verifier::loop_isolation(false)]
                while i < items.len()
                    invariant
                        i <= items.len(),
                        views.len() == items.len(),
                        forall|j: int| 0 <= j < items.len() ==> views[j] == (#[trigger] items@[j])@,
                        out@ == head + encode_all(views.subrange(0, i as int)),
                    decreases items.len() - i,
                {
                    proof {
                        lemma_encode_all_push(views.subrange(0, i as int), views[i as int]);
                        assert(views.subrange(0, i as int).push(views[i as int]) =~= views.subrange(0, i as int + 1));
                    }
                    proof {
                        assert(decreases_to!(*self => self->Array_0));
                        assert(decreases_to!(*items => items[i as int]));
                    }
                    items[i].write_to(out);
                    i = i + 1;
                }
                assert(views.subrange(0, items.len() as int) =~= views);
                assert(out@ =~= start + encode(self@));
            },
        }
    }

    /// The wire bytes of this frame.
    pub fn encode(&self) -> (r: Vec<u8>)
        ensures
            r@ == encode(self@),
    {
        let mut out: Vec<u8> = Vec::new();
        self.write_to(&mut out);
        assert(out@ =~= encode(self@));
        out
    }
}

pub proof fn lemma_encode_all_push(items: Seq<FrameV>, f: FrameV)
    ensures
        encode_all(items.push(f)) == encode_all(items) + encode(f),
{
    assert(items.push(f).subrange(0, items.len() as int) =~= items);
}

} // verus!
