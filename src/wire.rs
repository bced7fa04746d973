//! The bytes that cross between processes: containers of records, and the
//! framed messages that carry them.
use vstd::prelude::*;

verus! {

/// The eight bytes of `x`, least significant first.
pub open spec fn le_bytes(x: u64) -> Seq<u8> {
    seq![
        (x & 0xff) as u8,
        ((x >> 8) & 0xff) as u8,
        ((x >> 16) & 0xff) as u8,
        ((x >> 24) & 0xff) as u8,
        ((x >> 32) & 0xff) as u8,
        ((x >> 40) & 0xff) as u8,
        ((x >> 48) & 0xff) as u8,
        ((x >> 56) & 0xff) as u8,
    ]
}

/// The number whose bytes, least significant first, are `b[at..at + 8]`.
pub open spec fn le_value(b: Seq<u8>, at: int) -> u64 {
    (b[at] as u64) | ((b[at + 1] as u64) << 8u64) | ((b[at + 2] as u64) << 16u64) | ((b[at + 3] as u64) << 24u64)
        | ((b[at + 4] as u64) << 32u64) | ((b[at + 5] as u64) << 40u64) | ((b[at + 6] as u64) << 48u64)
        | ((b[at + 7] as u64) << 56u64)
}

/// The encoding of a sequence of numbers: each one's eight bytes in turn.
pub open spec fn encoding(xs: Seq<u64>) -> Seq<u8>
    decreases xs.len(),
{
    if xs.len() == 0 {
        seq![]
    } else {
        encoding(xs.drop_last()) + le_bytes(xs.last())
    }
}

proof fn lemma_le_round_trip(x: u64)
    ensures
        le_value(le_bytes(x), 0) == x,
{
    let b0 = (x & 0xff) as u8;
    let b1 = ((x >> 8) & 0xff) as u8;
    let b2 = ((x >> 16) & 0xff) as u8;
    let b3 = ((x >> 24) & 0xff) as u8;
    let b4 = ((x >> 32) & 0xff) as u8;
    let b5 = ((x >> 40) & 0xff) as u8;
    let b6 = ((x >> 48) & 0xff) as u8;
    let b7 = ((x >> 56) & 0xff) as u8;
    assert(((b0 as u64) | ((b1 as u64) << 8u64) | ((b2 as u64) << 16u64) | ((b3 as u64) << 24u64)
        | ((b4 as u64) << 32u64) | ((b5 as u64) << 40u64) | ((b6 as u64) << 48u64) | ((b7 as u64) << 56u64)) == x)
        by (bit_vector)
        requires
            b0 == (x & 0xff) as u8,
            b1 == ((x >> 8) & 0xff) as u8,
            b2 == ((x >> 16) & 0xff) as u8,
            b3 == ((x >> 24) & 0xff) as u8,
            b4 == ((x >> 32) & 0xff) as u8,
            b5 == ((x >> 40) & 0xff) as u8,
            b6 == ((x >> 48) & 0xff) as u8,
            b7 == ((x >> 56) & 0xff) as u8,
    ;
}

/// Equal bytes read as equal numbers.
proof fn lemma_le_value_same(a: Seq<u8>, i: int, b: Seq<u8>, j: int)
    requires
        0 <= i,
        i + 8 <= a.len(),
        0 <= j,
        j + 8 <= b.len(),
        a.subrange(i, i + 8) =~= b.subrange(j, j + 8),
    ensures
        le_value(a, i) == le_value(b, j),
{
    let sa = a.subrange(i, i + 8);
    let sb = b.subrange(j, j + 8);
    assert(a[i] == sa[0] && b[j] == sb[0]);
    assert(a[i + 1] == sa[1] && b[j + 1] == sb[1]);
    assert(a[i + 2] == sa[2] && b[j + 2] == sb[2]);
    assert(a[i + 3] == sa[3] && b[j + 3] == sb[3]);
    assert(a[i + 4] == sa[4] && b[j + 4] == sb[4]);
    assert(a[i + 5] == sa[5] && b[j + 5] == sb[5]);
    assert(a[i + 6] == sa[6] && b[j + 6] == sb[6]);
    assert(a[i + 7] == sa[7] && b[j + 7] == sb[7]);
}

proof fn lemma_encoding_len(xs: Seq<u64>)
    ensures
        encoding(xs).len() == 8 * xs.len(),
    decreases xs.len(),
{
    if xs.len() > 0 {
        lemma_encoding_len(xs.drop_last());
    }
}

proof fn lemma_encoding_at(xs: Seq<u64>, i: int)
    requires
        0 <= i < xs.len(),
    ensures
        le_value(encoding(xs), 8 * i) == xs[i],
    decreases xs.len(),
{
    lemma_encoding_len(xs.drop_last());
    if i == xs.len() - 1 {
        lemma_le_round_trip(xs.last());
        let e = encoding(xs);
        let l = le_bytes(xs.last());
        assert(e.subrange(8 * i, 8 * i + 8) =~= l.subrange(0, 8));
        lemma_le_value_same(e, 8 * i, l, 0);
    } else {
        lemma_encoding_at(xs.drop_last(), i);
        let e = encoding(xs);
        let e0 = encoding(xs.drop_last());
        assert(e.subrange(8 * i, 8 * i + 8) =~= e0.subrange(8 * i, 8 * i + 8));
        lemma_le_value_same(e, 8 * i, e0, 8 * i);
    }
}

/// Appends the eight bytes of `x`, least significant first.
fn push_u64(out: &mut Vec<u8>, x: u64)
    ensures
        final(out)@ == old(out)@ + le_bytes(x),
{
    out.push((x & 0xff) as u8);
    out.push(((x >> 8) & 0xff) as u8);
    out.push(((x >> 16) & 0xff) as u8);
    out.push(((x >> 24) & 0xff) as u8);
    out.push(((x >> 32) & 0xff) as u8);
    out.push(((x >> 40) & 0xff) as u8);
    out.push(((x >> 48) & 0xff) as u8);
    out.push(((x >> 56) & 0xff) as u8);
    proof {
        assert(final(out)@ =~= old(out)@ + le_bytes(x));
    }
}

/// Reads the number whose eight bytes, least significant first, start at `at`.
fn read_u64(b: &Vec<u8>, at: usize) -> (r: u64)
    requires
        at + 8 <= b@.len(),
    ensures
        r == le_value(b@, at as int),
{
    let _n = b.len();
    (b[at] as u64) | ((b[at + 1] as u64) << 8u64) | ((b[at + 2] as u64) << 16u64) | ((b[at + 3] as u64) << 24u64)
        | ((b[at + 4] as u64) << 32u64) | ((b[at + 5] as u64) << 40u64) | ((b[at + 6] as u64) << 48u64)
        | ((b[at + 7] as u64) << 56u64)
}

/// The bytes of a container of records.
pub fn encode(records: &Vec<u64>) -> (r: Vec<u8>)
    ensures
        r@ == encoding(records@),
{
    let mut out: Vec<u8> = Vec::new();
    let mut i: usize = 0;
    while i < records.len()
        invariant
            0 <= i <= records@.len(),
            out@ == encoding(records@.take(i as int)),
        decreases records@.len() - i,
    {
        push_u64(&mut out, records[i]);
        proof {
            assert(records@.take(i + 1).drop_last() =~= records@.take(i as int));
        }
        i = i + 1;
    }
    proof {
        assert(records@.take(i as int) =~= records@);
    }
    out
}

/// The container whose bytes are `bytes`; none where their number is not a
/// multiple of eight.
pub fn decode(bytes: &Vec<u8>) -> (r: Option<Vec<u64>>)
    ensures
        r is None <==> bytes@.len() % 8 != 0,
        r is Some ==> r->Some_0@.len() == bytes@.len() / 8 && forall|i: int| 0 <= i < r->Some_0@.len()
            ==> #[trigger] r->Some_0@[i] == le_value(bytes@, 8 * i),
{
    if bytes.len() % 8 != 0 {
        return None;
    }
    let n = bytes.len() / 8;
    let mut out: Vec<u64> = Vec::new();
    let mut i: usize = 0;
    while i < n
        invariant
            0 <= i <= n,
            n == bytes@.len() / 8,
            bytes@.len() % 8 == 0,
            bytes@.len() <= usize::MAX,
            out@.len() == i,
            forall|k: int| 0 <= k < i ==> #[trigger] out@[k] == le_value(bytes@, 8 * k),
        decreases n - i,
    {
        proof {
            assert(8 * i + 8 <= bytes@.len()) by (nonlinear_arith)
                requires
                    i < n,
                    n == bytes@.len() / 8,
            ;
        }
        out.push(read_u64(bytes, 8 * i));
        i = i + 1;
    }
    Some(out)
}

/// Round trip: decoding the bytes of a container gives the container back.
pub proof fn lemma_round_trip(records: Seq<u64>)
    ensures
        encoding(records).len() % 8 == 0,
        encoding(records).len() / 8 == records.len(),
        forall|i: int| 0 <= i < records.len() ==> #[trigger] le_value(encoding(records), 8 * i) == records[i],
{
    lemma_encoding_len(records);
    assert forall|i: int| 0 <= i < records.len() implies #[trigger] le_value(encoding(records), 8 * i) == records[i] by {
        lemma_encoding_at(records, i);
    }
}

/// The header of a message between processes.
#[derive(Clone, Copy, PartialEq, Eq, Structural, Debug)]
pub struct MessageHeader {
    pub channel: u64,
    pub source: u64,
    pub target: u64,
    pub length: u64,
}

/// The bytes of a header: its four fields in order, eight bytes each.
pub open spec fn header_bytes(h: MessageHeader) -> Seq<u8> {
    le_bytes(h.channel) + le_bytes(h.source) + le_bytes(h.target) + le_bytes(h.length)
}

/// Frames `payload` behind a header naming the channel, the source and
/// target workers, and the payload's length.
pub fn frame(channel: u64, source: u64, target: u64, payload: &Vec<u8>) -> (r: Vec<u8>)
    ensures
        r@ == header_bytes(MessageHeader { channel, source, target, length: payload@.len() as u64 }) + payload@,
{
    let mut out: Vec<u8> = Vec::new();
    push_u64(&mut out, channel);
    push_u64(&mut out, source);
    push_u64(&mut out, target);
    push_u64(&mut out, payload.len() as u64);
    let ghost head = out@;
    let mut i: usize = 0;
    while i < payload.len()
        invariant
            0 <= i <= payload@.len(),
            out@ == head + payload@.take(i as int),
        decreases payload@.len() - i,
    {
        out.push(payload[i]);
        proof {
            assert(head + payload@.take(i + 1) =~= (head + payload@.take(i as int)).push(payload@[i as int]));
        }
        i = i + 1;
    }
    proof {
        assert(payload@.take(i as int) =~= payload@);
        assert(head =~= header_bytes(MessageHeader { channel, source, target, length: payload@.len() as u64 }));
    }
    out
}

/// Reads the header at the start of `bytes`, if all of it is there; the
/// payload is the `length` bytes after it.
pub fn read_header(bytes: &Vec<u8>) -> (r: Option<MessageHeader>)
    ensures
        r is None <==> bytes@.len() < 32,
        r is Some ==> r->Some_0 == (MessageHeader {
            channel: le_value(bytes@, 0),
            source: le_value(bytes@, 8),
            target: le_value(bytes@, 16),
            length: le_value(bytes@, 24),
        }),
{
    if bytes.len() < 32 {
        return None;
    }
    Some(MessageHeader {
        channel: read_u64(bytes, 0),
        source: read_u64(bytes, 8),
        target: read_u64(bytes, 16),
        length: read_u64(bytes, 24),
    })
}

/// A framed header reads back as itself.
pub proof fn lemma_header_round_trip(h: MessageHeader, payload: Seq<u8>)
    ensures
        ({
            let b = header_bytes(h) + payload;
            &&& b.len() >= 32
            &&& le_value(b, 0) == h.channel
            &&& le_value(b, 8) == h.source
            &&& le_value(b, 16) == h.target
            &&& le_value(b, 24) == h.length
        }),
{
    let b = header_bytes(h) + payload;
    let hs = seq![h.channel, h.source, h.target, h.length];
    let h1 = seq![h.channel];
    let h2 = seq![h.channel, h.source];
    let h3 = seq![h.channel, h.source, h.target];
    assert(h1.drop_last() =~= Seq::<u64>::empty());
    assert(h2.drop_last() =~= h1);
    assert(h3.drop_last() =~= h2);
    assert(hs.drop_last() =~= h3);
    assert(encoding(Seq::<u64>::empty()) == Seq::<u8>::empty());
    assert(encoding(h1) =~= le_bytes(h.channel));
    assert(encoding(h2) =~= le_bytes(h.channel) + le_bytes(h.source));
    assert(encoding(h3) =~= le_bytes(h.channel) + le_bytes(h.source) + le_bytes(h.target));
    assert(encoding(hs) =~= header_bytes(h));
    lemma_round_trip(hs);
    assert forall|i: int| 0 <= i < 4 implies #[trigger] le_value(b, 8 * i) == le_value(encoding(hs), 8 * i) by {
        assert(b.subrange(8 * i, 8 * i + 8) =~= encoding(hs).subrange(8 * i, 8 * i + 8));
        lemma_le_value_same(b, 8 * i, encoding(hs), 8 * i);
    }
    assert(le_value(b, 8 * (0 as int)) == hs[0]);
    assert(le_value(b, 8 * (1 as int)) == hs[1]);
    assert(le_value(b, 8 * (2 as int)) == hs[2]);
    assert(le_value(b, 8 * (3 as int)) == hs[3]);
}

} // verus!
