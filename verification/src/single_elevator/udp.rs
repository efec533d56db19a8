use vstd::prelude::*;

verus! {

/// The tag at the start of every packet.
pub const MAGIC: [u8; 4] = [69, 86, 76, 49];

/// The packet format version.
pub const VERSION: u8 = 1;

/// The packet header: the tag, then the version.
pub open spec fn header() -> Seq<u8> {
    seq![69u8, 86u8, 76u8, 49u8, 1u8]
}

/// A packet: the header followed by the payload.
pub fn frame_packet(payload: &[u8]) -> (pkt: Vec<u8>)
    ensures
        pkt@ == header() + payload@,
{
    let mut pkt: Vec<u8> = Vec::new();
    pkt.push(MAGIC[0]);
    pkt.push(MAGIC[1]);
    pkt.push(MAGIC[2]);
    pkt.push(MAGIC[3]);
    pkt.push(VERSION);
    let mut i: usize = 0;
    while i < payload.len()
        invariant
            0 <= i <= payload@.len(),
            pkt@ == header() + payload@.take(i as int),
        decreases payload@.len() - i,
    {
        pkt.push(payload[i]);
        assert(payload@.take(i + 1) =~= payload@.take(i as int).push(payload@[i as int]));
        assert(pkt@ =~= header() + payload@.take(i + 1));
        i = i + 1;
    }
    assert(payload@.take(payload@.len() as int) =~= payload@);
    pkt
}

/// The payload of a received packet, or nothing when the packet is shorter
/// than the header, has another tag, or another version.
pub fn packet_payload(data: &[u8]) -> (r: Option<Vec<u8>>)
    ensures
        match r {
            Some(p) => data@.len() >= 5 && data@.take(5) == header() && p@ == data@.skip(5),
            None => data@.len() < 5 || data@.take(5) != header(),
        },
{
    if data.len() < 5 {
        return None;
    }
    if data[0] != MAGIC[0] || data[1] != MAGIC[1] || data[2] != MAGIC[2] || data[3] != MAGIC[3] || data[4]
        != VERSION {
        assert(data@.take(5) != header()) by {
            if data@.take(5) == header() {
                assert(data@.take(5)[0] == data@[0]);
                assert(data@.take(5)[1] == data@[1]);
                assert(data@.take(5)[2] == data@[2]);
                assert(data@.take(5)[3] == data@[3]);
                assert(data@.take(5)[4] == data@[4]);
            }
        }
        return None;
    }
    assert(data@.take(5) =~= header());
    let mut p: Vec<u8> = Vec::new();
    let mut i: usize = 5;
    while i < data.len()
        invariant
            5 <= i <= data@.len(),
            p@ == data@.subrange(5, i as int),
        decreases data@.len() - i,
    {
        p.push(data[i]);
        assert(data@.subrange(5, i + 1) =~= data@.subrange(5, i as int).push(data@[i as int]));
        i = i + 1;
    }
    assert(data@.subrange(5, data@.len() as int) =~= data@.skip(5));
    Some(p)
}

/// Reading a framed packet gives back its payload.
pub proof fn lemma_frame_round_trip(payload: Seq<u8>)
    ensures
        (header() + payload).len() >= 5,
        (header() + payload).take(5) == header(),
        (header() + payload).skip(5) == payload,
{
    assert((header() + payload).take(5) =~= header());
    assert((header() + payload).skip(5) =~= payload);
}

} // verus!
