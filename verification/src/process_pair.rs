use vstd::prelude::*;
use vstd::string::StringExecFns;

verus! {

/// The number that four bytes carry, most significant byte first.
pub open spec fn be_value(b: Seq<u8>) -> int {
    b[0] * 16777216 + b[1] * 65536 + b[2] * 256 + b[3]
}

/// The four bytes of `v`, most significant first.
pub open spec fn be_bytes(v: u32) -> Seq<u8> {
    seq![(v / 16777216) as u8, ((v / 65536) % 256) as u8, ((v / 256) % 256) as u8, (v % 256) as u8]
}

/// Reading the bytes of a count gives the count back, and writing the
/// count that four bytes carry gives those bytes back.
pub proof fn lemma_count_round_trip(v: u32, b: Seq<u8>)
    requires
        b.len() == 4,
    ensures
        be_value(be_bytes(v)) == v,
        be_value(b) <= u32::MAX,
        be_bytes(be_value(b) as u32) == b,
{
    assert((v / 16777216) * 16777216 + ((v / 65536) % 256) * 65536 + ((v / 256) % 256) * 256 + v % 256
        == v) by (bit_vector);
    assert(v / 16777216 < 256) by (bit_vector);
    let x = be_value(b);
    assert(0 <= x <= u32::MAX) by (nonlinear_arith)
        requires
            x == b[0] * 16777216 + b[1] * 65536 + b[2] * 256 + b[3],
            0 <= b[0] < 256,
            0 <= b[1] < 256,
            0 <= b[2] < 256,
            0 <= b[3] < 256,
    ;
    assert(x / 16777216 == b[0] && (x / 65536) % 256 == b[1] && (x / 256) % 256 == b[2] && x % 256 == b[3])
        by (nonlinear_arith)
        requires
            x == b[0] * 16777216 + b[1] * 65536 + b[2] * 256 + b[3],
            0 <= b[0] < 256,
            0 <= b[1] < 256,
            0 <= b[2] < 256,
            0 <= b[3] < 256,
    ;
    assert(be_bytes(x as u32) =~= b);
}

/// The count that `bytes` carry.
pub fn count_of(bytes: [u8; 4]) -> (v: u32)
    ensures
        v == be_value(bytes@),
{
    proof {
        lemma_count_round_trip(0, bytes@);
    }
    bytes[0] as u32 * 16777216 + bytes[1] as u32 * 65536 + bytes[2] as u32 * 256 + bytes[3] as u32
}

/// The bytes that carry count `v`.
pub fn count_bytes(v: u32) -> (b: [u8; 4])
    ensures
        b@ == be_bytes(v),
        be_value(b@) == v,
{
    proof {
        lemma_count_round_trip(v, seq![0u8, 0u8, 0u8, 0u8]);
        assert(v / 16777216 < 256) by (nonlinear_arith)
            requires
                v <= u32::MAX,
        ;
    }
    let b = [(v / 16777216) as u8, ((v / 65536) % 256) as u8, ((v / 256) % 256) as u8, (v % 256) as u8];
    assert(b@ =~= be_bytes(v));
    b
}

/// While waiting to take over, a count received in `bytes` raises the
/// highest count seen so far.
pub fn observe_count(highest: u32, bytes: [u8; 4]) -> (h: u32)
    ensures
        h == (if be_value(bytes@) > highest {
            be_value(bytes@)
        } else {
            highest as int
        }),
{
    let v = count_of(bytes);
    if v > highest {
        v
    } else {
        highest
    }
}

/// The next count the primary sends, one more than the last, and its bytes.
pub fn next_count(highest: u32) -> (r: (u32, [u8; 4]))
    requires
        highest < u32::MAX,
    ensures
        r.0 == highest + 1,
        r.1@ == be_bytes(r.0),
{
    let v = highest + 1;
    (v, count_bytes(v))
}

/// The address text on which process `local` listens: every interface,
/// port `200` followed by `local`.
pub fn listen_addr(local: &str) -> (s: String)
    ensures
        s@ == seq!['0', '.', '0', '.', '0', '.', '0', ':', '2', '0', '0'] + local@,
{
    proof {
        reveal_strlit("0.0.0.0:200");
    }
    let mut s = String::from_str("0.0.0.0:200");
    s.append(local);
    s
}

/// The address text of the other process `remote`: the lab machine,
/// port `200` followed by `remote`.
pub fn peer_addr(remote: &str) -> (s: String)
    ensures
        s@ == seq!['1', '0', '.', '1', '0', '0', '.', '2', '3', '.', '2', '1', ':', '2', '0', '0']
            + remote@,
{
    proof {
        reveal_strlit("10.100.23.21:200");
    }
    let mut s = String::from_str("10.100.23.21:200");
    s.append(remote);
    s
}

} // verus!
