use vstd::prelude::*;
use vstd::string::StringExecFns;

verus! {

/// Where the cluster runs: several simulators on one machine, or one
/// elevator per machine in the lab network.
#[derive(Debug, Clone, Copy, PartialEq, Eq, Structural)]
pub enum Site {
    Mac,
    Lab,
}

/// The site this build runs at.
pub const SITE: Site = Site::Lab;

/// Base of the ports on which nodes receive messages.
pub const MSG_PORT_BASE: u16 = 21000;

/// Base of the ports on which a node listens for its peers' connections.
pub const BASE_PORT: u16 = 21000;

/// Base of the ports on which nodes receive heartbeat pings.
pub const PING_PORT_BASE: u16 = 30000;

/// The character of a decimal digit.
pub open spec fn digit_char(d: int) -> char {
    (48 + d) as char
}

/// The decimal representation of `n`, without leading zeros.
pub open spec fn decimal(n: nat) -> Seq<char>
    decreases n,
{
    if n < 10 {
        seq![digit_char(n as int)]
    } else {
        decimal(n / 10).push(digit_char((n % 10) as int))
    }
}

/// The address text `ip:port` at the lab machine of elevator `id`.
pub open spec fn lab_host(id: u8) -> Seq<char> {
    seq!['1', '0', '.', '1', '0', '0', '.', '2', '3', '.'] + decimal(id as nat)
}

/// The host of elevator `id` at site `site`.
pub open spec fn host_of(site: Site, id: u8) -> Seq<char> {
    match site {
        Site::Mac => seq!['1', '2', '7', '.', '0', '.', '0', '.', '1'],
        Site::Lab => lab_host(id),
    }
}

/// `host:port` as text.
pub open spec fn with_port(host: Seq<char>, port: nat) -> Seq<char> {
    host + seq![':'] + decimal(port)
}

fn digit_str(d: u32) -> (s: &'static str)
    requires
        d < 10,
    ensures
        s@ == seq![digit_char(d as int)],
{
    proof {
        reveal_strlit("0");
        reveal_strlit("1");
        reveal_strlit("2");
        reveal_strlit("3");
        reveal_strlit("4");
        reveal_strlit("5");
        reveal_strlit("6");
        reveal_strlit("7");
        reveal_strlit("8");
        reveal_strlit("9");
    }
    match d {
        0 => "0",
        1 => "1",
        2 => "2",
        3 => "3",
        4 => "4",
        5 => "5",
        6 => "6",
        7 => "7",
        8 => "8",
        _ => "9",
    }
}

/// Appends the decimal representation of `n` to `out`.
pub(crate) fn push_decimal(out: &mut String, n: u32)
    ensures
        final(out)@ == old(out)@ + decimal(n as nat),
    decreases n,
{
    if n < 10 {
        out.append(digit_str(n));
    } else {
        push_decimal(out, n / 10);
        out.append(digit_str(n % 10));
        assert(decimal(n as nat) == decimal((n / 10) as nat).push(digit_char((n % 10) as int)));
        assert(old(out)@ + decimal(n as nat) =~= old(out)@ + decimal((n / 10) as nat) + seq![
            digit_char((n % 10) as int),
        ]);
    }
}

fn push_host(out: &mut String, id: u8)
    ensures
        final(out)@ == old(out)@ + host_of(SITE, id),
{
    match SITE {
        Site::Mac => {
            proof {
                reveal_strlit("127.0.0.1");
            }
            out.append("127.0.0.1");
        },
        Site::Lab => {
            proof {
                reveal_strlit("10.100.23.");
            }
            let ghost before = out@;
            out.append("10.100.23.");
            push_decimal(out, id as u32);
            assert(out@ =~= before + lab_host(id));
        },
    }
}

fn push_port(out: &mut String, port: u32)
    ensures
        final(out)@ == old(out)@ + seq![':'] + decimal(port as nat),
{
    proof {
        reveal_strlit(":");
    }
    let ghost before = out@;
    out.append(":");
    push_decimal(out, port);
    assert(out@ =~= before + seq![':'] + decimal(port as nat));
}

/// The local address text for elevator `id` on `port`: the loopback host
/// on a Mac, the elevator's lab machine in the lab.
pub fn local_addr(id: u8, port: u16) -> (s: String)
    ensures
        s@ == with_port(host_of(SITE, id), port as nat),
{
    let mut out = String::new();
    push_host(&mut out, id);
    push_port(&mut out, port as u32);
    assert(out@ =~= with_port(host_of(SITE, id), port as nat));
    out
}

/// The address text for elevator `id` with a port the system picks.
pub fn random_port_addr(id: u8) -> (s: String)
    ensures
        s@ == with_port(host_of(SITE, id), 0),
{
    local_addr(id, 0)
}

/// The port on which node `id` receives messages: the base plus its id.
pub open spec fn msg_port_of(id: u8) -> nat {
    (MSG_PORT_BASE + id) as nat
}

/// The port on which node `id` receives heartbeat pings: the base plus its id.
pub open spec fn ping_port_of(id: u8) -> nat {
    (PING_PORT_BASE + id) as nat
}

/// The port on which node `id` receives messages.
pub fn msg_port(id: u8) -> (p: u16)
    ensures
        p == msg_port_of(id),
{
    MSG_PORT_BASE + id as u16
}

/// The port on which node `id` receives heartbeat pings.
pub fn ping_port(id: u8) -> (p: u16)
    ensures
        p == ping_port_of(id),
{
    PING_PORT_BASE + id as u16
}

/// The address text to which messages for peer `id` go.
pub fn peer_msg_addr(id: u8) -> (s: String)
    ensures
        s@ == with_port(host_of(SITE, id), msg_port_of(id)),
{
    local_addr(id, msg_port(id))
}

/// The address text to which heartbeat pings for peer `id` go.
pub fn peer_ping_addr(id: u8) -> (s: String)
    ensures
        s@ == with_port(host_of(SITE, id), ping_port_of(id)),
{
    local_addr(id, ping_port(id))
}

/// The loopback host name.
pub open spec fn localhost() -> Seq<char> {
    seq!['l', 'o', 'c', 'a', 'l', 'h', 'o', 's', 't']
}

/// The address text `localhost:port` at which node `id` listens for its
/// peers, one port per node above `BASE_PORT`.
pub fn addr_for(id: u8) -> (s: String)
    ensures
        s@ == with_port(localhost(), (BASE_PORT + id) as nat),
{
    proof {
        reveal_strlit("localhost");
    }
    let mut out = String::new();
    out.append("localhost");
    push_port(&mut out, BASE_PORT as u32 + id as u32);
    assert(out@ =~= with_port(localhost(), (BASE_PORT + id) as nat));
    out
}

/// The address text of the elevator driver (simulator or hardware server)
/// of elevator `id` on this machine: the loopback host, port `250`
/// followed by the id.
pub fn driver_addr(id: u8) -> (s: String)
    ensures
        s@ == seq!['1', '2', '7', '.', '0', '.', '0', '.', '1', ':', '2', '5', '0'] + decimal(id as nat),
{
    proof {
        reveal_strlit("127.0.0.1:250");
    }
    let mut out = String::new();
    out.append("127.0.0.1:250");
    push_decimal(&mut out, id as u32);
    out
}

} // verus!
