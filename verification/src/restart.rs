use vstd::prelude::*;
use vstd::string::StringExecFns;

use crate::address::{decimal, push_decimal};

verus! {

/// The text `prefix`, then the decimal id, then `suffix`.
pub open spec fn around_id(prefix: Seq<char>, id: u8, suffix: Seq<char>) -> Seq<char> {
    prefix + decimal(id as nat) + suffix
}

/// The ssh login of the lab machine of elevator `id`.
pub fn ssh_target(id: u8) -> (s: String)
    ensures
        s@ == around_id(
            seq!['s', 't', 'u', 'd', 'e', 'n', 't', '@', '1', '0', '.', '1', '0', '0', '.', '2', '3', '.'],
            id,
            Seq::empty(),
        ),
{
    proof {
        reveal_strlit("student@10.100.23.");
    }
    let mut out = String::from_str("student@10.100.23.");
    push_decimal(&mut out, id as u32);
    assert(out@ =~= around_id(
        seq!['s', 't', 'u', 'd', 'e', 'n', 't', '@', '1', '0', '.', '1', '0', '0', '.', '2', '3', '.'],
        id,
        Seq::empty(),
    ));
    out
}

/// The shell command that kills, on this machine, the driver server of
/// elevator `id` (the process listening on port `250` followed by the id).
pub fn local_kill_command(id: u8) -> (s: String)
    ensures
        s@ == around_id(
            seq!['k', 'i', 'l', 'l', ' ', '$', '(', 'l', 's', 'o', 'f', ' ', '-', 't', ' ', '-', 'i', ' ', ':', '2', '5', '0'],
            id,
            seq![')'],
        ),
{
    proof {
        reveal_strlit("kill $(lsof -t -i :250");
        reveal_strlit(")");
    }
    let mut out = String::from_str("kill $(lsof -t -i :250");
    push_decimal(&mut out, id as u32);
    out.append(")");
    assert(out@ =~= around_id(
        seq!['k', 'i', 'l', 'l', ' ', '$', '(', 'l', 's', 'o', 'f', ' ', '-', 't', ' ', '-', 'i', ' ', ':', '2', '5', '0'],
        id,
        seq![')'],
    ));
    out
}

/// The remote command that force-kills the driver server of elevator `id`
/// on its lab machine.
pub fn remote_kill_command(id: u8) -> (s: String)
    ensures
        s@ == around_id(
            seq![
                'k', 'i', 'l', 'l', ' ', '-', '9', ' ', '$', '(', 'l', 's', 'o', 'f', ' ', '-', 't', ' ', '-', 'i', ' ', ':', '2', '5', '0',
            ],
            id,
            seq![')'],
        ),
{
    proof {
        reveal_strlit("kill -9 $(lsof -t -i :250");
        reveal_strlit(")");
    }
    let mut out = String::from_str("kill -9 $(lsof -t -i :250");
    push_decimal(&mut out, id as u32);
    out.append(")");
    assert(out@ =~= around_id(
        seq![
            'k', 'i', 'l', 'l', ' ', '-', '9', ' ', '$', '(', 'l', 's', 'o', 'f', ' ', '-', 't', ' ', '-', 'i', ' ', ':', '2', '5', '0',
        ],
        id,
        seq![')'],
    ));
    out
}

/// The text of the command that starts, in the background, the driver
/// server of elevator `id` and then the elevator program for `id`, each
/// with its log file.
pub open spec fn start_command_text(id: u8) -> Seq<char> {
    "nohup elevatorserver --port 250"@ + decimal(id as nat)
        + " > /tmp/elevserv.log 2>&1 & nohup ~/.cargo/bin/cargo run --manifest-path ~/sanntid10/Cargo.toml -- "@
        + decimal(id as nat) + " > /tmp/elevator.log 2>&1 &"@
}

/// The remote command that starts elevator `id` again on its lab machine.
pub fn remote_start_command(id: u8) -> (s: String)
    ensures
        s@ == start_command_text(id),
{
    let mut out = String::from_str("nohup elevatorserver --port 250");
    push_decimal(&mut out, id as u32);
    out.append(
        " > /tmp/elevserv.log 2>&1 & nohup ~/.cargo/bin/cargo run --manifest-path ~/sanntid10/Cargo.toml -- ",
    );
    push_decimal(&mut out, id as u32);
    out.append(" > /tmp/elevator.log 2>&1 &");
    assert(out@ =~= start_command_text(id));
    out
}

} // verus!
