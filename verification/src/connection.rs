//! Per-connection decision logic.
//!
//! A connection handler reads one request at a time and dispatches it
//! against the shared registry; `handle_request` is that dispatch. Each
//! join starts an independent delivery loop for the new subscription;
//! `next_packet` is the step such a loop takes: it turns what the
//! subscription yields into the record to write out, a wait, or a stop.
//! The surrounding I/O — reading requests, writing records, waking
//! delivery loops — stays with the caller.
use vstd::prelude::*;

use crate::FromClient;
use crate::FromServer;
use crate::group::Group;
use crate::group::Recv;
use crate::group::RecvStep;
use crate::group::Subscription;
use crate::group::recv_spec;
use crate::registry::GroupTable;
use crate::registry::get_or_create_post;

verus! {

/// The decimal digit character of a value below ten.
pub open spec fn dec_digit(n: nat) -> char {
    if n == 0 { '0' } else if n == 1 { '1' } else if n == 2 { '2' }
    else if n == 3 { '3' } else if n == 4 { '4' } else if n == 5 { '5' }
    else if n == 6 { '6' } else if n == 7 { '7' } else if n == 8 { '8' }
    else { '9' }
}

/// The decimal representation of a number, most significant digit first.
pub open spec fn dec_rep(n: nat) -> Seq<char>
    decreases n,
{
    if n < 10 {
        seq![dec_digit(n)]
    } else {
        dec_rep(n / 10).push(dec_digit(n % 10))
    }
}

fn dec_digit_exec(n: u64) -> (c: char)
    requires
        n < 10,
    ensures
        c == dec_digit(n as nat),
{
    if n == 0 { '0' } else if n == 1 { '1' } else if n == 2 { '2' }
    else if n == 3 { '3' } else if n == 4 { '4' } else if n == 5 { '5' }
    else if n == 6 { '6' } else if n == 7 { '7' } else if n == 8 { '8' }
    else { '9' }
}

/// Write a number in decimal.
fn u64_to_string(n: u64) -> (s: String)
    ensures
        s@ == dec_rep(n as nat),
{
    let mut digits: Vec<char> = Vec::new();
    let mut m = n;
    let d = m % 10;
    digits.push(dec_digit_exec(d));
    m = m / 10;
    proof {
        if m > 0 {
            assert(dec_rep(n as nat) =~= dec_rep(m as nat) + digits@);
        } else {
            assert(dec_rep(n as nat) =~= digits@);
        }
    }
    while m > 0
        invariant
            m > 0 ==> dec_rep(n as nat) == dec_rep(m as nat) + digits@,
            m == 0 ==> dec_rep(n as nat) == digits@,
            digits@.len() >= 1,
        decreases m,
    {
        let ghost m_old = m as nat;
        let d2 = m % 10;
        let ghost digits_prev = digits@;
        digits.insert(0, dec_digit_exec(d2));
        proof {
            assert(digits@ =~= seq![dec_digit((m_old % 10) as nat)] + digits_prev);
        }
        m = m / 10;
        proof {
            if m > 0 {
                assert(dec_rep(m_old) == dec_rep(m as nat).push(dec_digit(m_old % 10)));
                assert(dec_rep(m as nat) + digits@ =~= (dec_rep(m as nat).push(dec_digit(m_old % 10)))
                    + digits_prev);
            } else {
                assert(dec_rep(m_old) =~= seq![dec_digit(m_old % 10)]);
                assert(digits@ =~= dec_rep(m_old) + digits_prev);
            }
        }
    }
    let mut s = String::new();
    let len = digits.len();
    let mut i: usize = 0;
    while i < len
        invariant
            i <= len,
            len == digits@.len(),
            s@ == digits@.take(i as int),
        decreases len - i,
    {
        crate::codec::push_char(&mut s, digits[i]);
        proof {
            assert(digits@.take(i + 1) =~= digits@.take(i as int).push(digits@[i as int]));
        }
        i += 1;
    }
    proof {
        assert(digits@.take(len as int) =~= digits@);
    }
    s
}

/// The error text sent back for a post to a group nobody has ever joined.
pub open spec fn unknown_group_text(name: Seq<char>) -> Seq<char> {
    "Group '"@ + name + "' does not exist"@
}

/// The error text sent to a subscriber that missed messages.
pub open spec fn lag_text(count: nat, name: Seq<char>) -> Seq<char> {
    "Dropped "@ + dec_rep(count) + " messages from "@ + name + "."@
}

fn make_unknown_group_text(name: &String) -> (s: String)
    ensures
        s@ == unknown_group_text(name@),
{
    let mut s = String::from_str("Group '");
    s.append(name.as_str());
    s.append("' does not exist");
    assert(s@ =~= unknown_group_text(name@));
    s
}

fn make_lag_text(count: u64, name: &String) -> (s: String)
    ensures
        s@ == lag_text(count as nat, name@),
{
    let mut s = String::from_str("Dropped ");
    let num = u64_to_string(count);
    s.append(num.as_str());
    s.append(" messages from ");
    s.append(name.as_str());
    s.append(".");
    assert(s@ =~= lag_text(count as nat, name@));
    s
}

/// What the handler does with one request.
pub enum Action {
    /// A join was served: the group's index and the new subscription, for
    /// the caller to drive an independent delivery loop with.
    Subscribed(usize, Subscription),
    /// A post was accepted into the group at this index.
    Posted(usize),
    /// The request failed: this record goes back to the requesting client,
    /// and the connection stays open.
    Reply(FromServer),
}

/// Dispatch one decoded client request against the registry.
///
/// A join finds or creates the group and subscribes from its current end.
/// A post to a registered group appends the message to that group's fan-out
/// and touches nothing else; a post to an unknown group changes nothing and
/// yields exactly one error record for the poster.
pub fn handle_request(table: &mut GroupTable, request: FromClient) -> (a: Action)
    requires
        old(table).wf(),
        old(table).can_accept(),
    ensures
        final(table).wf(),
        match request {
            FromClient::Join { group_name } => {
                &&& a matches Action::Subscribed(i, sub)
                &&& get_or_create_post(*old(table), *final(table), i as int, group_name@)
                &&& (a matches Action::Subscribed(i, sub)
                    ==> sub.cursor == final(table).groups@[i as int].total)
            },
            FromClient::Post { group_name, message } => {
                if old(table).contains_name(group_name@) {
                    &&& a matches Action::Posted(i)
                    &&& (a matches Action::Posted(i) ==> {
                        &&& 0 <= i < old(table).groups@.len()
                        &&& old(table).groups@[i as int].name@ == group_name@
                        &&& final(table).groups@.len() == old(table).groups@.len()
                        &&& final(table).groups@[i as int].history@
                            == old(table).groups@[i as int].history@.push(message@)
                        &&& final(table).groups@[i as int].name@
                            == old(table).groups@[i as int].name@
                        &&& final(table).groups@[i as int].closed
                            == old(table).groups@[i as int].closed
                        &&& forall|k: int| 0 <= k < old(table).groups@.len() && k != i as int
                            ==> final(table).groups@[k] == old(table).groups@[k]
                    })
                } else {
                    &&& *final(table) == *old(table)
                    &&& a matches Action::Reply(p)
                    &&& (a matches Action::Reply(p) ==> (p matches FromServer::Error(t)
                        && t@ == unknown_group_text(group_name@)))
                }
            },
        },
{
    match request {
        FromClient::Join { group_name } => {
            let i = table.get_or_create(group_name);
            let sub = join_at(table, i);
            Action::Subscribed(i, sub)
        },
        FromClient::Post { group_name, message } => {
            match table.get(&group_name) {
                Some(i) => {
                    let ghost groups_prev = table.groups@;
                    let mut g = table.groups.remove(i);
                    g.post(message);
                    let ghost g2 = g;
                    table.groups.insert(i, g);
                    proof {
                        assert(table.groups@ =~= groups_prev.update(i as int, g2));
                        assert forall|k: int| 0 <= k < table.groups@.len()
                            implies (#[trigger] table.groups@[k]).wf() by {
                            if k != i as int {
                                assert(table.groups@[k] == groups_prev[k]);
                            }
                        }
                        assert forall|p: int, q: int| 0 <= p < q < table.groups@.len()
                            implies (#[trigger] table.groups@[p]).name@
                                != (#[trigger] table.groups@[q]).name@ by {
                            assert(table.groups@[p].name@ == groups_prev[p].name@);
                            assert(table.groups@[q].name@ == groups_prev[q].name@);
                        }
                    }
                    Action::Posted(i)
                },
                None => {
                    let text = make_unknown_group_text(&group_name);
                    Action::Reply(FromServer::Error(text))
                },
            }
        },
    }
}

/// Subscribe to the group at a known index.
fn join_at(table: &GroupTable, i: usize) -> (sub: Subscription)
    requires
        i < table.groups@.len(),
    ensures
        sub.cursor == table.groups@[i as int].total,
{
    table.groups[i].join()
}

/// What a subscription's delivery loop does next.
pub enum Delivery {
    /// A record to write to this subscriber's connection.
    Packet(FromServer),
    /// Nothing pending: wait until the group sees the next post.
    Wait,
    /// End of stream: the delivery loop exits cleanly.
    Stop,
}

/// One step of a subscription's delivery loop: wrap the next fan-out
/// message in a delivery envelope, turn a lag into its in-band error
/// record, wait when caught up, stop at end-of-stream.
pub fn next_packet(group: &Group, sub: &mut Subscription) -> (d: Delivery)
    requires
        group.wf(),
        old(sub).cursor <= group.total,
    ensures
        final(sub).cursor <= group.total,
        final(sub).cursor as nat == recv_spec(*group, old(sub).cursor as nat).1,
        match d {
            Delivery::Packet(p) => match p {
                FromServer::Message { group_name, message } => {
                    &&& group_name@ == group.name@
                    &&& recv_spec(*group, old(sub).cursor as nat).0 == RecvStep::Msg(message@)
                },
                FromServer::Error(t) => {
                    &&& recv_spec(*group, old(sub).cursor as nat).0 matches RecvStep::Lag(k)
                    &&& (recv_spec(*group, old(sub).cursor as nat).0 matches RecvStep::Lag(k)
                        ==> t@ == lag_text(k, group.name@))
                },
            },
            Delivery::Wait => recv_spec(*group, old(sub).cursor as nat).0 == RecvStep::Idle,
            Delivery::Stop => recv_spec(*group, old(sub).cursor as nat).0 == RecvStep::End,
        },
{
    match sub.recv(group) {
        Recv::Message(message) => Delivery::Packet(
            FromServer::Message { group_name: group.name.clone(), message },
        ),
        Recv::Lagged(count) => Delivery::Packet(
            FromServer::Error(make_lag_text(count, &group.name)),
        ),
        Recv::Empty => Delivery::Wait,
        Recv::Closed => Delivery::Stop,
    }
}

} // verus!
