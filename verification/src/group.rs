//! A chat group: a named publish/subscribe channel with a bounded backlog.
//!
//! A group keeps the full message history as a ghost sequence and, as real
//! state, the retained tail of at most `BACKLOG_CAPACITY` messages. Each
//! subscription is a cursor into the history: receiving yields the history
//! in order, and a cursor that has fallen out of the retained window is
//! advanced to the window start with a lag report naming exactly how many
//! messages were skipped.
use vstd::prelude::*;

verus! {

/// Number of pending messages a group retains for slow subscribers.
pub const BACKLOG_CAPACITY: usize = 1000;

/// A named group and its fan-out backlog.
pub struct Group {
    /// The group's name.
    pub name: String,
    /// The retained tail of the history, at most `BACKLOG_CAPACITY` entries.
    pub backlog: Vec<String>,
    /// How many messages were ever posted to this group.
    pub total: u64,
    /// Set only at process shutdown; subscribers then observe end-of-stream.
    pub closed: bool,
    /// Every message ever posted, oldest first.
    pub history: Ghost<Seq<Seq<char>>>,
}

/// One connection's live relationship with one group: the index of the next
/// message to deliver to it.
pub struct Subscription {
    pub cursor: u64,
}

/// What one receive step yields to a subscriber's delivery loop.
pub enum Recv {
    /// The next message, delivered verbatim.
    Message(String),
    /// The subscriber fell behind: this many oldest messages were dropped.
    Lagged(u64),
    /// Nothing pending; the subscriber is caught up.
    Empty,
    /// The group was torn down and everything pending was delivered.
    Closed,
}

/// The spec-level outcome of one receive step.
pub enum RecvStep {
    Msg(Seq<char>),
    Lag(nat),
    Idle,
    End,
}

impl Group {
    /// Index into the history of the oldest retained message.
    pub open spec fn window_start(&self) -> int {
        self.total - self.backlog@.len()
    }

    /// The backlog is exactly the retained tail of the history: the last
    /// `BACKLOG_CAPACITY` messages, or all of them while fewer were posted.
    pub open spec fn wf(&self) -> bool {
        &&& self.history@.len() == self.total as nat
        &&& self.backlog@.len() == if self.total <= BACKLOG_CAPACITY as u64 {
            self.total as int
        } else {
            BACKLOG_CAPACITY as int
        }
        &&& forall|i: int| 0 <= i < self.backlog@.len()
            ==> (#[trigger] self.backlog@[i])@ == self.history@[self.window_start() + i]
    }

    /// Create the group, empty and open. Happens exactly once per name, on
    /// the first join that names it.
    pub fn new(name: String) -> (g: Group)
        ensures
            g.wf(),
            g.name@ == name@,
            g.total == 0,
            g.history@ == Seq::<Seq<char>>::empty(),
            !g.closed,
    {
        Group {
            name,
            backlog: Vec::new(),
            total: 0,
            closed: false,
            history: Ghost(Seq::empty()),
        }
    }

    /// Subscribe: the new subscription will yield every message posted from
    /// this point forward, and nothing retroactively.
    pub fn join(&self) -> (s: Subscription)
        ensures
            s.cursor == self.total,
    {
        Subscription { cursor: self.total }
    }

    /// Publish a message: it is appended to the history, and the oldest
    /// retained message is discarded if the backlog is full. Fire-and-forget:
    /// the call always succeeds, also when nobody is subscribed.
    pub fn post(&mut self, message: String)
        requires
            old(self).wf(),
            old(self).total < u64::MAX,
        ensures
            final(self).wf(),
            final(self).history@ == old(self).history@.push(message@),
            final(self).total == old(self).total + 1,
            final(self).name@ == old(self).name@,
            final(self).closed == old(self).closed,
    {
        let ghost m = message@;
        if self.backlog.len() == BACKLOG_CAPACITY {
            self.backlog.remove(0);
        }
        self.backlog.push(message);
        self.total = self.total + 1;
        proof {
            self.history@ = self.history@.push(m);
        }
    }

    /// Tear the group down: subscribers that have drained the backlog then
    /// observe end-of-stream. Happens only at process shutdown.
    pub fn close(&mut self)
        requires
            old(self).wf(),
        ensures
            final(self).wf(),
            *final(self) == (Group { closed: true, ..*old(self) }),
    {
        self.closed = true;
    }
}

/// What one receive step at the given cursor yields, and the cursor after it.
pub open spec fn recv_spec(g: Group, cursor: nat) -> (RecvStep, nat) {
    if cursor < g.window_start() {
        (RecvStep::Lag((g.window_start() - cursor) as nat), g.window_start() as nat)
    } else if cursor < g.total as nat {
        (RecvStep::Msg(g.history@[cursor as int]), cursor + 1)
    } else if g.closed {
        (RecvStep::End, cursor)
    } else {
        (RecvStep::Idle, cursor)
    }
}

impl Subscription {
    /// One receive step against the group's current state: the next history
    /// entry at the cursor, a lag report if the cursor fell out of the
    /// retained window, emptiness when caught up, or end-of-stream.
    pub fn recv(&mut self, group: &Group) -> (r: Recv)
        requires
            group.wf(),
            old(self).cursor <= group.total,
        ensures
            final(self).cursor <= group.total,
            final(self).cursor as nat == recv_spec(*group, old(self).cursor as nat).1,
            match r {
                Recv::Message(m) => recv_spec(*group, old(self).cursor as nat).0
                    == RecvStep::Msg(m@),
                Recv::Lagged(k) => recv_spec(*group, old(self).cursor as nat).0
                    == RecvStep::Lag(k as nat),
                Recv::Empty => recv_spec(*group, old(self).cursor as nat).0 == RecvStep::Idle,
                Recv::Closed => recv_spec(*group, old(self).cursor as nat).0 == RecvStep::End,
            },
    {
        let start = group.total - (group.backlog.len() as u64);
        if self.cursor < start {
            let missed = start - self.cursor;
            self.cursor = start;
            Recv::Lagged(missed)
        } else if self.cursor < group.total {
            let off = self.cursor - start;
            assert(off < group.backlog@.len());
            let idx = off as usize;
            assert(idx as int == off as int);
            let m = group.backlog[idx].clone();
            self.cursor = self.cursor + 1;
            Recv::Message(m)
        } else if group.closed {
            Recv::Closed
        } else {
            Recv::Empty
        }
    }
}

/// The messages that `n` consecutive receive steps from the given cursor
/// deliver, while nothing is posted meanwhile: lag reports and idleness
/// deliver nothing.
pub open spec fn drained(g: Group, cursor: nat, n: nat) -> Seq<Seq<char>>
    decreases n,
{
    if n == 0 {
        Seq::empty()
    } else {
        let (step, c2) = recv_spec(g, cursor);
        match step {
            RecvStep::Msg(m) => seq![m] + drained(g, c2, (n - 1) as nat),
            RecvStep::Lag(k) => drained(g, c2, (n - 1) as nat),
            RecvStep::Idle => Seq::empty(),
            RecvStep::End => Seq::empty(),
        }
    }
}

/// Law: a subscriber whose cursor is inside the retained window receives
/// exactly the history from its cursor on, in posted order, with no
/// duplicate and no gap.
pub proof fn lemma_in_order_fanout(g: Group, c: nat, n: nat)
    requires
        g.wf(),
        g.window_start() <= c <= g.total as nat,
        n >= g.total as nat - c,
    ensures
        drained(g, c, n) == g.history@.subrange(c as int, g.total as int),
    decreases n,
{
    if c == g.total as nat {
        assert(g.history@.subrange(c as int, g.total as int) =~= Seq::<Seq<char>>::empty());
    } else {
        lemma_in_order_fanout(g, c + 1, (n - 1) as nat);
        assert(drained(g, c, n) =~= g.history@.subrange(c as int, g.total as int));
    }
}

/// Law: a subscriber that fell behind the retained window gets a single lag
/// report naming exactly how many messages it missed, and from then on
/// receives every retained message in order, with no duplicate and no gap.
pub proof fn lemma_lag_reports_once(g: Group, c: nat, n: nat)
    requires
        g.wf(),
        c < g.window_start(),
        n >= 1 + g.total as nat - g.window_start(),
    ensures
        recv_spec(g, c).0 == RecvStep::Lag((g.window_start() - c) as nat),
        recv_spec(g, c).1 == g.window_start() as nat,
        drained(g, c, n) == g.history@.subrange(g.window_start(), g.total as int),
{
    lemma_in_order_fanout(g, g.window_start() as nat, (n - 1) as nat);
}

/// Law: all subscribers that are not lagging see the same order — what a
/// later-joined subscriber receives is exactly what an earlier one receives
/// after skipping the posts made before the later join.
pub proof fn lemma_subscribers_agree(g: Group, c1: nat, c2: nat, n1: nat, n2: nat)
    requires
        g.wf(),
        g.window_start() <= c1 <= c2 <= g.total as nat,
        n1 >= g.total as nat - c1,
        n2 >= g.total as nat - c2,
    ensures
        drained(g, c2, n2) == drained(g, c1, n1).skip(c2 - c1),
{
    lemma_in_order_fanout(g, c1, n1);
    lemma_in_order_fanout(g, c2, n2);
    assert(g.history@.subrange(c2 as int, g.total as int) =~= g.history@.subrange(
        c1 as int,
        g.total as int,
    ).skip(c2 - c1));
}

/// Law: joining yields messages only from the join onward — there is no
/// history replay, so a message posted while a group has no subscribers is
/// simply dropped and never observed by anyone.
pub proof fn lemma_join_sees_only_later_posts(g: Group, n: nat)
    requires
        g.wf(),
    ensures
        drained(g, g.total as nat, n) == Seq::<Seq<char>>::empty(),
{
}

} // verus!
