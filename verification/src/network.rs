//! The decisions of the networking layer: who connects to whom, whom a
//! broadcast reaches, the order of sends and receives when shares are
//! exchanged, retry budgets and default addresses. The sockets themselves are
//! driven by the caller.
use vstd::prelude::*;

verus! {

/// A party's identifier: its index among the participants.
pub type Id = u32;

/// The standard I/O error.
#[verifier::external_type_specification]
#[verifier::external_body]
pub struct ExIoError(std::io::Error);

/// Error types for network I/O operations.
pub enum NetIoError {
    /// An I/O operation failed.
    IoError(std::io::Error),
    /// A lock could not be acquired.
    MutexLockFailed(String),
    /// The requested connection was not found.
    ConnectionNotFound(Id),
    /// An operation timed out.
    Timeout(String),
}

/// Whether every participant's identifier equals its position in the list.
pub fn participants_indexed(ids: &[Id]) -> (r: bool)
    ensures
        r <==> forall|i: int| 0 <= i < ids.len() ==> ids@[i] == i,
{
    let n = ids.len();
    let mut i: usize = 0;
    while i < n
        invariant
            n == ids.len(),
            i <= n,
            forall|j: int| 0 <= j < i ==> ids@[j] == j,
        decreases n - i,
    {
        if ids[i] as usize != i {
            return false;
        }
        i = i + 1;
    }
    true
}

/// How the party at `index` joins a network of `num_parties`: it accepts one
/// connection from every later party and connects to every earlier one.
/// Returns the number of connections to accept and the identifiers to dial.
pub fn connection_plan(index: usize, num_parties: usize) -> (r: (usize, Vec<Id>))
    requires
        index < num_parties,
        index <= u32::MAX,
    ensures
        r.0 == num_parties - index - 1,
        r.1.len() == index,
        forall|i: int| 0 <= i < index ==> r.1@[i] == i,
{
    let mut peers: Vec<Id> = Vec::new();
    let mut i: usize = 0;
    while i < index
        invariant
            index <= u32::MAX,
            i <= index,
            peers.len() == i,
            forall|j: int| 0 <= j < i ==> peers@[j] == j,
        decreases index - i,
    {
        peers.push(i as Id);
        i = i + 1;
    }
    (num_parties - index - 1, peers)
}

/// The identifiers a broadcast from `self_id` is sent to: every identifier
/// below `num_parties` (taken as an `Id`), in increasing order, except
/// `self_id` itself.
pub fn broadcast_targets(num_parties: usize, self_id: Id) -> (r: Vec<Id>)
    ensures
        ({
            let n = num_parties as u32;
            &&& self_id < n ==> r.len() == n - 1
            &&& self_id >= n ==> r.len() == n
            &&& forall|i: int|
                0 <= i < r.len() ==> r@[i] == (if self_id < n && i >= self_id {
                    i + 1
                } else {
                    i
                })
        }),
{
    let n = num_parties as Id;
    let mut targets: Vec<Id> = Vec::new();
    let mut id: Id = 0;
    while id < n
        invariant
            n == num_parties as u32,
            id <= n,
            targets.len() == (if self_id < id {
                id - 1
            } else {
                id as int
            }),
            forall|i: int|
                0 <= i < targets.len() ==> targets@[i] == (if self_id < n && i >= self_id {
                    i + 1
                } else {
                    i
                }),
        decreases n - id,
    {
        if id != self_id {
            targets.push(id);
        }
        id = id + 1;
    }
    targets
}

/// One step of exchanging equal-sized chunks among all parties.
#[derive(Clone, Copy, PartialEq, Eq, Structural, Debug)]
pub enum ShareStep {
    /// Send the own chunk to every other party and keep it in place.
    BroadcastOwn,
    /// Keep the own chunk in place without sending it.
    CopyOwn,
    /// Receive the chunk of the given party into its place.
    Receive(Id),
    /// Send the own chunk to party 0.
    SendToLeader,
}

/// The steps by which party `party_id` fills `num_chunks` chunk slots, one
/// per party: its own slot is broadcast and kept, every other slot is
/// received from the party of that index (taken as an `Id`).
pub fn share_steps(num_chunks: usize, party_id: Id) -> (r: Vec<ShareStep>)
    ensures
        r.len() == num_chunks,
        forall|i: int|
            0 <= i < num_chunks ==> r@[i] == (if i as u32 == party_id {
                ShareStep::BroadcastOwn
            } else {
                ShareStep::Receive(i as u32)
            }),
{
    let mut steps: Vec<ShareStep> = Vec::new();
    let mut i: usize = 0;
    while i < num_chunks
        invariant
            i <= num_chunks,
            steps.len() == i,
            forall|j: int|
                0 <= j < i ==> steps@[j] == (if j as u32 == party_id {
                    ShareStep::BroadcastOwn
                } else {
                    ShareStep::Receive(j as u32)
                }),
        decreases num_chunks - i,
    {
        let id = i as Id;
        if id == party_id {
            steps.push(ShareStep::BroadcastOwn);
        } else {
            steps.push(ShareStep::Receive(id));
        }
        i = i + 1;
    }
    steps
}

/// The steps of collecting every party's chunk at party 0: the collector
/// (`collecting`) keeps its own slot and receives every other one; every
/// other party sends its chunk to party 0.
pub fn share_to_p0_steps(num_chunks: usize, party_id: Id, collecting: bool) -> (r: Vec<ShareStep>)
    ensures
        !collecting ==> r@ == seq![ShareStep::SendToLeader],
        collecting ==> r.len() == num_chunks && forall|i: int|
            0 <= i < num_chunks ==> r@[i] == (if i as u32 == party_id {
                ShareStep::CopyOwn
            } else {
                ShareStep::Receive(i as u32)
            }),
{
    let mut steps: Vec<ShareStep> = Vec::new();
    if !collecting {
        steps.push(ShareStep::SendToLeader);
        assert(steps@ =~= seq![ShareStep::SendToLeader]);
        return steps;
    }
    let mut i: usize = 0;
    while i < num_chunks
        invariant
            i <= num_chunks,
            steps.len() == i,
            forall|j: int|
                0 <= j < i ==> steps@[j] == (if j as u32 == party_id {
                    ShareStep::CopyOwn
                } else {
                    ShareStep::Receive(j as u32)
                }),
        decreases num_chunks - i,
    {
        let id = i as Id;
        if id == party_id {
            steps.push(ShareStep::CopyOwn);
        } else {
            steps.push(ShareStep::Receive(id));
        }
        i = i + 1;
    }
    steps
}

/// A budget of connection attempts.
pub struct RetryBudget {
    remaining: usize,
}

impl RetryBudget {
    /// The attempts still allowed.
    pub closed spec fn spec_remaining(&self) -> nat {
        self.remaining as nat
    }

    /// A budget of `max_attempts` attempts.
    pub fn new(max_attempts: usize) -> (r: Self)
        ensures
            r.spec_remaining() == max_attempts,
    {
        RetryBudget { remaining: max_attempts }
    }

    /// Whether another attempt may be made.
    pub fn has_attempt_left(&self) -> (r: bool)
        ensures
            r <==> self.spec_remaining() > 0,
    {
        self.remaining > 0
    }

    /// Records one failed attempt.
    pub fn record_failure(&mut self)
        requires
            old(self).spec_remaining() > 0,
        ensures
            final(self).spec_remaining() == old(self).spec_remaining() - 1,
    {
        self.remaining = self.remaining - 1;
    }
}

/// The identifiers and local ports of `count` participants whose ports count
/// up from `base_port`.
pub fn default_participant_ports(count: usize, base_port: u16) -> (r: Vec<(Id, u16)>)
    requires
        count <= u32::MAX,
        count == 0 || base_port + count - 1 <= u16::MAX,
    ensures
        r.len() == count,
        forall|i: int| 0 <= i < count ==> r@[i] == (i as u32, (base_port + i) as u16),
{
    let mut ports: Vec<(Id, u16)> = Vec::new();
    let mut i: usize = 0;
    while i < count
        invariant
            count <= u32::MAX,
            count == 0 || base_port + count - 1 <= u16::MAX,
            i <= count,
            ports.len() == i,
            forall|j: int| 0 <= j < i ==> ports@[j] == (j as u32, (base_port + j) as u16),
        decreases count - i,
    {
        let id = i as Id;
        let port = base_port + i as u16;
        ports.push((id, port));
        i = i + 1;
    }
    ports
}


/// Each pair of parties is linked exactly once: of two parties `a < b < n`,
/// `b` dials `a` and `a` does not dial `b`; party `a` accepts one connection
/// from each of the `n - a - 1` later parties.
pub proof fn law_connection_pairs(
    num_parties: usize,
    a: usize,
    b: usize,
    plan_a: (usize, Seq<Id>),
    plan_b: (usize, Seq<Id>),
)
    requires
        a < b < num_parties,
        b <= u32::MAX,
        plan_a.0 == num_parties - a - 1,
        plan_a.1.len() == a,
        forall|i: int| 0 <= i < a ==> plan_a.1[i] == i,
        plan_b.1.len() == b,
        forall|i: int| 0 <= i < b ==> plan_b.1[i] == i,
    ensures
        plan_b.1.contains(a as Id),
        !plan_a.1.contains(b as Id),
        plan_a.0 == num_parties - 1 - a,
{
    assert(plan_b.1[a as int] == a);
    if plan_a.1.contains(b as Id) {
        let i = choose|i: int| 0 <= i < plan_a.1.len() && plan_a.1[i] == b as Id;
        assert(plan_a.1[i] == i);
        assert(b as Id == b);
    }
}


/// The order in which the collector keeps its accepted connections: the
/// positions of `peer_ids` sorted by identifier, so that the connection of the
/// smallest identifier comes first. Every position appears exactly once.
pub fn peer_order(peer_ids: &[Id]) -> (r: Vec<usize>)
    ensures
        r.len() == peer_ids.len(),
        forall|i: int| 0 <= i < r.len() ==> r@[i] < peer_ids.len(),
        forall|i: int, j: int| 0 <= i < j < r.len() ==> r@[i] != r@[j],
        forall|i: int, j: int|
            0 <= i < j < r.len() ==> peer_ids@[r@[i] as int] <= peer_ids@[r@[j] as int],
{
    let n = peer_ids.len();
    let mut r: Vec<usize> = Vec::new();
    let mut i: usize = 0;
    while i < n
        invariant
            n == peer_ids.len(),
            i <= n,
            r.len() == i,
            forall|t: int| 0 <= t < r.len() ==> r@[t] < i,
            forall|a: int, b: int| 0 <= a < b < r.len() ==> r@[a] != r@[b],
            forall|a: int, b: int|
                0 <= a < b < r.len() ==> peer_ids@[r@[a] as int] <= peer_ids@[r@[b] as int],
        decreases n - i,
    {
        let mut pos: usize = 0;
        while pos < r.len() && peer_ids[r[pos]] <= peer_ids[i]
            invariant
                n == peer_ids.len(),
                i < n,
                r.len() == i,
                pos <= r.len(),
                forall|t: int| 0 <= t < r.len() ==> r@[t] < i,
                forall|t: int| 0 <= t < pos ==> peer_ids@[r@[t] as int] <= peer_ids@[i as int],
            decreases r.len() - pos,
        {
            pos = pos + 1;
        }
        let ghost old_r = r@;
        proof {
            assert forall|t: int| pos <= t < old_r.len() implies peer_ids@[i as int]
                < peer_ids@[old_r[t] as int] by {
                assert(peer_ids@[i as int] < peer_ids@[old_r[pos as int] as int]);
                if t > pos {
                    assert(peer_ids@[old_r[pos as int] as int] <= peer_ids@[old_r[t] as int]);
                }
            }
        }
        r.insert(pos, i);
        proof {
            assert(r@ == old_r.insert(pos as int, i));
            assert forall|a: int, b: int| 0 <= a < b < r.len() implies peer_ids@[r@[a] as int]
                <= peer_ids@[r@[b] as int] by {
                if b < pos {
                    assert(r@[a] == old_r[a] && r@[b] == old_r[b]);
                } else if b == pos {
                    assert(r@[a] == old_r[a]);
                } else if a < pos {
                    assert(r@[a] == old_r[a] && r@[b] == old_r[b - 1]);
                } else if a == pos {
                    assert(r@[b] == old_r[b - 1]);
                } else {
                    assert(r@[a] == old_r[a - 1] && r@[b] == old_r[b - 1]);
                }
            }
            assert forall|a: int, b: int| 0 <= a < b < r.len() implies r@[a] != r@[b] by {
                if b < pos {
                    assert(r@[a] == old_r[a] && r@[b] == old_r[b]);
                } else if b == pos {
                    assert(r@[a] == old_r[a]);
                } else if a < pos {
                    assert(r@[a] == old_r[a] && r@[b] == old_r[b - 1]);
                } else if a == pos {
                    assert(r@[b] == old_r[b - 1]);
                } else {
                    assert(r@[a] == old_r[a - 1] && r@[b] == old_r[b - 1]);
                }
            }
            assert forall|t: int| 0 <= t < r.len() implies r@[t] < i + 1 by {
                if t < pos {
                    assert(r@[t] == old_r[t]);
                } else if t > pos {
                    assert(r@[t] == old_r[t - 1]);
                }
            }
        }
        i = i + 1;
    }
    r
}

} // verus!
