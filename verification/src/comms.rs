//! Bookkeeping of a UDP endpoint that publishes to a list of peers: the
//! addresses it binds and sends to, and the order in which a message is sent.

use vstd::prelude::*;
use crate::text::{
    law_parse_renders_back, lemma_signed_decimal_no_colon, parse_i32, push_char,
    push_signed_decimal, signed_decimal,
};
use vstd::string::StringExecFns;

verus! {

/// The text `host:port` that names a socket address.
pub open spec fn endpoint_text(host: Seq<char>, port: i32) -> Seq<char> {
    host + seq![':'] + signed_decimal(port as int)
}

/// A socket address text is the host, a `:`, and then text with no `:` in it
/// that reads back as the port: the part after the last `:` names the port
/// itself, whatever its value.
pub proof fn law_endpoint_names_port(host: Seq<char>, port: i32)
    ensures
        endpoint_text(host, port).subrange(0, host.len() as int) == host,
        endpoint_text(host, port)[host.len() as int] == ':',
        forall|k: int|
            host.len() < k < endpoint_text(host, port).len() ==> #[trigger] endpoint_text(
                host,
                port,
            )[k] != ':',
        parse_i32(
            endpoint_text(host, port).subrange(
                host.len() as int + 1,
                endpoint_text(host, port).len() as int,
            ),
        ) == Some(port),
{
    let t = endpoint_text(host, port);
    let tail = signed_decimal(port as int);
    law_parse_renders_back(port);
    lemma_signed_decimal_no_colon(port);
    assert(t.subrange(0, host.len() as int) =~= host);
    assert(t.subrange(host.len() as int + 1, t.len() as int) =~= tail);
    assert forall|k: int| host.len() < k < t.len() implies #[trigger] t[k] != ':' by {
        assert(t[k] == tail[k - host.len() - 1]);
    }
}

/// Writes `host:port`.
pub fn endpoint(host: &str, port: i32) -> (s: String)
    ensures
        s@ == endpoint_text(host@, port),
{
    let mut s = String::from_str(host);
    push_char(&mut s, ':');
    push_signed_decimal(&mut s, port);
    s
}

/// The local address and port of an endpoint, and the peers it publishes to,
/// in the order they were registered.
pub struct Endpoints {
    pub addr: String,
    pub port: i32,
    pub publications: Vec<String>,
}

impl View for Endpoints {
    type V = Seq<Seq<char>>;

    open spec fn view(&self) -> Seq<Seq<char>> {
        self.publications@.map_values(|p: String| p@)
    }
}

impl Endpoints {
    /// An endpoint on `addr:port` with no peers yet.
    pub fn new(addr: String, port: i32) -> (e: Self)
        ensures
            e.addr == addr,
            e.port == port,
            e@ == Seq::<Seq<char>>::empty(),
    {
        let e = Endpoints { addr, port, publications: Vec::new() };
        assert(e@ =~= Seq::<Seq<char>>::empty());
        e
    }

    /// The address the socket is bound to: `addr:port`.
    pub fn bind_address(&self) -> (s: String)
        ensures
            s@ == endpoint_text(self.addr@, self.port),
    {
        endpoint(self.addr.as_str(), self.port)
    }

    /// Adds the peer `pub_addr:pub_port` after the peers registered so far.
    pub fn register_publication(&mut self, pub_addr: String, pub_port: i32)
        ensures
            final(self).addr == old(self).addr,
            final(self).port == old(self).port,
            final(self)@ == old(self)@.push(endpoint_text(pub_addr@, pub_port)),
    {
        let p = endpoint(pub_addr.as_str(), pub_port);
        self.publications.push(p);
        assert(self@ =~= old(self)@.push(endpoint_text(pub_addr@, pub_port)));
    }

    /// Number of registered peers.
    pub fn publication_count(&self) -> (n: usize)
        ensures
            n == self@.len(),
    {
        self.publications.len()
    }

    /// The `i`-th registered peer.
    pub fn publication(&self, i: usize) -> (p: &String)
        requires
            i < self@.len(),
        ensures
            p@ == self@[i as int],
    {
        &self.publications[i]
    }
}

/// What sending one message to every peer does next.
#[derive(PartialEq, Eq, Structural, Clone, Copy, Debug)]
pub enum SendStep {
    /// Send the message to the peer with this index.
    SendTo(usize),
    /// Every peer has been sent the message.
    Done,
    /// A send failed; the remaining peers are skipped and the error reported.
    Failed,
}

/// The first step of sending a message to `peers` peers.
pub open spec fn first_step(peers: nat) -> SendStep {
    if peers == 0 {
        SendStep::Done
    } else {
        SendStep::SendTo(0)
    }
}

/// The step after the send to peer `i` of `peers` succeeded (`ok`) or failed.
pub open spec fn next_step(i: nat, peers: nat, ok: bool) -> SendStep {
    if !ok {
        SendStep::Failed
    } else if i + 1 < peers {
        SendStep::SendTo((i + 1) as usize)
    } else {
        SendStep::Done
    }
}

pub fn first_send(peers: usize) -> (s: SendStep)
    ensures
        s == first_step(peers as nat),
{
    if peers == 0 {
        SendStep::Done
    } else {
        SendStep::SendTo(0)
    }
}

pub fn after_send(i: usize, peers: usize, ok: bool) -> (s: SendStep)
    requires
        i < peers,
    ensures
        s == next_step(i as nat, peers as nat, ok),
        !ok ==> s == SendStep::Failed,
        ok && i + 1 < peers ==> s == SendStep::SendTo((i + 1) as usize),
        ok && i + 1 == peers ==> s == SendStep::Done,
{
    if !ok {
        SendStep::Failed
    } else if i + 1 < peers {
        SendStep::SendTo(i + 1)
    } else {
        SendStep::Done
    }
}

/// A failed send ends the run with `Failed`, whichever peer it was sent to,
/// the last one included; a successful send moves on to the next peer, or
/// ends the run with `Done` after the last.
pub proof fn law_failed_send_is_reported(i: nat, peers: nat)
    requires
        i < peers,
        peers <= usize::MAX,
    ensures
        next_step(i, peers, false) == SendStep::Failed,
        i + 1 < peers ==> next_step(i, peers, true) == SendStep::SendTo((i + 1) as usize),
        i + 1 == peers ==> next_step(i, peers, true) == SendStep::Done,
        next_step(i, peers, true) != SendStep::Failed,
{
}

/// The peers a message goes to when the sends to the first `k` of them
/// succeed: the sequence of steps taken from the start.
pub open spec fn steps_when_all_succeed(peers: nat, k: nat) -> Seq<SendStep>
    decreases k,
{
    if k == 0 {
        seq![first_step(peers)]
    } else {
        let prev = steps_when_all_succeed(peers, (k - 1) as nat);
        prev.push(next_step((k - 1) as nat, peers, true))
    }
}

/// When every send succeeds, a message goes to each peer exactly once, in
/// the order the peers were registered, and the run then reports success.
pub proof fn law_send_visits_peers_in_order(peers: nat)
    requires
        peers < usize::MAX,
    ensures
        steps_when_all_succeed(peers, peers).len() == peers + 1,
        forall|i: int|
            0 <= i < peers ==> #[trigger] steps_when_all_succeed(peers, peers)[i] == SendStep::SendTo(
                i as usize,
            ),
        steps_when_all_succeed(peers, peers)[peers as int] == SendStep::Done,
{
    lemma_steps_prefix(peers, peers);
}

proof fn lemma_steps_prefix(peers: nat, k: nat)
    requires
        k <= peers,
        peers < usize::MAX,
    ensures
        steps_when_all_succeed(peers, k).len() == k + 1,
        forall|i: int|
            0 <= i <= k && i < peers ==> #[trigger] steps_when_all_succeed(peers, k)[i]
                == SendStep::SendTo(i as usize),
        k == peers ==> steps_when_all_succeed(peers, k)[k as int] == SendStep::Done,
    decreases k,
{
    if k > 0 {
        lemma_steps_prefix(peers, (k - 1) as nat);
    }
}

/// The answer a receiver sends back for a message that decoded to
/// `received`: a greeting for any non-empty message, nothing for an empty one.
pub fn receiver_reply(received: &str) -> (reply: Option<String>)
    ensures
        received@.len() == 0 ==> reply is None,
        received@.len() > 0 ==> (reply matches Some(r) && r@ == "Hello Sender"@),
{
    if received.is_empty() {
        None
    } else {
        Some(String::from_str("Hello Sender"))
    }
}

} // verus!
