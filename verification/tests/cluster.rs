use ring_membership::connection::Connection;
use ring_membership::identity::NodeIdentity;
use ring_membership::message::{
    AdmissionStep, JoinReply, Membership, Outbound, RingError, Rpc,
};
use ring_membership::ring::Ring;

fn v4(last: u32) -> NodeIdentity {
    NodeIdentity::V4 { octets: 0x0a00_0000 + last, port: 7000 }
}

/// A message on its way between two nodes.
#[derive(Clone, Copy, Debug, PartialEq)]
enum Packet {
    Call(Outbound, NodeIdentity),
    Ack(NodeIdentity),
    Reply(NodeIdentity, JoinReply),
}

/// Nodes in one process, and the messages that are under way between them.
struct Net {
    nodes: Vec<Ring>,
    wire: Vec<Packet>,
    unreachable: Vec<NodeIdentity>,
    failures: Vec<(NodeIdentity, RingError)>,
}

impl Net {
    fn new() -> Net {
        Net { nodes: Vec::new(), wire: Vec::new(), unreachable: Vec::new(), failures: Vec::new() }
    }

    fn at(&mut self, addr: NodeIdentity) -> &mut Ring {
        self.nodes.iter_mut().find(|n| n.addr() == addr).unwrap()
    }

    fn node(&self, addr: NodeIdentity) -> &Ring {
        self.nodes.iter().find(|n| n.addr() == addr).unwrap()
    }

    fn start(&mut self, addr: NodeIdentity, contact: Option<NodeIdentity>) {
        let mut node = Ring::new(addr, Connection::new(addr));
        if let Some(contact) = contact {
            let request = node.join(contact);
            self.wire.push(Packet::Call(request, addr));
        }
        self.nodes.push(node);
    }

    /// Delivers the message at `index` and puts what it causes on the wire.
    fn deliver(&mut self, index: usize) {
        let packet = self.wire.remove(index);
        match packet {
            Packet::Call(call, from) => {
                if self.unreachable.contains(&call.target) {
                    match call.rpc {
                        Rpc::JoinRing => self.wire.push(Packet::Reply(from, JoinReply::Failed)),
                        Rpc::SetSuccessor => self.finish(from, false),
                    }
                    return;
                }
                match call.rpc {
                    Rpc::JoinRing => {
                        let step = self.at(call.target).join_ring(Some(call.host)).unwrap();
                        if let AdmissionStep::Notify(next) = step {
                            self.wire.push(Packet::Call(next, call.target));
                        }
                    }
                    Rpc::SetSuccessor => {
                        self.at(call.target).set_next(Some(call.host)).unwrap();
                        self.wire.push(Packet::Ack(from));
                    }
                }
            }
            Packet::Ack(contact) => self.finish(contact, true),
            Packet::Reply(joiner, reply) => {
                if let Err(e) = self.at(joiner).complete_join(reply) {
                    self.failures.push((joiner, e));
                }
            }
        }
    }

    fn finish(&mut self, contact: NodeIdentity, delivered: bool) {
        let outcome = self.at(contact).complete_admission(delivered).unwrap();
        let reply = match outcome.reply {
            Ok(response) => JoinReply::Admitted(response.host),
            Err(_) => JoinReply::Failed,
        };
        self.wire.push(Packet::Reply(outcome.requester, reply));
        if let Some(next) = outcome.next {
            self.wire.push(Packet::Call(next, contact));
        }
    }

    fn run_in_order(&mut self) {
        while !self.wire.is_empty() {
            self.deliver(0);
        }
    }

    /// Follows the successor links from `from` and returns the nodes passed,
    /// stopping when `from` comes round again or after more steps than nodes.
    fn walk(&self, from: NodeIdentity) -> Vec<NodeIdentity> {
        let mut seen = vec![from];
        let mut at = self.node(from).successor();
        while at != from && seen.len() <= self.nodes.len() {
            seen.push(at);
            at = self.node(at).successor();
        }
        seen
    }

    fn assert_single_cycle(&self, members: &[NodeIdentity]) {
        let round = self.walk(members[0]);
        assert_eq!(round.len(), members.len());
        for m in members {
            assert_eq!(round.iter().filter(|x| *x == m).count(), 1);
            let node = self.node(*m);
            assert_eq!(self.node(node.successor()).predecessor(), *m);
            assert_eq!(self.node(node.predecessor()).successor(), *m);
            assert_eq!(node.admitting(), None);
            assert_eq!(node.waiting(), 0);
            if members.len() > 1 {
                assert_eq!(node.membership(), Membership::Linked);
            }
        }
    }
}

struct Lcg(u64);

impl Lcg {
    fn below(&mut self, n: usize) -> usize {
        self.0 = self.0.wrapping_mul(6364136223846793005).wrapping_add(1442695040888963407);
        ((self.0 >> 33) as usize) % n
    }
}

#[test]
fn two_node_join() {
    let a = v4(1);
    let b = v4(2);
    let mut net = Net::new();
    net.start(a, None);
    net.start(b, Some(a));
    net.run_in_order();
    assert_eq!(net.node(a).successor(), b);
    assert_eq!(net.node(a).predecessor(), b);
    assert_eq!(net.node(b).successor(), a);
    assert_eq!(net.node(b).predecessor(), a);
    assert!(net.failures.is_empty());
    net.assert_single_cycle(&[a, b]);
}

#[test]
fn three_node_insertion_ordering() {
    let a = v4(1);
    let b = v4(2);
    let c = v4(3);
    let mut net = Net::new();
    net.start(a, None);
    net.start(b, Some(a));
    net.run_in_order();
    net.start(c, Some(a));
    net.run_in_order();
    assert_eq!(net.node(a).predecessor(), c);
    assert_eq!(net.node(c).successor(), a);
    assert_eq!(net.node(c).predecessor(), b);
    assert_eq!(net.node(b).successor(), c);
    assert_eq!(net.node(a).successor(), b);
    assert_eq!(net.node(b).predecessor(), a);
    assert_eq!(net.walk(a), vec![a, b, c]);
    net.assert_single_cycle(&[a, b, c]);
}

#[test]
fn join_links_joiner_between_contact_and_its_predecessor() {
    let a = v4(1);
    let b = v4(2);
    let c = v4(3);
    let d = v4(4);
    let mut net = Net::new();
    net.start(a, None);
    for n in [b, c] {
        net.start(n, Some(a));
        net.run_in_order();
    }
    // d joins through b, whose predecessor is a.
    assert_eq!(net.node(b).predecessor(), a);
    net.start(d, Some(b));
    net.run_in_order();
    assert_eq!(net.node(a).successor(), d);
    assert_eq!(net.node(d).predecessor(), a);
    assert_eq!(net.node(d).successor(), b);
    assert_eq!(net.node(b).predecessor(), d);
    // The others keep their links.
    assert_eq!(net.node(b).successor(), c);
    assert_eq!(net.node(c).successor(), a);
    assert_eq!(net.node(c).predecessor(), b);
    assert_eq!(net.node(a).predecessor(), c);
    assert_eq!(net.walk(a), vec![a, d, b, c]);
    net.assert_single_cycle(&[a, b, c, d]);
}

#[test]
fn unreachable_predecessor_fails_the_join() {
    let a = v4(1);
    let b = v4(2);
    let c = v4(3);
    let mut net = Net::new();
    net.start(a, None);
    net.start(b, Some(a));
    net.run_in_order();
    // a's predecessor b goes away; c asks a.
    net.unreachable.push(b);
    net.start(c, Some(a));
    net.run_in_order();
    assert_eq!(net.failures, vec![(c, RingError::RpcDelivery)]);
    assert_eq!(net.node(c).membership(), Membership::JoinPending);
    // The ring of a and b is as it was.
    assert_eq!(net.node(a).predecessor(), b);
    assert_eq!(net.node(a).successor(), b);
    assert_eq!(net.node(a).admitting(), None);
}

#[test]
fn unreachable_contact_fails_the_join() {
    let a = v4(1);
    let b = v4(2);
    let mut net = Net::new();
    net.start(a, None);
    net.unreachable.push(a);
    net.start(b, Some(a));
    net.run_in_order();
    assert_eq!(net.failures, vec![(b, RingError::RpcDelivery)]);
    assert_eq!(net.node(b).membership(), Membership::JoinPending);
    assert_eq!(net.node(a).membership(), Membership::Unlinked);
}

#[test]
fn serialized_admission() {
    let a = v4(1);
    let b = v4(2);
    let c = v4(3);
    let mut net = Net::new();
    net.start(a, None);
    // Both requests are on the wire before a has handled either.
    net.start(b, Some(a));
    net.start(c, Some(a));
    // a takes b's request, then c's while b's admission is still under way.
    net.deliver(0);
    net.deliver(0);
    assert_eq!(net.node(a).waiting(), 1);
    assert_eq!(net.node(a).predecessor(), a);
    net.run_in_order();
    assert!(net.failures.is_empty());
    assert_eq!(net.walk(a), vec![a, b, c]);
    net.assert_single_cycle(&[a, b, c]);
}

#[test]
fn update_for_a_joiner_may_overtake_its_answer() {
    let a = v4(1);
    let b = v4(2);
    let c = v4(3);
    let mut net = Net::new();
    net.start(a, None);
    net.start(b, Some(a));
    net.start(c, Some(a));
    net.deliver(0); // a begins to admit b
    net.deliver(0); // c waits
    net.deliver(0); // a takes the update for itself
    assert_eq!(net.node(a).successor(), b);
    net.deliver(0); // a ends b's admission and begins c's
    assert_eq!(net.node(a).predecessor(), b);
    assert_eq!(net.wire.len(), 2);
    net.deliver(1); // the update of c's admission reaches b first
    assert_eq!(net.node(b).successor(), c);
    assert_eq!(net.node(b).membership(), Membership::JoinPending);
    net.deliver(0); // now b's answer
    assert_eq!(net.node(b).predecessor(), a);
    assert_eq!(net.node(b).membership(), Membership::Linked);
    net.run_in_order();
    assert!(net.failures.is_empty());
    assert_eq!(net.node(a).successor(), b);
    assert_eq!(net.node(b).successor(), c);
    assert_eq!(net.node(c).successor(), a);
    assert_eq!(net.node(a).predecessor(), c);
    assert_eq!(net.node(c).predecessor(), b);
    assert_eq!(net.node(b).predecessor(), a);
    net.assert_single_cycle(&[a, b, c]);
}

#[test]
fn serialized_admission_under_random_schedules() {
    for seed in 0..200u64 {
        let mut rng = Lcg(seed * 2654435761 + 17);
        let origin = v4(1);
        let mut net = Net::new();
        net.start(origin, None);
        let mut members = vec![origin];
        let mut linked = vec![origin];
        let mut next_id = 2u32;
        let total = 2 + rng.below(9);
        while members.len() < total || !net.wire.is_empty() {
            let may_start = members.len() < total;
            if may_start && (net.wire.is_empty() || rng.below(3) == 0) {
                // A new node asks a member that has completed its own join.
                linked = members
                    .iter()
                    .copied()
                    .filter(|m| net.node(*m).membership() != Membership::JoinPending)
                    .collect();
                let contact = if rng.below(2) == 0 { origin } else { linked[rng.below(linked.len())] };
                let joiner = v4(next_id);
                next_id += 1;
                net.start(joiner, Some(contact));
                members.push(joiner);
            } else {
                let pick = rng.below(net.wire.len());
                net.deliver(pick);
            }
        }
        assert!(!linked.is_empty());
        assert!(net.failures.is_empty(), "seed {}", seed);
        net.assert_single_cycle(&members);
    }
}
