use ring_membership::connection::Connection;
use ring_membership::identity::NodeIdentity;
use ring_membership::message::{
    Admission, AdmissionOutcome, AdmissionStep, JoinReply, JoinResponse, Membership, Outbound,
    RingError, Rpc, SetHostResponse,
};
use ring_membership::ring::Ring;

fn v4(last: u32, port: u16) -> NodeIdentity {
    NodeIdentity::V4 { octets: 0x7f00_0000 + last, port }
}

fn started(addr: NodeIdentity) -> Ring {
    Ring::new(addr, Connection::new(addr))
}

#[test]
fn identities_compare_by_value() {
    assert_eq!(v4(1, 5000), NodeIdentity::V4 { octets: 0x7f00_0001, port: 5000 });
    assert_ne!(v4(1, 5000), v4(1, 5001));
    assert_ne!(v4(1, 5000), v4(2, 5000));
    let six = NodeIdentity::V6 { segments: 1, port: 5000, flowinfo: 0, scope_id: 0 };
    assert_ne!(six, NodeIdentity::V4 { octets: 1, port: 5000 });
    assert_ne!(six, NodeIdentity::V6 { segments: 1, port: 5000, flowinfo: 0, scope_id: 3 });
    assert_eq!(six, NodeIdentity::V6 { segments: 1, port: 5000, flowinfo: 0, scope_id: 0 });
}

#[test]
fn connection_starts_as_self_loop() {
    let a = v4(1, 5000);
    let c = Connection::new(a);
    assert_eq!(c.get_successor(), a);
    assert_eq!(c.get_predecessor(), a);
}

#[test]
fn connection_setters_touch_one_link() {
    let a = v4(1, 5000);
    let b = v4(2, 5000);
    let c = v4(3, 5000);
    let mut link = Connection::new(a);
    link.set_successor(b);
    assert_eq!(link.get_successor(), b);
    assert_eq!(link.get_predecessor(), a);
    link.set_predecessor(c);
    assert_eq!(link.get_successor(), b);
    assert_eq!(link.get_predecessor(), c);
}

#[test]
fn singleton_invariant() {
    let a = v4(1, 5000);
    let node = started(a);
    assert_eq!(node.addr(), a);
    assert_eq!(node.successor(), a);
    assert_eq!(node.predecessor(), a);
    assert_eq!(node.membership(), Membership::Unlinked);
    assert_eq!(node.admitting(), None);
    assert_eq!(node.waiting(), 0);
}

#[test]
fn new_keeps_the_given_links() {
    let a = v4(1, 5000);
    let b = v4(2, 5000);
    let c = v4(3, 5000);
    let mut link = Connection::new(a);
    link.set_successor(b);
    link.set_predecessor(c);
    let node = Ring::new(a, link);
    assert_eq!(node.addr(), a);
    assert_eq!(node.successor(), b);
    assert_eq!(node.predecessor(), c);
    assert_eq!(node.connection(), link);
    assert_eq!(node.membership(), Membership::Linked);
}

#[test]
fn set_next_overwrites_successor_only() {
    let a = v4(1, 5000);
    let b = v4(2, 5000);
    let mut node = started(a);
    assert_eq!(node.set_next(Some(b)), Ok(SetHostResponse {}));
    assert_eq!(node.successor(), b);
    assert_eq!(node.predecessor(), a);
    assert_eq!(node.addr(), a);
    assert_eq!(node.membership(), Membership::Linked);
}

#[test]
fn set_prev_overwrites_predecessor_only() {
    let a = v4(1, 5000);
    let b = v4(2, 5000);
    let mut node = started(a);
    assert_eq!(node.set_prev(Some(b)), Ok(SetHostResponse {}));
    assert_eq!(node.predecessor(), b);
    assert_eq!(node.successor(), a);
    assert_eq!(node.addr(), a);
}

#[test]
fn idempotent_setter() {
    let a = v4(1, 5000);
    let x = v4(9, 5000);
    let mut once = started(a);
    let mut twice = started(a);
    assert_eq!(once.set_next(Some(x)), Ok(SetHostResponse {}));
    assert_eq!(twice.set_next(Some(x)), Ok(SetHostResponse {}));
    assert_eq!(twice.set_next(Some(x)), Ok(SetHostResponse {}));
    assert_eq!(once.connection(), twice.connection());
    assert_eq!(once.membership(), twice.membership());
    assert_eq!(once.admitting(), twice.admitting());
    assert_eq!(once.waiting(), twice.waiting());
    assert_eq!(twice.successor(), x);

    assert_eq!(once.set_prev(Some(x)), Ok(SetHostResponse {}));
    assert_eq!(twice.set_prev(Some(x)), Ok(SetHostResponse {}));
    assert_eq!(twice.set_prev(Some(x)), Ok(SetHostResponse {}));
    assert_eq!(once.connection(), twice.connection());
    assert_eq!(twice.predecessor(), x);
}

#[test]
fn malformed_address_is_refused_and_changes_nothing() {
    let a = v4(1, 5000);
    let b = v4(2, 5000);
    let mut node = started(a);
    node.set_next(Some(b)).unwrap();
    let before = node.connection();

    assert_eq!(node.set_next(None), Err(RingError::AddressParse));
    assert_eq!(node.set_prev(None), Err(RingError::AddressParse));
    assert_eq!(node.join_ring(None), Err(RingError::AddressParse));

    assert_eq!(node.connection(), before);
    assert_eq!(node.admitting(), None);
    assert_eq!(node.waiting(), 0);
    assert_eq!(node.membership(), Membership::Linked);
}

#[test]
fn join_points_at_contact_and_asks() {
    let a = v4(1, 5000);
    let n = v4(2, 5000);
    let mut node = started(n);
    let request = node.join(a);
    assert_eq!(request, Outbound { rpc: Rpc::JoinRing, target: a, host: n });
    assert_eq!(node.successor(), a);
    assert_eq!(node.predecessor(), n);
    assert_eq!(node.membership(), Membership::JoinPending);
}

#[test]
fn admitted_reply_links_the_node() {
    let a = v4(1, 5000);
    let p = v4(3, 5000);
    let n = v4(2, 5000);
    let mut node = started(n);
    node.join(a);
    assert_eq!(node.complete_join(JoinReply::Admitted(p)), Ok(()));
    assert_eq!(node.successor(), a);
    assert_eq!(node.predecessor(), p);
    assert_eq!(node.membership(), Membership::Linked);
}

#[test]
fn failed_join_is_reported_and_node_is_not_linked() {
    let a = v4(1, 5000);
    let n = v4(2, 5000);
    let mut node = started(n);
    node.join(a);
    assert_eq!(node.complete_join(JoinReply::Failed), Err(RingError::RpcDelivery));
    assert_eq!(node.membership(), Membership::JoinPending);
    assert_eq!(node.successor(), a);
    assert_eq!(node.predecessor(), n);
}

#[test]
fn malformed_join_reply_is_reported() {
    let a = v4(1, 5000);
    let n = v4(2, 5000);
    let mut node = started(n);
    node.join(a);
    assert_eq!(node.complete_join(JoinReply::Malformed), Err(RingError::AddressParse));
    assert_eq!(node.membership(), Membership::JoinPending);
    assert_eq!(node.predecessor(), n);
}

#[test]
fn join_can_start_over_after_a_failure() {
    let a = v4(1, 5000);
    let b = v4(4, 5000);
    let n = v4(2, 5000);
    let mut node = started(n);
    node.join(a);
    assert_eq!(node.complete_join(JoinReply::Failed), Err(RingError::RpcDelivery));
    let request = node.join(b);
    assert_eq!(request, Outbound { rpc: Rpc::JoinRing, target: b, host: n });
    assert_eq!(node.complete_join(JoinReply::Admitted(a)), Ok(()));
    assert_eq!(node.successor(), b);
    assert_eq!(node.predecessor(), a);
    assert_eq!(node.membership(), Membership::Linked);
}

#[test]
fn reply_without_request_is_refused() {
    let a = v4(1, 5000);
    let p = v4(3, 5000);
    let mut node = started(a);
    assert_eq!(node.complete_join(JoinReply::Admitted(p)), Err(RingError::NotJoining));
    assert_eq!(node.complete_join(JoinReply::Failed), Err(RingError::NotJoining));
    assert_eq!(node.successor(), a);
    assert_eq!(node.predecessor(), a);
    assert_eq!(node.membership(), Membership::Unlinked);
}

#[test]
fn join_ring_begins_admission_and_names_old_predecessor() {
    let e = v4(1, 5000);
    let p = v4(2, 5000);
    let n = v4(3, 5000);
    let mut contact = started(e);
    contact.set_prev(Some(p)).unwrap();
    contact.set_next(Some(p)).unwrap();

    let step = contact.join_ring(Some(n));
    assert_eq!(
        step,
        Ok(AdmissionStep::Notify(Outbound { rpc: Rpc::SetSuccessor, target: p, host: n }))
    );
    // Nothing is linked before the old predecessor has acknowledged.
    assert_eq!(contact.predecessor(), p);
    assert_eq!(contact.successor(), p);
    assert_eq!(contact.admitting(), Some(Admission { requester: n, old_predecessor: p }));

    let outcome = contact.complete_admission(true);
    assert_eq!(
        outcome,
        Some(AdmissionOutcome {
            requester: n,
            reply: Ok(JoinResponse { host: p }),
            next: None,
        })
    );
    assert_eq!(contact.predecessor(), n);
    assert_eq!(contact.successor(), p);
    assert_eq!(contact.admitting(), None);
}

#[test]
fn partial_failure_detection() {
    let e = v4(1, 5000);
    let p = v4(2, 5000);
    let n = v4(3, 5000);
    let mut contact = started(e);
    contact.set_prev(Some(p)).unwrap();
    contact.set_next(Some(p)).unwrap();
    contact.join_ring(Some(n)).unwrap();

    // The old predecessor is unreachable.
    let outcome = contact.complete_admission(false).unwrap();
    assert_eq!(outcome.requester, n);
    assert_eq!(outcome.reply, Err(RingError::PartialJoin));
    assert_eq!(outcome.next, None);
    assert_eq!(contact.predecessor(), p);
    assert_eq!(contact.successor(), p);
    assert_eq!(contact.admitting(), None);
}

#[test]
fn complete_admission_without_admission_does_nothing() {
    let e = v4(1, 5000);
    let mut contact = started(e);
    assert_eq!(contact.complete_admission(true), None);
    assert_eq!(contact.complete_admission(false), None);
    assert_eq!(contact.predecessor(), e);
    assert_eq!(contact.successor(), e);
}

#[test]
fn reply_names_predecessor_read_at_the_start() {
    let e = v4(1, 5000);
    let p = v4(2, 5000);
    let x = v4(7, 5000);
    let n = v4(3, 5000);
    let mut contact = started(e);
    contact.set_prev(Some(p)).unwrap();
    contact.join_ring(Some(n)).unwrap();
    // A stray update in the middle of the admission.
    contact.set_prev(Some(x)).unwrap();
    let outcome = contact.complete_admission(true).unwrap();
    assert_eq!(outcome.reply, Ok(JoinResponse { host: p }));
    assert_eq!(contact.predecessor(), n);
}

#[test]
fn concurrent_requests_wait_their_turn() {
    let e = v4(1, 5000);
    let p = v4(2, 5000);
    let n1 = v4(3, 5000);
    let n2 = v4(4, 5000);
    let n3 = v4(5, 5000);
    let mut contact = started(e);
    contact.set_prev(Some(p)).unwrap();
    contact.set_next(Some(p)).unwrap();

    assert_eq!(
        contact.join_ring(Some(n1)),
        Ok(AdmissionStep::Notify(Outbound { rpc: Rpc::SetSuccessor, target: p, host: n1 }))
    );
    assert_eq!(contact.join_ring(Some(n2)), Ok(AdmissionStep::Queued));
    assert_eq!(contact.join_ring(Some(n3)), Ok(AdmissionStep::Queued));
    assert_eq!(contact.waiting(), 2);
    assert_eq!(contact.predecessor(), p);
    assert_eq!(contact.admitting(), Some(Admission { requester: n1, old_predecessor: p }));

    assert_eq!(
        contact.complete_admission(true),
        Some(AdmissionOutcome {
            requester: n1,
            reply: Ok(JoinResponse { host: p }),
            next: Some(Outbound { rpc: Rpc::SetSuccessor, target: n1, host: n2 }),
        })
    );
    assert_eq!(contact.predecessor(), n1);
    assert_eq!(contact.waiting(), 1);
    assert_eq!(contact.admitting(), Some(Admission { requester: n2, old_predecessor: n1 }));

    assert_eq!(
        contact.complete_admission(true),
        Some(AdmissionOutcome {
            requester: n2,
            reply: Ok(JoinResponse { host: n1 }),
            next: Some(Outbound { rpc: Rpc::SetSuccessor, target: n2, host: n3 }),
        })
    );
    assert_eq!(
        contact.complete_admission(true),
        Some(AdmissionOutcome {
            requester: n3,
            reply: Ok(JoinResponse { host: n2 }),
            next: None,
        })
    );
    assert_eq!(contact.predecessor(), n3);
    assert_eq!(contact.waiting(), 0);
    assert_eq!(contact.admitting(), None);
}

#[test]
fn failed_admission_lets_the_next_one_start_from_the_old_links() {
    let e = v4(1, 5000);
    let p = v4(2, 5000);
    let n1 = v4(3, 5000);
    let n2 = v4(4, 5000);
    let mut contact = started(e);
    contact.set_prev(Some(p)).unwrap();
    contact.join_ring(Some(n1)).unwrap();
    assert_eq!(contact.join_ring(Some(n2)), Ok(AdmissionStep::Queued));

    assert_eq!(
        contact.complete_admission(false),
        Some(AdmissionOutcome {
            requester: n1,
            reply: Err(RingError::PartialJoin),
            next: Some(Outbound { rpc: Rpc::SetSuccessor, target: p, host: n2 }),
        })
    );
    assert_eq!(contact.predecessor(), p);
    assert_eq!(
        contact.complete_admission(true),
        Some(AdmissionOutcome {
            requester: n2,
            reply: Ok(JoinResponse { host: p }),
            next: None,
        })
    );
    assert_eq!(contact.predecessor(), n2);
}
