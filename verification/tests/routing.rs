use ed25519_dalek_fiat::{Keypair, PublicKey, SecretKey, Signer};
use kadchain::kademlia::buckets::KadBucket;
use kadchain::kademlia::distance::{distance_le, sort_nodes_by_distance};
use kadchain::kademlia::kadid::KadID;
use kadchain::kademlia::lookup::{bootstrap_targets, lookup_reply, LookupAction, LookupReply, LookupResult, NodeLookup};
use kadchain::kademlia::node::{NodeAddr, NodeInfo};
use kadchain::kademlia::routing::{accept_broadcast, LocalNodeData};
use kadchain::kademlia::rpc::{
    check_puzzle, dynamic_cryptopuzzle_generate, keypair_from_secret, dynamic_cryptopuzzle_verify, sign_message, verify_message,
    KadFindValueResponse, KadRequest, KadRequestFunction, KadResponseFunction, MessageRejection, SignedMessageError,
};

fn id_with_last(b: u8) -> KadID {
    let mut a = [0u8; 20];
    a[19] = b;
    KadID::from_array(a)
}

fn id_with_first(b: u8) -> KadID {
    let mut a = [0u8; 20];
    a[0] = b;
    KadID::from_array(a)
}

fn peer(id: KadID, port: u16) -> NodeInfo {
    NodeInfo { socket_addr: NodeAddr::V4 { octets: [127, 0, 0, 1], port }, id, pubkey: None }
}

fn keypair(seed: u8) -> Keypair {
    let secret = SecretKey::from_bytes(&[seed; 32]).unwrap();
    let public: PublicKey = (&secret).into();
    Keypair { secret, public }
}

#[test]
fn bucket_moves_seen_node_to_back() {
    let mut b = KadBucket::new_at(0);
    let p1 = peer(id_with_last(1), 1);
    let p2 = peer(id_with_last(2), 2);
    b.update_node_at(p1, 10);
    b.update_node_at(p2, 20);
    b.update_node_at(p1, 30);
    assert_eq!(b.nodes(), &[p2, p1]);
    assert_eq!(b.last_update, 30);
}

#[test]
fn bucket_keeps_at_most_k() {
    let mut b = KadBucket::new_at(0);
    for i in 0..11u8 {
        b.update_node_at(peer(id_with_last(i), i as u16), i as i128);
    }
    assert_eq!(b.nodes().len(), 10);
    assert_eq!(b.nodes()[0], peer(id_with_last(1), 1));
    assert_eq!(b.nodes()[9], peer(id_with_last(10), 10));
}

#[test]
fn bucket_delete_forgets() {
    let mut b = KadBucket::new_at(5);
    let p1 = peer(id_with_last(1), 1);
    let p2 = peer(id_with_last(2), 2);
    b.update_node_at(p1, 6);
    b.update_node_at(p2, 7);
    b.delete_node(&p1);
    assert_eq!(b.nodes(), &[p2]);
    b.delete_node(&p1);
    assert_eq!(b.nodes(), &[p2]);
    assert_eq!(b.last_update, 7);
}

#[test]
fn bucket_staleness() {
    let b = KadBucket::new_at(0);
    let hour: i128 = 3600 * 1_000_000_000;
    assert!(!b.is_stale_at(hour));
    assert!(b.is_stale_at(hour + 1));
    assert!(!KadBucket::new().is_stale());
    assert!(KadBucket::default().nodes().is_empty());
}

#[test]
fn sort_by_distance_orders_nearest_first() {
    let key = KadID::zeroes();
    let far = peer(id_with_first(0x80), 1);
    let mid = peer(id_with_last(0x40), 2);
    let near = peer(id_with_last(0x01), 3);
    let sorted = sort_nodes_by_distance(&vec![far, near, mid], &key);
    assert_eq!(sorted, vec![near, mid, far]);
    assert!(distance_le(&[0u8; 20], &[0u8; 20]));
    assert!(!distance_le(&[1u8; 20], &[0u8; 20]));
}

#[test]
fn routing_table_closest_nodes() {
    let mut data = LocalNodeData::new_at(KadID::zeroes(), [0u8; 64], 0);
    let a = peer(id_with_last(1), 1);
    let b = peer(id_with_last(3), 2);
    let c = peer(id_with_first(0x80), 3);
    data.update_node_at(c, 1);
    data.update_node_at(b, 2);
    data.update_node_at(a, 3);
    assert_eq!(data.get_closest_nodes(&KadID::zeroes(), 2), vec![a, b]);
    assert_eq!(data.get_closest_nodes(&KadID::zeroes(), 5), vec![a, b, c]);
    assert_eq!(data.get_closest_nodes(&id_with_first(0x80), 1), vec![c]);
    data.delete_node(&a);
    assert_eq!(data.get_closest_nodes(&KadID::zeroes(), 5), vec![b, c]);
}

#[test]
fn routing_table_stale_buckets() {
    let data = LocalNodeData::new_at(KadID::zeroes(), [0u8; 64], 0);
    let hour: i128 = 3600 * 1_000_000_000;
    assert!(data.get_stale_indexes_at(hour).is_empty());
    let stale = data.get_stale_indexes_at(hour + 1);
    assert_eq!(stale.len(), 161);
    assert_eq!(stale[0], 0);
    assert_eq!(stale[160], 160);
}

#[test]
fn store_then_get_gives_value_back() {
    let mut data = LocalNodeData::new_at(KadID::zeroes(), [0u8; 64], 0);
    let key = id_with_last(9);
    assert_eq!(data.get_value(&key), None);
    data.store_value(key, vec![1, 2, 3]);
    assert_eq!(data.get_value(&key), Some(vec![1, 2, 3]));
    data.store_value(key, vec![4]);
    assert_eq!(data.get_value(&key), Some(vec![4]));
    assert_eq!(data.storage.len(), 1);
    assert_eq!(data.get_value(&id_with_last(8)), None);
}

#[test]
fn requests_are_answered() {
    let mut data = LocalNodeData::new_at(KadID::zeroes(), [0u8; 64], 0);
    let origin = peer(id_with_last(5), 7);
    let key = id_with_last(9);
    let res = data.handle_request_at(
        KadRequest { uid: [1u8; 20], function: KadRequestFunction::Store { key, value: vec![42] } },
        origin,
        10,
    );
    assert_eq!(res.uid, [1u8; 20]);
    assert!(matches!(res.function, KadResponseFunction::Ping));
    assert_eq!(data.get_closest_nodes(&KadID::zeroes(), 2), vec![origin]);

    match data.answer_request(KadRequestFunction::FindValue { key }) {
        KadResponseFunction::FindValue(KadFindValueResponse::Found(v)) => assert_eq!(v, vec![42]),
        _ => panic!("the stored value was not found"),
    }
    match data.answer_request(KadRequestFunction::FindValue { key: id_with_last(10) }) {
        KadResponseFunction::FindValue(KadFindValueResponse::Next(nodes)) => assert_eq!(nodes, vec![origin]),
        _ => panic!("a missing value must give the closest peers"),
    }
    match data.answer_request(KadRequestFunction::FindNode { id: KadID::zeroes() }) {
        KadResponseFunction::FindNode { nodes } => assert_eq!(nodes, vec![origin]),
        _ => panic!("a node search must give peers"),
    }
    assert!(matches!(data.answer_request(KadRequestFunction::Ping), KadResponseFunction::Ping));
    assert!(matches!(data.answer_request(KadRequestFunction::Broadcast(vec![1])), KadResponseFunction::Ping));
}

#[test]
fn broadcast_age_limit() {
    let limit: i128 = 300 * 1_000_000_000;
    assert!(accept_broadcast(limit, 0, false));
    assert!(!accept_broadcast(limit + 1, 0, false));
    assert!(!accept_broadcast(0, 0, true));
}

#[test]
fn lookup_finishes_with_nearest_answers() {
    let local = peer(KadID::zeroes(), 1);
    let key = id_with_last(0x10);
    let a = peer(id_with_last(0x11), 2);
    let b = peer(id_with_last(0x30), 3);
    let (mut lookup, action) = NodeLookup::start(local, key, false, vec![a, b]);
    match action {
        LookupAction::Query(ns) => assert_eq!(ns, vec![a, b]),
        _ => panic!("a lookup with peers must query them"),
    }
    let mut action = lookup.step(Some((LookupReply::Nodes(vec![]), a)));
    if let LookupAction::Query(_) = action {
        action = lookup.step(Some((LookupReply::Nodes(vec![]), b)));
    }
    match action {
        LookupAction::Finished(LookupResult::Nodes(r)) => assert_eq!(r, vec![a, local, b]),
        _ => panic!("the lookup should be over"),
    }
}

#[test]
fn lookup_stops_on_value() {
    let local = peer(KadID::zeroes(), 1);
    let key = id_with_last(0x10);
    let a = peer(id_with_last(0x11), 2);
    let (mut lookup, _) = NodeLookup::start(local, key, true, vec![a]);
    match lookup.step(Some((LookupReply::Value(vec![9, 9]), a))) {
        LookupAction::Finished(LookupResult::Value(v)) => assert_eq!(v, vec![9, 9]),
        _ => panic!("a found value ends the lookup"),
    }
}

#[test]
fn puzzle_round_trip() {
    let id = id_with_last(77);
    let x = dynamic_cryptopuzzle_generate(&id).unwrap();
    assert!(dynamic_cryptopuzzle_verify(&x, &id));
    assert_eq!(check_puzzle(&x, &id), Ok(()));
}

#[test]
fn puzzle_rejects_bad_solution() {
    let id = KadID::zeroes();
    // sha1 of twenty zero bytes starts with 0x67: only one leading zero bit
    assert!(!dynamic_cryptopuzzle_verify(&[0u8; 20], &id));
    assert_eq!(check_puzzle(&[0u8; 20], &id), Err(SignedMessageError::C2VerifyError));
}

#[test]
fn signed_messages_verify() {
    let kp = keypair(3);
    let id = id_with_last(4);
    let message = b"hello peers";
    let (sig, x) = sign_message(&kp.to_bytes(), message, &id).unwrap();
    assert_eq!(sig, kp.sign(message).to_bytes());
    let sender = NodeInfo {
        socket_addr: NodeAddr::V4 { octets: [10, 0, 0, 1], port: 9 },
        id,
        pubkey: Some(kp.public.to_bytes()),
    };
    assert_eq!(verify_message(message, &sig, &x, &sender), Ok(()));
    assert_eq!(verify_message(b"hello peerz", &sig, &x, &sender), Err(MessageRejection::BadSignature));
    assert_eq!(
        verify_message(message, &sig, &[0u8; 20], &NodeInfo { id: KadID::zeroes(), ..sender }),
        Err(MessageRejection::Insecure(SignedMessageError::C2VerifyError))
    );
}

#[test]
fn keypair_from_secret_matches_dalek() {
    let kp = keypair(11);
    assert_eq!(keypair_from_secret([11u8; 32]), kp.to_bytes());
}

#[test]
fn lookup_counts_only_the_sender_as_queried() {
    let local = peer(KadID::zeroes(), 1);
    let key = id_with_last(0x10);
    let a = peer(id_with_last(0x11), 2);
    let b = peer(id_with_last(0x30), 3);
    let c = peer(id_with_last(0x12), 4);
    let (mut lookup, _) = NodeLookup::start(local, key, false, vec![a, b]);
    let _ = lookup.step(Some((LookupReply::Nodes(vec![c, b]), a)));
    assert_eq!(lookup.queried_nodes, vec![local, a]);
    assert_eq!(lookup.found_nodes, vec![local, c, b]);
    let mut cutoff = [0u8; 20];
    cutoff[19] = 0x01;
    assert_eq!(lookup.distance_cutoff, cutoff);
}

#[test]
fn lookup_request_kind_and_reply_reading() {
    let local = peer(KadID::zeroes(), 1);
    let key = id_with_last(0x10);
    let a = peer(id_with_last(0x11), 2);
    let (lookup, _) = NodeLookup::start(local, key, true, vec![a]);
    assert!(matches!(lookup.request_function(), KadRequestFunction::FindValue { key: k } if k == key));
    let (lookup, _) = NodeLookup::start(local, key, false, vec![a]);
    assert!(matches!(lookup.request_function(), KadRequestFunction::FindNode { id } if id == key));
    assert!(matches!(lookup_reply(KadResponseFunction::Ping), LookupReply::Ping));
    assert!(matches!(
        lookup_reply(KadResponseFunction::FindValue(KadFindValueResponse::Next(vec![a]))),
        LookupReply::Nodes(n) if n == vec![a]
    ));
    assert!(matches!(
        lookup_reply(KadResponseFunction::FindValue(KadFindValueResponse::Found(vec![1]))),
        LookupReply::Value(v) if v == vec![1]
    ));
}

#[test]
fn consistent_keypair_messages_round_trip() {
    let kp = keypair_from_secret([21u8; 32]);
    let id = id_with_last(21);
    let (sig, x) = sign_message(&kp, b"ping", &id).unwrap();
    let mut public = [0u8; 32];
    public.copy_from_slice(&kp[32..]);
    let sender = NodeInfo { socket_addr: NodeAddr::V4 { octets: [1, 2, 3, 4], port: 5 }, id, pubkey: Some(public) };
    assert_eq!(verify_message(b"ping", &sig, &x, &sender), Ok(()));
}

#[test]
fn find_node_answer_after_origin_is_added() {
    let mut data = LocalNodeData::new_at(KadID::zeroes(), [0u8; 64], 0);
    let origin = peer(id_with_last(5), 7);
    let res = data.handle_request_at(
        KadRequest { uid: [2u8; 20], function: KadRequestFunction::FindNode { id: KadID::zeroes() } },
        origin,
        3,
    );
    match res.function {
        KadResponseFunction::FindNode { nodes } => assert_eq!(nodes, vec![origin]),
        _ => panic!("a node search must give peers"),
    }
    assert!(data.storage.is_empty());
}

#[test]
fn bootstrap_targets_cover_every_bucket() {
    let local = KadID::random();
    let keys = bootstrap_targets(&local, 161);
    assert_eq!(keys.len(), 162);
    assert_eq!(keys[0], local);
    for b in 0..161usize {
        assert_eq!(kadchain::kademlia::kadid::bucket(&local.xor(&keys[b + 1])), b as u8);
    }
}

#[test]
fn lookup_starts_with_nearest_alpha() {
    let local = peer(KadID::zeroes(), 1);
    let key = id_with_last(0x10);
    let far = peer(id_with_last(0x70), 2);
    let near = peer(id_with_last(0x11), 3);
    let mid = peer(id_with_last(0x18), 4);
    let (lookup, action) = NodeLookup::start(local, key, false, vec![far, near, mid]);
    match action {
        LookupAction::Query(ns) => assert_eq!(ns, vec![near, mid]),
        _ => panic!("a lookup with peers must query them"),
    }
    assert_eq!(lookup.query_queue.len(), 1);
    assert_eq!(lookup.query_queue[0].node, far);
}

#[test]
fn lookup_keeps_querying_while_converging() {
    let local = peer(KadID::zeroes(), 1);
    let key = id_with_last(0x10);
    let a = peer(id_with_last(0x18), 2);
    let b = peer(id_with_last(0x1C), 3);
    let c = peer(id_with_last(0x11), 4);
    let (mut lookup, _) = NodeLookup::start(local, key, false, vec![a, b]);
    // a nearer peer arrives: the lookup keeps converging and queries it
    match lookup.step(Some((LookupReply::Nodes(vec![c]), a))) {
        LookupAction::Query(ns) => assert_eq!(ns, vec![c]),
        _ => panic!("a nearer peer must be queried"),
    }
}
