use ilnyaplus::endpoint::Endpoint;
use ilnyaplus::message::PingResponseMessage;
use ilnyaplus::node::endpoint_to_node_id;
use ilnyaplus::virtual_net::{VirtualNetworkManager, VirtualPeer};
use openssl::rand::rand_bytes;

#[test]
fn ping_test() {
    let now = 1000u64;
    let mut vnm = VirtualNetworkManager::new(2, now);

    let ep0 = vnm.virtual_peers[0].dht_manager.local_endpoint();
    let ep1 = vnm.virtual_peers[1].dht_manager.local_endpoint();

    assert_eq!(vnm.virtual_peers[0].dht_manager.route_table.contains(&ep1), false);
    assert_eq!(vnm.virtual_peers[1].dht_manager.route_table.contains(&ep0), false);

    vnm.connect_all_each_other(now);

    assert_eq!(vnm.virtual_peers[0].dht_manager.route_table.contains(&ep1), true);
    assert_eq!(vnm.virtual_peers[1].dht_manager.route_table.contains(&ep0), true);
}

#[test]
fn unsolicited_ping_response_is_rejected() {
    let now = 1000u64;
    let ep = Endpoint { a: 127, b: 0, c: 0, d: 1, port: 50000 };
    let mut peer = VirtualPeer::new(b"solo", &ep, now);

    let stranger = Endpoint { a: 127, b: 0, c: 0, d: 1, port: 50001 };
    let pong = PingResponseMessage::new().to_bytes();
    let replies = peer.dht_manager.handle_datagram(&stranger, &pong, now);

    assert!(replies.is_empty());
    assert_eq!(peer.dht_manager.route_table.contains(&stranger), false);
}

#[test]
fn force_store_test() {
    let now = 1000u64;
    let mut vnm = VirtualNetworkManager::new(1, now);
    let peer = &mut vnm.virtual_peers[0];
    let mut rk = vec![0u8; 64];
    let mut rd = vec![0u8; 64];
    rand_bytes(&mut rk).unwrap();
    rand_bytes(&mut rd).unwrap();
    peer.force_store(&rk, &rd);
    assert!(peer.dht_manager.is_available_on_local(&rk));
}

#[test]
fn find_value_test() {
    let now = 1000u64;
    let mut vnm = VirtualNetworkManager::new(2, now);
    vnm.connect_all_each_other(now);

    // a key that lands in the bucket that holds peer one
    let ep1 = vnm.virtual_peers[1].dht_manager.local_endpoint();
    let rkey = endpoint_to_node_id(&ep1);
    let mut rdata = vec![0u8; 64];
    rand_bytes(&mut rdata).unwrap();
    vnm.virtual_peers[1].force_store(&rkey, &rdata);

    // peer zero asks the network and ends up holding the value
    let source = vnm.virtual_peers[0].dht_manager.local_endpoint();
    let msgs = vnm.virtual_peers[0].dht_manager.do_find_value(&rkey);
    assert!(!msgs.is_empty());
    vnm.deliver(&source, msgs, now);

    let got = vnm.virtual_peers[0].dht_manager.get_value_local(&rkey);
    assert_eq!(got, Some(rdata));
}

#[test]
fn store_then_find() {
    let now = 1000u64;
    let mut vnm = VirtualNetworkManager::new(3, now);
    vnm.connect_all_each_other(now);

    // a key that lands in the bucket that holds peer one
    let ep1 = vnm.virtual_peers[1].dht_manager.local_endpoint();
    let rkey = endpoint_to_node_id(&ep1);
    let mut rdata = vec![0u8; 64];
    rand_bytes(&mut rdata).unwrap();

    // peer zero pushes the pair into the network
    let source = vnm.virtual_peers[0].dht_manager.local_endpoint();
    let msgs = vnm.virtual_peers[0].dht_manager.do_store(&rkey, &rdata);
    assert!(!msgs.is_empty());
    vnm.deliver(&source, msgs, now);

    // some peer now holds the value
    let mut held = 0;
    for peer in &vnm.virtual_peers {
        if peer.dht_manager.is_available_on_local(&rkey) {
            held += 1;
        }
    }
    assert!(held >= 1);

    // a third peer exercises the lookup path; the value reaches it when
    // the asked peer holds it
    let source = vnm.virtual_peers[2].dht_manager.local_endpoint();
    let msgs = vnm.virtual_peers[2].dht_manager.do_find_value(&rkey);
    vnm.deliver(&source, msgs, now);
}

#[test]
fn random_interactions_keep_the_network_sound() {
    let now = 1000u64;
    let mut vnm = VirtualNetworkManager::new(3, now);
    vnm.connect_all_each_other(now);
    for _ in 0..8 {
        vnm.random(now);
    }
    assert_eq!(vnm.virtual_peers.len(), 3);
}
