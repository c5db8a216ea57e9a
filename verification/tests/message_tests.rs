use ilnyaplus::endpoint::Endpoint;
use ilnyaplus::message::{MessageHeader, MessageType, PingRequestMessage, PingResponseMessage,
    FindNodeRequestMessage, FindValueRequestMessage, StoreValueRequestMessage,
    FindNodeResponseMessage, FindValueResponseMessage, MESSAGE_HEADER_SIZE};
use openssl::rand::rand_bytes;

#[test]
fn header() {
    let h = MessageHeader::new(MessageType::PingRequest);
    assert_eq!(h.message_type, 1);

    let bytes = h.to_bytes();
    assert_eq!(bytes.len(), MESSAGE_HEADER_SIZE);

    let hh = MessageHeader::from_bytes(&bytes).unwrap();
    assert_eq!(h, hh);
}

#[test]
fn ping_request() {
    let header = MessageHeader::new(MessageType::PingRequest);

    let req = PingRequestMessage::new();

    let bytes = req.to_bytes();
    let (h, r) = PingRequestMessage::from_bytes(&bytes).unwrap();
    assert_eq!(h, header);
    assert_eq!(r, req);
}

#[test]
fn find_node_request() {
    let header = MessageHeader::new(MessageType::FindNodeRequest);

    let mut key = vec![0u8; 64];
    rand_bytes(&mut key).unwrap();
    let req = FindNodeRequestMessage::new(&key);

    assert_eq!(key, req.key);

    let bytes = req.to_bytes();
    let (h, r) = FindNodeRequestMessage::from_bytes(&bytes).unwrap();
    assert_eq!(h, header);
    assert_eq!(r, req);
}

#[test]
fn find_value_request() {
    let header = MessageHeader::new(MessageType::FindValueRequest);

    let mut key = vec![0u8; 64];
    rand_bytes(&mut key).unwrap();

    let req = FindValueRequestMessage::new(&key);
    assert_eq!(key, req.key);

    let bytes = req.to_bytes();
    let (h, r) = FindValueRequestMessage::from_bytes(&bytes).unwrap();
    assert_eq!(h, header);
    assert_eq!(r, req);
}

#[test]
fn store_value_request() {
    let header = MessageHeader::new(MessageType::StoreValueRequest);

    let mut key = vec![0u8; 64];
    let mut data = vec![0u8; 64];
    rand_bytes(&mut key).unwrap();
    rand_bytes(&mut data).unwrap();
    let rep_level = 99;
    let req = StoreValueRequestMessage::new(&key, &data, rep_level);
    assert_eq!(key, req.key);
    assert_eq!(data, req.data);
    assert_eq!(rep_level, req.replication_level);

    let bytes = req.to_bytes();
    let (h, r) = StoreValueRequestMessage::from_bytes(&bytes).unwrap();
    assert_eq!(h, header);
    assert_eq!(r, req);
}

#[test]
fn ping_response() {
    let header = MessageHeader::new(MessageType::PingResponse);

    let req = PingResponseMessage::new();

    let bytes = req.to_bytes();
    let (h, r) = PingResponseMessage::from_bytes(&bytes).unwrap();
    assert_eq!(h, header);
    assert_eq!(r, req);
}

#[test]
fn find_node_response() {
    let eps = [
        Endpoint { a: 127, b: 0, c: 0, d: 1, port: 4000 },
        Endpoint { a: 10, b: 1, c: 2, d: 3, port: 65535 },
    ];
    let msg = FindNodeResponseMessage::new(&eps);
    let bytes = msg.to_bytes();
    let (h, r) = FindNodeResponseMessage::from_bytes(&bytes).unwrap();
    assert_eq!(h.message_type, 6);
    assert_eq!(r.nodes, eps.to_vec());
}

#[test]
fn find_value_response() {
    let mut key = vec![0u8; 64];
    let mut data = vec![0u8; 77];
    rand_bytes(&mut key).unwrap();
    rand_bytes(&mut data).unwrap();

    // data form
    let msg = FindValueResponseMessage::new(&key, None, Some(&data));
    let bytes = msg.to_bytes();
    let (h, r) = FindValueResponseMessage::from_bytes(&bytes).unwrap();
    assert_eq!(h.message_type, 7);
    assert_eq!(r.key, key);
    assert_eq!(r.node, None);
    assert_eq!(r.data.as_deref(), Some(&data[..]));

    // node form
    let ep = Endpoint { a: 127, b: 0, c: 0, d: 1, port: 9 };
    let msg = FindValueResponseMessage::new(&key, Some(&ep), None);
    let bytes = msg.to_bytes();
    let (h, r) = FindValueResponseMessage::from_bytes(&bytes).unwrap();
    assert_eq!(h.message_type, 7);
    assert_eq!(r.key, key);
    assert_eq!(r.node, Some(ep));
    assert!(r.data.is_none());
}

#[test]
fn truncated_datagrams_fail_closed() {
    let mut key = vec![0u8; 64];
    rand_bytes(&mut key).unwrap();

    let full = FindNodeRequestMessage::new(&key).to_bytes();
    for cut in 0..full.len() {
        assert!(FindNodeRequestMessage::from_bytes(&full[..cut]).is_err());
    }

    let full = StoreValueRequestMessage::new(&key, &key, 3).to_bytes();
    for cut in 0..full.len() {
        assert!(StoreValueRequestMessage::from_bytes(&full[..cut]).is_err());
    }

    let full = FindValueResponseMessage::new(&key, None, Some(&key)).to_bytes();
    for cut in 0..full.len() {
        assert!(FindValueResponseMessage::from_bytes(&full[..cut]).is_err());
    }

    assert!(MessageHeader::from_bytes(&[1, 0, 0]).is_err());
}
