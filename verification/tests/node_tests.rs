use ilnyaplus::endpoint::Endpoint;
use ilnyaplus::node::{calculate_bucket_index, endpoint_to_node_id, node_id_cmp, node_id_distance,
    u8_slice_clz};
use openssl::rand::rand_bytes;

#[test]
fn u8_slice_clz_test() {
    assert_eq!(u8_slice_clz(&0_i32.to_le_bytes()), 32);
    assert_eq!(u8_slice_clz(&0_u8.to_le_bytes()), 8);
    assert_eq!(u8_slice_clz(&1_i32.to_le_bytes()), 7);
    assert_eq!(u8_slice_clz(&1_u8.to_le_bytes()), 7);

    assert_eq!(u8_slice_clz(&42_i32.to_le_bytes()), 2);
    assert_eq!(u8_slice_clz(&42_i32.to_be_bytes()), 26);

    assert_eq!(u8_slice_clz(&42_u8.to_le_bytes()), 2);
}

#[test]
fn calculate_bucket_index_test() {
    let mut rb = vec![0u8; 64];
    rand_bytes(&mut rb).unwrap();

    assert_eq!(calculate_bucket_index(&rb, &rb), 512);
}

#[test]
fn distance_symmetry_and_identity() {
    let mut a = vec![0u8; 64];
    let mut b = vec![0u8; 64];
    rand_bytes(&mut a).unwrap();
    rand_bytes(&mut b).unwrap();

    assert_eq!(node_id_distance(&a, &b), node_id_distance(&b, &a));
    assert_eq!(node_id_distance(&a, &a), vec![0u8; 64]);
    assert!(!node_id_cmp(&a, &a));
}

#[test]
fn endpoint_identity_is_a_real_digest() {
    let ep = Endpoint { a: 127, b: 0, c: 0, d: 1, port: 4242 };
    let id = endpoint_to_node_id(&ep);
    assert_eq!(id.len(), 64);
    // a different endpoint hashes differently
    let other = Endpoint { a: 127, b: 0, c: 0, d: 1, port: 4243 };
    assert_ne!(id, endpoint_to_node_id(&other));
}
