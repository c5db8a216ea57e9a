use ilnyaplus::chk::CHK;
use ilnyaplus::encryption::{encode_file_to_blocks, decode_blocks_to_file};
use ilnyaplus::sizing::{DBLOCK_SIZE_IN_BYTES, IBLOCK_CHK_CAPACITY};
use openssl::rand::rand_bytes;

fn random_content(len: usize) -> Vec<u8> {
    let mut buf = vec![0u8; len];
    rand_bytes(&mut buf).unwrap();
    buf
}

#[test]
fn encode_file_to_blocks_test2() {
    // one data block, one index block
    let content = random_content(DBLOCK_SIZE_IN_BYTES as usize);
    let (root_chk, blocks) = encode_file_to_blocks(b"temp", &content);

    // D = 1, T = 1: one slot each, root at slot zero of the CHK file
    assert_eq!(blocks.d_block_bf.n(), 0);
    assert_eq!(blocks.i_block_bf.n(), 0);
    assert_eq!(root_chk.bf_index, 0);
    let stored_root = CHK::from_bytes(&blocks.i_block_chk_bf.read_nth_block(0).unwrap()).unwrap();
    assert_eq!(stored_root, root_chk);

    let (meta, decoded) = decode_blocks_to_file(
        &blocks.d_block_bf,
        &blocks.i_block_bf,
        &blocks.i_block_chk_bf,
    ).unwrap();
    assert_eq!(meta.file_name, b"temp".to_vec());
    assert_eq!(meta.file_size as usize, content.len());
    assert_eq!(decoded, content);
}

#[test]
fn encode_file_to_blocks_test1() {
    // thirty full depth-zero index blocks and a depth-one root
    let content = random_content((DBLOCK_SIZE_IN_BYTES * IBLOCK_CHK_CAPACITY * 30) as usize);
    let (root_chk, blocks) = encode_file_to_blocks(b"temp", &content);

    let d_count = 30 * IBLOCK_CHK_CAPACITY;
    assert_eq!(blocks.d_block_bf.n() as u64, d_count - 1);
    // T = 31: thirty at depth zero plus the root, which sits at index 0
    assert_eq!(blocks.i_block_bf.n(), 30);
    assert_eq!(root_chk.bf_index, 0);
    let stored_root = CHK::from_bytes(&blocks.i_block_chk_bf.read_nth_block(0).unwrap()).unwrap();
    assert_eq!(stored_root, root_chk);

    let (meta, decoded) = decode_blocks_to_file(
        &blocks.d_block_bf,
        &blocks.i_block_bf,
        &blocks.i_block_chk_bf,
    ).unwrap();
    assert_eq!(meta.file_size as usize, content.len());
    assert!(decoded == content);
}

#[test]
fn encode_decode_small_odd_file() {
    // a file that ends mid-block
    let content = random_content(3 * (DBLOCK_SIZE_IN_BYTES as usize) + 12345);
    let (_root_chk, blocks) = encode_file_to_blocks(b"temp.dec", &content);
    let (meta, decoded) = decode_blocks_to_file(
        &blocks.d_block_bf,
        &blocks.i_block_bf,
        &blocks.i_block_chk_bf,
    ).unwrap();
    assert_eq!(meta.file_size as usize, content.len());
    assert!(decoded == content);
}

#[test]
fn encode_decode_multi_depth_file() {
    // more than one full depth-zero block: a two-depth tree
    let content = random_content((DBLOCK_SIZE_IN_BYTES * (IBLOCK_CHK_CAPACITY + 3)) as usize);
    let (root_chk, blocks) = encode_file_to_blocks(b"deep", &content);
    assert_eq!(root_chk.bf_index, 0);
    let (meta, decoded) = decode_blocks_to_file(
        &blocks.d_block_bf,
        &blocks.i_block_bf,
        &blocks.i_block_chk_bf,
    ).unwrap();
    assert_eq!(meta.file_size as usize, content.len());
    assert!(decoded == content);
}

#[test]
fn convergent_encryption() {
    // the same content encodes to the same data-block keys, run after run
    let content = random_content(2 * (DBLOCK_SIZE_IN_BYTES as usize) + 99);
    let (_, blocks1) = encode_file_to_blocks(b"one", &content);
    let (_, blocks2) = encode_file_to_blocks(b"two", &content);

    for i in 0..3usize {
        let c1 = CHK::from_bytes(&blocks1.d_block_chk_bf.read_nth_block(i).unwrap()).unwrap();
        let c2 = CHK::from_bytes(&blocks2.d_block_chk_bf.read_nth_block(i).unwrap()).unwrap();
        assert_eq!(c1.key, c2.key);
        assert_eq!(c1.bf_index, c2.bf_index);
    }

    // a different content gives a different key
    let mut other = content.clone();
    other[0] ^= 1;
    let (_, blocks3) = encode_file_to_blocks(b"three", &other);
    let c1 = CHK::from_bytes(&blocks1.d_block_chk_bf.read_nth_block(0).unwrap()).unwrap();
    let c3 = CHK::from_bytes(&blocks3.d_block_chk_bf.read_nth_block(0).unwrap()).unwrap();
    assert_ne!(c1.key, c3.key);
}
