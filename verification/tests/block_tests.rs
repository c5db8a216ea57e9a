use ilnyaplus::block_file::BlockFile;
use ilnyaplus::block_header::{BlockHeader, SERIALIZED_BLOCK_HEADER_BUFFER_SIZE};
use ilnyaplus::block_type::BlockType;
use ilnyaplus::chk::{CHK, SERIALIZED_CHK_BUFFER_SIZE};
use ilnyaplus::d_block::DBlock;
use ilnyaplus::encryption::{encrypt_d_block, encrypt_i_block, decrypt_d_block, decrypt_i_block};
use ilnyaplus::i_block::{IBlock, MAX_ENCRYPTED_IBLOCK_BUFFER_SIZE};
use ilnyaplus::metadata::MetaData;
use ilnyaplus::sizing::{DBLOCK_SIZE_IN_BYTES, IBLOCK_CHK_CAPACITY};
use openssl::rand::rand_bytes;

#[test]
fn test_block_header_size() {
    let h = BlockHeader::new(BlockType::DBlock);
    let buffer = h.to_bytes();
    assert_eq!(buffer.len(), SERIALIZED_BLOCK_HEADER_BUFFER_SIZE);
}

#[test]
fn chk_fixed_width() {
    // any valid CHK archives to exactly the fixed width
    let mut key = vec![0u8; 32];
    let mut iv = vec![0u8; 12];
    let mut query = vec![0u8; 64];
    rand_bytes(&mut key).unwrap();
    rand_bytes(&mut iv).unwrap();
    rand_bytes(&mut query).unwrap();
    let chk = CHK::new(&key, &iv, &query, BlockType::DBlock, 7);
    let bytes = chk.serialize();
    assert_eq!(bytes.len(), SERIALIZED_CHK_BUFFER_SIZE);
    assert_eq!(bytes.len(), 140);
    let back = CHK::from_bytes(&bytes).unwrap();
    assert_eq!(back, chk);
}

#[test]
fn chk_from_bytes_rejects_garbage() {
    assert!(CHK::from_bytes(&[0u8; 17]).is_err());
    assert!(CHK::from_bytes(&[0u8; 140]).is_err());
}

#[test]
fn d_block_enc_dec_test() {
    let mut rb = vec![0u8; DBLOCK_SIZE_IN_BYTES as usize];
    rand_bytes(&mut rb).unwrap();
    let db = DBlock::new(&rb);
    let (key, iv, enc_buf, qh) = encrypt_d_block(&db);
    // the ciphertext really is transformed, and the hashes have their widths
    assert_ne!(enc_buf, db.serialize());
    assert_eq!(key.len(), 32);
    assert_eq!(iv.len(), 12);
    assert_eq!(qh.len(), 64);
    let ddb = decrypt_d_block(&key, &iv, &enc_buf).unwrap();
    assert_eq!(db.data, ddb.data);
    assert_eq!(db.header, ddb.header);
}

#[test]
fn i_block_test() {
    let mut chks = Vec::new();
    for _ in 0..IBLOCK_CHK_CAPACITY {
        let mut key = vec![0u8; 32];
        let mut iv = vec![0u8; 12];
        let mut query = vec![0u8; 64];
        rand_bytes(&mut key).unwrap();
        rand_bytes(&mut iv).unwrap();
        rand_bytes(&mut query).unwrap();
        let chk = CHK::new(&key, &iv, &query, BlockType::IBlock, 0);
        chks.push(chk);
    }

    // root index block, with metadata
    let meta = MetaData { file_name: b"test".to_vec(), file_size: 99 };
    let ib = IBlock::new_root(&chks, &meta);
    let (key, iv, enc_buf, _qh) = encrypt_i_block(&ib);

    let i_block = decrypt_i_block(&key, &iv, &enc_buf).unwrap();
    assert_eq!(i_block.chks, ib.chks);
    assert_eq!(i_block.header, ib.header);
    assert!(i_block.metadata.is_some() && ib.metadata.is_some());
    assert_eq!(i_block.metadata.unwrap(), ib.metadata.unwrap());

    // the ciphertext survives a block-file round trip
    let mut bf = BlockFile::new(MAX_ENCRYPTED_IBLOCK_BUFFER_SIZE as u32);
    bf.write_nth_block(0, &enc_buf);
    let b = bf.read_nth_block(0).unwrap();
    assert_eq!(b, enc_buf);

    // interior index block, without metadata
    let ib = IBlock::new(&chks);
    let (key, iv, enc_buf, _qh) = encrypt_i_block(&ib);
    let i_block = decrypt_i_block(&key, &iv, &enc_buf).unwrap();
    assert_eq!(i_block.chks, ib.chks);
    assert_eq!(i_block.header, ib.header);
    assert!(i_block.metadata.is_none() && ib.metadata.is_none());

    let mut bf = BlockFile::new(MAX_ENCRYPTED_IBLOCK_BUFFER_SIZE as u32);
    bf.write_nth_block(0, &enc_buf);
    let b = bf.read_nth_block(0).unwrap();
    assert_eq!(b, enc_buf);
}
