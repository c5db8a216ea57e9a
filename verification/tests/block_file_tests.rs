use ilnyaplus::block_file::BlockFile;
use ilnyaplus::CoreError;

#[test]
fn block_file_test1() {
    let mut bf = BlockFile::new(30000);
    let mut buf: Vec<u8>;

    buf = vec![1; 6];
    bf.write_nth_block(0, &buf);
    buf = vec![2; 2];
    bf.write_nth_block(1, &buf);

    buf = vec![245; 3];
    bf.write_nth_block(2, &buf);
    buf = vec![255; 7];
    bf.write_nth_block(1024, &buf);

    // persist the image and reopen
    let image = bf.to_bytes();
    drop(bf);
    let bf = BlockFile::open(&image).unwrap();

    buf = bf.read_nth_block(0).unwrap();
    assert_eq!(buf.len(), 6);
    assert_eq!(buf, vec![1; 6]);
    buf = bf.read_nth_block(1).unwrap();
    assert_eq!(buf.len(), 2);
    assert_eq!(buf, vec![2; 2]);

    buf = bf.read_nth_block(2).unwrap();
    assert_eq!(buf.len(), 3);
    assert_eq!(buf, vec![245; 3]);

    buf = bf.read_nth_block(1024).unwrap();
    assert_eq!(buf.len(), 7);
    assert_eq!(buf, vec![255; 7]);
    assert_eq!(bf.n(), 1024);
}

#[test]
fn block_file_n_field_test() {
    let mut bf = BlockFile::new(1024);

    for i in 0..256usize {
        bf.write_nth_block(i, &i.to_le_bytes());
        assert_eq!(i, bf.n() as usize);
    }
    assert_eq!(bf.n(), 255);
    for i in 0..bf.n() {
        let buf = bf.read_nth_block(i as usize).unwrap();
        let x = usize::from_le_bytes(buf.try_into().unwrap());
        assert_eq!(x, i as usize);
    }

    // the image survives a round trip byte for byte
    let image = bf.to_bytes();
    let reopened = BlockFile::open(&image).unwrap();
    assert_eq!(reopened.to_bytes(), image);
}

#[test]
fn reading_past_the_end_is_invalid() {
    let mut bf = BlockFile::new(100);
    bf.write_nth_block(0, &[1, 2, 3]);
    assert_eq!(bf.read_nth_block(1), Err(CoreError::Invalid));
    assert!(BlockFile::open(&[0u8; 3]).is_err());
}
