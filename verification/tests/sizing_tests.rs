use ilnyaplus::sizing::{calculate_d_block_count, calculate_depth_zero_i_block_count,
    calculate_nth_depth_i_block_count, calculate_total_i_block_count, DBLOCK_SIZE_IN_BYTES,
    IBLOCK_CHK_CAPACITY};

#[test]
fn test_block_calculation() {
    {
        let filesize = DBLOCK_SIZE_IN_BYTES * 10;
        let d_count = calculate_d_block_count(filesize);
        assert_eq!(d_count, 10);
        let total_i = calculate_total_i_block_count(d_count);
        assert_eq!(total_i, 1);

        assert_eq!(calculate_nth_depth_i_block_count(d_count, 0), 1);
        assert_eq!(calculate_nth_depth_i_block_count(d_count, 1), 0);
    }

    {
        let filesize = DBLOCK_SIZE_IN_BYTES * 257;
        let d_count = calculate_d_block_count(filesize);
        assert_eq!(d_count, 257);
        let i_count = calculate_depth_zero_i_block_count(d_count);
        assert_eq!(i_count, 2);
        let total_i = calculate_total_i_block_count(d_count);
        assert_eq!(total_i, 3);
        assert_eq!(calculate_nth_depth_i_block_count(d_count, 0), 2);
        assert_eq!(calculate_nth_depth_i_block_count(d_count, 1), 1);
    }

    {
        let filesize = DBLOCK_SIZE_IN_BYTES * 257 + 1;
        let d_count = calculate_d_block_count(filesize);
        assert_eq!(d_count, 258);
        let i_count = calculate_depth_zero_i_block_count(d_count);
        assert_eq!(i_count, 2);
        let total_i = calculate_total_i_block_count(d_count);
        assert_eq!(total_i, 3);
        assert_eq!(calculate_nth_depth_i_block_count(d_count, 0), 2);
        assert_eq!(calculate_nth_depth_i_block_count(d_count, 1), 1);
    }

    {
        let filesize = 1;
        let d_count = calculate_d_block_count(filesize);
        assert_eq!(d_count, 1);
        let i_count = calculate_depth_zero_i_block_count(d_count);
        assert_eq!(i_count, 1);
        let total_i = calculate_total_i_block_count(d_count);
        assert_eq!(total_i, 1);
        assert_eq!(calculate_nth_depth_i_block_count(d_count, 0), 1);
        assert_eq!(calculate_nth_depth_i_block_count(d_count, 1), 0);
    }

    {
        let filesize = DBLOCK_SIZE_IN_BYTES * 1024 + 7;
        let d_count = calculate_d_block_count(filesize);
        assert_eq!(d_count, 1025);
        let i_count = calculate_depth_zero_i_block_count(d_count);
        assert_eq!(i_count, 5);
        let total_i = calculate_total_i_block_count(d_count);
        assert_eq!(total_i, 6);

        assert_eq!(calculate_nth_depth_i_block_count(d_count, 0), 5);
        assert_eq!(calculate_nth_depth_i_block_count(d_count, 1), 1);
    }

    {
        let filesize = (DBLOCK_SIZE_IN_BYTES * (DBLOCK_SIZE_IN_BYTES - 1)) * 2;
        let d_count = calculate_d_block_count(filesize);
        assert_eq!(d_count, 65534);
        let i_count = calculate_depth_zero_i_block_count(d_count);
        assert_eq!(i_count, 256);
        let total_i = calculate_total_i_block_count(d_count);
        assert_eq!(total_i, 257);
        assert_eq!(calculate_nth_depth_i_block_count(d_count, 0), 256);
        assert_eq!(calculate_nth_depth_i_block_count(d_count, 1), 1);
    }

    {
        let filesize = ((DBLOCK_SIZE_IN_BYTES * (DBLOCK_SIZE_IN_BYTES - 1)) * 2)
            + IBLOCK_CHK_CAPACITY * DBLOCK_SIZE_IN_BYTES;
        let d_count = calculate_d_block_count(filesize);
        assert_eq!(d_count, 65790);
        let i_count = calculate_depth_zero_i_block_count(d_count);
        assert_eq!(i_count, 257);
        let total_i = calculate_total_i_block_count(d_count);
        assert_eq!(total_i, 260);
        assert_eq!(calculate_nth_depth_i_block_count(d_count, 0), 257);
        assert_eq!(calculate_nth_depth_i_block_count(d_count, 1), 2);
        assert_eq!(calculate_nth_depth_i_block_count(d_count, 2), 1);
    }
}
