use sdat2img_rs::Error;
use sdat2img_rs::SparseDecoder;
use sdat2img_rs::TransferList;
use sdat2img_rs::BLOCK_SIZE;

const B: usize = BLOCK_SIZE as usize;

fn decoder_for(manifest: &[u8]) -> SparseDecoder {
    SparseDecoder::new(TransferList::parse(manifest).unwrap())
}

fn patterned(n: usize) -> Vec<u8> {
    (0..n).map(|i| (i % 251) as u8).collect()
}

#[test]
fn end_to_end_two_ranges_from_one_source() {
    let decoder = decoder_for(b"1\n2\nnew 4,0,1,2,3\n");
    let source = vec![0xAAu8; 2 * B];
    let img = decoder.decode(&source).unwrap();
    assert_eq!(img.len(), 3 * B);
    assert!(img[..B].iter().all(|&b| b == 0xAA));
    assert!(img[B..2 * B].iter().all(|&b| b == 0));
    assert!(img[2 * B..].iter().all(|&b| b == 0xAA));
}

#[test]
fn new_ranges_copy_source_bytes_in_order() {
    let decoder = decoder_for(b"1\n2\nnew 4,0,1,2,3\n");
    let source = patterned(2 * B);
    let img = decoder.decode(&source).unwrap();
    assert_eq!(&img[..B], &source[..B]);
    assert_eq!(&img[2 * B..3 * B], &source[B..2 * B]);
    assert!(img[B..2 * B].iter().all(|&b| b == 0));
}

#[test]
fn image_size_is_block_size_times_overall_max_end() {
    // The maximum end is in the middle command, not the last one.
    let decoder = decoder_for(b"1\n2\nnew 2,0,1\nzero 2,9,10\nnew 2,2,3\n");
    let (size, ops) = decoder.plan().unwrap();
    assert_eq!(size, 10 * BLOCK_SIZE);
    assert_eq!(ops.len(), 2);
    let source = patterned(2 * B);
    let img = decoder.decode(&source).unwrap();
    assert_eq!(img.len(), 10 * B);
}

#[test]
fn plan_lists_one_op_per_new_range_in_order() {
    let decoder = decoder_for(b"1\n4\nnew 4,7,8,0,2\nerase 2,4,5\nnew 2,3,4\n");
    let (size, ops) = decoder.plan().unwrap();
    assert_eq!(size, 8 * BLOCK_SIZE);
    let got: Vec<(u64, u64)> = ops.iter().map(|op| (op.offset, op.length)).collect();
    assert_eq!(
        got,
        vec![
            (7 * BLOCK_SIZE, BLOCK_SIZE),
            (0, 2 * BLOCK_SIZE),
            (3 * BLOCK_SIZE, BLOCK_SIZE),
        ]
    );
}

#[test]
fn source_bytes_are_consumed_sequentially_across_new_commands() {
    let decoder = decoder_for(b"1\n4\nnew 2,0,1\nnew 2,1,2\n");
    let source = patterned(2 * B);
    let img = decoder.decode(&source).unwrap();
    assert_eq!(img.len(), 2 * B);
    assert_eq!(&img[..B], &source[..B]);
    assert_eq!(&img[B..], &source[B..]);
}

#[test]
fn overlapping_ranges_replay_in_order_so_later_writes_win() {
    let decoder = decoder_for(b"1\n4\nnew 2,0,1\nnew 2,0,1\n");
    let source = patterned(2 * B);
    let img = decoder.decode(&source).unwrap();
    assert_eq!(img.len(), B);
    assert_eq!(&img[..], &source[B..]);
}

#[test]
fn truncated_source_fails() {
    let decoder = decoder_for(b"1\n2\nnew 4,0,1,2,3\n");
    let source = vec![0xAAu8; 2 * B - 1];
    let e = decoder.decode(&source).unwrap_err();
    assert!(matches!(e, Error::TruncatedSource));
}

#[test]
fn manifest_without_ranges_cannot_size_the_image() {
    let decoder = decoder_for(b"1\n0\n");
    assert!(matches!(
        decoder.plan().unwrap_err(),
        Error::EmptyTransferList
    ));
    assert!(matches!(
        decoder.decode(&[]).unwrap_err(),
        Error::EmptyTransferList
    ));
}

#[test]
fn erase_and_zero_read_nothing_and_write_nothing() {
    let decoder = decoder_for(b"1\n0\nerase 2,0,2\nzero 2,2,4\n");
    let (size, ops) = decoder.plan().unwrap();
    assert_eq!(size, 4 * BLOCK_SIZE);
    assert!(ops.is_empty());
    // An empty source suffices: nothing is read from it.
    let img = decoder.decode(&[]).unwrap();
    assert_eq!(img.len(), 4 * B);
    assert!(img.iter().all(|&b| b == 0));
}

#[test]
fn try_plan_agrees_with_plan_on_ordinary_input() {
    let decoder = decoder_for(b"1\n2\nnew 2,0,1\n");
    let (size, ops) = decoder.try_plan().unwrap().unwrap();
    assert_eq!(size, BLOCK_SIZE);
    assert_eq!(ops.len(), 1);
    assert_eq!(ops[0].offset, 0);
    assert_eq!(ops[0].length, BLOCK_SIZE);
}

#[test]
fn try_plan_rejects_an_image_too_large_to_size() {
    // Block 2^62 would put the image size beyond a 64-bit byte count.
    let decoder = decoder_for(b"1\n2\nnew 2,0,4611686018427387904\n");
    assert!(decoder.try_plan().is_none());
}

#[test]
fn scan_reports_max_end_and_presence_of_ranges() {
    let decoder = decoder_for(b"1\n2\nnew 2,0,1\nzero 2,5,6\n");
    let (maxend, any) = decoder.scan();
    assert_eq!(maxend, 6);
    assert!(any);
    let empty = decoder_for(b"1\n0\n");
    let (maxend, any) = empty.scan();
    assert_eq!(maxend, 0);
    assert!(!any);
}

#[test]
fn quiet_flag_starts_off_and_can_be_enabled() {
    let mut decoder = decoder_for(b"1\n0\n");
    assert!(!decoder.is_quiet());
    decoder.enable_quiet();
    assert!(decoder.is_quiet());
}

#[test]
fn transfer_list_is_reachable_through_the_decoder() {
    let decoder = decoder_for(b"3\n2\n0\n0\nnew 2,0,1\n");
    assert_eq!(decoder.transfer_list().version(), 3);
    assert_eq!(decoder.transfer_list().commands().len(), 1);
}
