use jpl_runtime::error::ErrorKind;
use jpl_runtime::heap::jpl_alloc;

#[test]
fn block_of_no_bytes_is_refused() {
    assert_eq!(jpl_alloc(0), Err(ErrorKind::AllocationError));
}

#[test]
fn block_is_zeroed_and_of_the_size_asked() {
    assert_eq!(jpl_alloc(1), Ok(vec![0u8]));
    assert_eq!(jpl_alloc(16), Ok(vec![0u8; 16]));
    let block = jpl_alloc(4096).unwrap();
    assert_eq!(block.len(), 4096);
    assert!(block.iter().all(|b| *b == 0));
}
