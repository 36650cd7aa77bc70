use gst_adapter::adapter::{Adapter, AdapterError};
use gst_adapter::buffer::Buffer;

fn counting(start: u8, len: usize) -> Buffer {
    let mut v = Vec::new();
    for k in 0..len {
        v.push(start.wrapping_add(k as u8));
    }
    Buffer::from_vec(v)
}

#[test]
fn test_push_get() {
    let mut a = Adapter::new();

    a.push(Buffer::new_with_size(100));
    assert_eq!(a.get_available(), 100);
    a.push(Buffer::new_with_size(20));
    assert_eq!(a.get_available(), 120);

    let b = a.get_buffer(20).unwrap();
    assert_eq!(a.get_available(), 100);
    assert_eq!(b.get_size(), 20);
    let b = a.get_buffer(90).unwrap();
    assert_eq!(a.get_available(), 10);
    assert_eq!(b.get_size(), 90);

    a.push(Buffer::new_with_size(20));
    assert_eq!(a.get_available(), 30);

    let b = a.get_buffer(20).unwrap();
    assert_eq!(a.get_available(), 10);
    assert_eq!(b.get_size(), 20);
    let b = a.get_buffer(10).unwrap();
    assert_eq!(a.get_available(), 0);
    assert_eq!(b.get_size(), 10);

    let b = a.get_buffer(1);
    assert_eq!(b.err().unwrap(), AdapterError::NotEnoughData);
}

#[test]
fn chunk_spanning_contents() {
    let mut a = Adapter::new();
    a.push(counting(0, 100));
    a.push(counting(100, 20));
    assert_eq!(a.get_available(), 120);

    let b = a.get_buffer(20).unwrap();
    assert_eq!(a.get_available(), 100);
    assert_eq!(b.as_slice(), &counting(0, 20).as_slice()[..]);

    let b = a.get_buffer(90).unwrap();
    assert_eq!(a.get_available(), 10);
    assert_eq!(b.as_slice(), counting(20, 90).as_slice());

    a.push(counting(120, 20));
    assert_eq!(a.get_available(), 30);
    let b = a.get_buffer(20).unwrap();
    assert_eq!(b.as_slice(), counting(110, 20).as_slice());
    let b = a.get_buffer(10).unwrap();
    assert_eq!(b.as_slice(), counting(130, 10).as_slice());
    assert_eq!(a.get_available(), 0);
    assert_eq!(a.get_buffer(1).err(), Some(AdapterError::NotEnoughData));
}

#[test]
fn available_counts_pushed_minus_consumed() {
    let mut a = Adapter::new();
    a.push(counting(0, 7));
    a.push(counting(7, 0));
    a.push(counting(7, 5));
    assert_eq!(a.get_available(), 12);
    a.flush(3).unwrap();
    assert_eq!(a.get_available(), 9);
    a.get_buffer(6).unwrap();
    assert_eq!(a.get_available(), 3);
    a.peek(2).unwrap();
    assert_eq!(a.get_available(), 3);
    a.push(counting(12, 4));
    assert_eq!(a.get_available(), 7);
    assert_eq!(a.flush(8), Err(AdapterError::NotEnoughData));
    assert_eq!(a.get_available(), 7);
    a.flush(7).unwrap();
    assert_eq!(a.get_available(), 0);
    a.push(counting(16, 2));
    assert_eq!(a.peek(2).unwrap(), &[16u8, 17][..]);
}

#[test]
fn peek_then_get_buffer_agree() {
    let mut a = Adapter::new();
    a.push(counting(0, 4));
    a.push(counting(4, 4));
    let seen = a.peek(6).unwrap().to_vec();
    let taken = a.get_buffer(6).unwrap();
    assert_eq!(taken.as_slice(), &seen[..]);
    assert_eq!(seen, vec![0u8, 1, 2, 3, 4, 5]);
    assert_eq!(a.get_available(), 2);
}

#[test]
fn peek_twice_is_stable() {
    let mut a = Adapter::new();
    a.push(counting(10, 3));
    a.push(counting(13, 3));
    let first = a.peek(5).unwrap().to_vec();
    let second = a.peek(5).unwrap().to_vec();
    assert_eq!(first, second);
    assert_eq!(first, vec![10u8, 11, 12, 13, 14]);
    assert_eq!(a.get_available(), 6);
}

#[test]
fn zero_sized_requests() {
    let mut a = Adapter::new();
    assert_eq!(a.peek(0).unwrap().len(), 0);
    assert_eq!(a.get_buffer(0).unwrap().get_size(), 0);
    assert_eq!(a.flush(0), Ok(()));
    let mut none: [u8; 0] = [];
    assert_eq!(a.peek_into(&mut none), Ok(()));
    a.push(counting(0, 5));
    assert_eq!(a.peek(0).unwrap().len(), 0);
    assert_eq!(a.get_buffer(0).unwrap().get_size(), 0);
    assert_eq!(a.flush(0), Ok(()));
    assert_eq!(a.get_available(), 5);
}

#[test]
fn oversized_requests_fail_unchanged() {
    let mut a = Adapter::new();
    assert_eq!(a.get_buffer(1).err(), Some(AdapterError::NotEnoughData));
    a.push(counting(0, 3));
    a.push(counting(3, 3));
    assert_eq!(a.peek(7).err(), Some(AdapterError::NotEnoughData));
    assert_eq!(a.get_buffer(7).err(), Some(AdapterError::NotEnoughData));
    assert_eq!(a.flush(7), Err(AdapterError::NotEnoughData));
    let mut dest = [9u8; 7];
    assert_eq!(a.peek_into(&mut dest), Err(AdapterError::NotEnoughData));
    assert_eq!(dest, [9u8; 7]);
    assert_eq!(a.get_available(), 6);
    assert_eq!(a.peek(6).unwrap(), &[0u8, 1, 2, 3, 4, 5][..]);
}

#[test]
fn get_buffer_within_first_chunk_shares_storage() {
    let mut a = Adapter::new();
    let chunk = counting(0, 10);
    let kept = chunk.clone();
    a.push(chunk);
    a.flush(2).unwrap();
    let b = a.get_buffer(5).unwrap();
    assert!(b.shares_storage(&kept));
    assert_eq!(b.as_slice(), &[2u8, 3, 4, 5, 6][..]);
    assert_eq!(a.get_available(), 3);
}

#[test]
fn peek_within_first_chunk_points_into_it() {
    let mut a = Adapter::new();
    let chunk = counting(0, 10);
    let kept = chunk.clone();
    a.push(chunk);
    a.push(counting(10, 10));
    a.flush(3).unwrap();
    let view = a.peek(4).unwrap();
    assert!(std::ptr::eq(view, &kept.as_slice()[3..7]));
}

#[test]
fn request_across_chunks_is_copied_in_order() {
    let mut a = Adapter::new();
    let first = counting(0, 4);
    let kept = first.clone();
    a.push(first);
    a.push(counting(4, 2));
    a.push(counting(6, 3));
    a.flush(1).unwrap();
    let b = a.get_buffer(7).unwrap();
    assert!(!b.shares_storage(&kept));
    assert_eq!(b.as_slice(), &[1u8, 2, 3, 4, 5, 6, 7][..]);
    assert_eq!(a.get_available(), 1);
    assert_eq!(a.peek(1).unwrap(), &[8u8][..]);
}

#[test]
fn peek_into_across_chunks() {
    let mut a = Adapter::new();
    a.push(counting(0, 2));
    a.push(counting(2, 2));
    a.push(counting(4, 2));
    a.flush(1).unwrap();
    let mut dest = [0u8; 4];
    assert_eq!(a.peek_into(&mut dest), Ok(()));
    assert_eq!(dest, [1u8, 2, 3, 4]);
    assert_eq!(a.get_available(), 5);
}

#[test]
fn clear_empties_the_stream() {
    let mut a = Adapter::new();
    a.push(counting(0, 8));
    a.flush(3).unwrap();
    a.clear();
    assert_eq!(a.get_available(), 0);
    assert_eq!(a.peek(1).err(), Some(AdapterError::NotEnoughData));
    a.push(counting(50, 2));
    assert_eq!(a.peek(2).unwrap(), &[50u8, 51][..]);
}

#[test]
fn buffer_regions_share_storage() {
    let b = counting(0, 6);
    let r = b.copy_region(2, 3);
    assert_eq!(r.as_slice(), &[2u8, 3, 4][..]);
    assert!(r.shares_storage(&b));
    assert!(!r.shares_storage(&counting(0, 6)));
    assert_eq!(Buffer::new().get_size(), 0);
    assert_eq!(Buffer::new_with_size(3).as_slice(), &[0u8, 0, 0][..]);
}
