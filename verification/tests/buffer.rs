use spectral_decay::RingBuffer;

#[test]
fn ring_buffer() {
    let mut buf = RingBuffer::<u8>::new(8, false, 0);

    buf.iter_append(&[1, 2, 3, 4, 5]);
    assert_eq!(buf.len(), 5);

    buf.remove(3);
    assert_eq!(buf.len(), 2);

    buf.iter_append(&[6, 7, 8, 9, 10, 11]);
    assert_eq!(buf.iter(0), vec![4, 5, 6, 7, 8, 9, 10, 11]);
    assert_eq!(buf.iter(2), vec![6, 7, 8, 9, 10, 11]);
    assert_eq!(buf.iter(-2), vec![10, 11]);

    buf.iter_mut(-2, &[42, 42]);

    assert_eq!(buf.iter(-2), vec![42, 42]);

    assert_eq!(buf.len(), 8);

    let first = buf.iter_remove(4);
    assert_eq!(first, vec![4, 5, 6, 7]);

    let second = buf.iter_remove(4);
    assert_eq!(second, vec![8, 9, 42, 42]);

    buf.copy_append(&[13; 7]);

    assert_eq!(buf.iter(0), vec![13; 7]);

    let out = buf.copy_remove(4);
    assert_eq!(out, vec![13u8; 4]);
    assert_eq!(buf.len(), 3);
}

#[test]
fn ring_buffer_full() {
    let mut buf = RingBuffer::<u8>::new(4, true, 0);

    buf.copy_replace(Some(&[1; 2]), None);

    let out = buf.copy_replace(None, Some(4)).unwrap();

    assert_eq!(out, vec![0, 0, 1, 1]);

    buf.copy_replace(Some(&[2; 2]), None);
}

#[test]
fn ring_buffer_slide_chain() {
    // a destination-only slide frees slots that a following source-only
    // slide fills, while the buffer stays full throughout
    let mut buf = RingBuffer::<u16>::new(3, true, 9);
    let oldest = buf.copy_replace(None, Some(2)).unwrap();
    assert_eq!(oldest, vec![9, 9]);
    assert_eq!(buf.len(), 3);
    buf.copy_replace(Some(&[5, 6]), None);
    assert_eq!(buf.len(), 3);
    assert_eq!(buf.iter(0), vec![9, 5, 6]);
}

#[test]
fn ring_buffer_replace_in_lock_step() {
    let mut buf = RingBuffer::<u8>::new(4, true, 0);
    let old = buf.iter_replace(&[7, 8]);
    assert_eq!(old, vec![0, 0]);
    assert_eq!(buf.iter(0), vec![0, 0, 7, 8]);
    let old = buf.iter_replace(&[1, 2, 3]);
    assert_eq!(old, vec![0, 0, 7]);
    assert_eq!(buf.iter(0), vec![8, 1, 2, 3]);
}
