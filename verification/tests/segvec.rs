use vektordb::hnsw::segvec::{locate, seg_len, SegVec};

#[test]
fn set_get_across_segments() {
    let mut v: SegVec<String> = SegVec::new();
    for i in 0..5000 {
        v.set(i, format!("item{i}"));
    }
    assert_eq!(v.len(), 5000);
    for i in (0..5000).step_by(111) {
        assert_eq!(v.get_unchecked(i), &format!("item{i}"));
    }
}

#[test]
fn slots_can_be_written_out_of_order_and_changed_in_place() {
    let mut v: SegVec<u64> = SegVec::new();
    v.set(3000, 1);
    assert_eq!(v.len(), 3001);
    v.set(7, 2);
    assert_eq!(v.len(), 3001);
    assert_eq!(*v.get_unchecked(7), 2);
    *v.get_mut(3000) += 41;
    assert_eq!(*v.get_unchecked(3000), 42);
    assert_eq!(*v.get_unchecked(7), 2);
}

#[test]
fn slots_are_located_like_rows() {
    assert_eq!(locate(0), (0, 0));
    assert_eq!(locate(1023), (0, 1023));
    assert_eq!(locate(1024), (1, 0));
    assert_eq!(locate(3072), (2, 0));
    assert_eq!(seg_len(0), 1024);
    assert_eq!(seg_len(3), 8192);
}
