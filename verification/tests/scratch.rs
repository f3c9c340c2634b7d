use vektordb::hnsw::scratch::VisitedSet;

#[test]
fn marks_and_resets() {
    let mut v = VisitedSet::new();
    v.begin_pass(10);
    assert!(!v.mark(3));
    assert!(v.mark(3));
    assert!(!v.mark(9));
    v.begin_pass(10);
    assert!(!v.mark(3), "new pass must forget previous marks");
}

#[test]
fn grows_with_graph() {
    let mut v = VisitedSet::new();
    v.begin_pass(2);
    assert!(!v.mark(1));
    v.begin_pass(100);
    assert!(!v.mark(99));
}

#[test]
fn marks_beyond_the_size_of_the_pass() {
    let mut v = VisitedSet::new();
    v.begin_pass(2);
    assert!(!v.mark(5000));
    assert!(v.mark(5000));
    assert!(!v.mark(4999));
    v.begin_pass(2);
    assert!(!v.mark(5000));
}

#[test]
fn everything_counts_as_marked_before_the_first_pass() {
    let mut v = VisitedSet::new();
    assert!(v.mark(7));
}
