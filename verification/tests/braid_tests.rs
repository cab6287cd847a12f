use braid_viz::braid::Braid;

#[test]
fn new_has_default_strands_and_no_crossings() {
    let b = Braid::new();
    assert_eq!(b.strands, 10);
    assert!(b.crossings.is_empty());
}

#[test]
fn init_sets_strand_count() {
    let b = Braid::init(5);
    assert_eq!(b.strands, 5);
    assert!(b.crossings.is_empty());
}

#[test]
fn add_strand_never_alters_crossings() {
    let mut b = Braid { strands: 5, crossings: vec![4, -3, 2] };
    b.add_strand();
    assert_eq!(b.strands, 6);
    assert_eq!(b.crossings, vec![4, -3, 2]);

    let mut c = Braid { strands: 2, crossings: vec![] };
    c.add_strand();
    assert_eq!(c.strands, 3);
    assert_eq!(c.crossings, vec![]);
}

#[test]
fn remove_strand_drops_out_of_range_crossings() {
    let mut b = Braid { strands: 5, crossings: vec![4, -3, 2] };
    b.remove_strand();
    assert_eq!(b.strands, 4);
    assert_eq!(b.crossings, vec![-3, 2]);
}

#[test]
fn remove_strand_keeps_order_of_survivors() {
    let mut b = Braid { strands: 4, crossings: vec![1, -3, 2, 3, -1] };
    b.remove_strand();
    assert_eq!(b.strands, 3);
    assert_eq!(b.crossings, vec![1, 2, -1]);
}

#[test]
fn remove_strand_is_noop_at_two() {
    let mut b = Braid { strands: 2, crossings: vec![1, -1] };
    b.remove_strand();
    assert_eq!(b.strands, 2);
    assert_eq!(b.crossings, vec![1, -1]);
}

#[test]
fn add_crossing_appends_when_admissible() {
    let mut b = Braid { strands: 3, crossings: vec![1] };
    b.add_crossing(-2);
    assert_eq!(b.crossings, vec![1, -2]);
}

#[test]
fn add_crossing_is_noop_when_inadmissible() {
    let mut b = Braid { strands: 3, crossings: vec![1] };
    b.add_crossing(0);
    b.add_crossing(3);
    b.add_crossing(-3);
    assert_eq!(b.crossings, vec![1]);
}

#[test]
fn remove_last_crossing_pops() {
    let mut b = Braid { strands: 3, crossings: vec![1, -2] };
    b.remove_last_crossing();
    assert_eq!(b.crossings, vec![1]);
    b.remove_last_crossing();
    assert_eq!(b.crossings, vec![]);
    b.remove_last_crossing();
    assert_eq!(b.crossings, vec![]);
    assert_eq!(b.strands, 3);
}
