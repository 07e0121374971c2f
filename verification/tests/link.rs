use forcefield::{zip_links, Link};

#[test]
fn counts_degrees_with_self_loops_twice() {
    let mut l = Link::new(vec![(0, 1), (1, 2), (2, 2)]);
    assert!(!l.is_initialized());
    assert_eq!(l.first_out_of_range(3), None);
    l.initialize(4);
    assert!(l.is_initialized());
    assert_eq!(l.counts(), &[1, 2, 3, 0]);
    let total: usize = l.counts().iter().sum();
    assert_eq!(total, 2 * l.links().len());
}

#[test]
fn link_ref_and_bias() {
    let mut l = Link::new(vec![(0, 1), (1, 2), (1, 3)]);
    l.initialize(4);
    let r = l.link_ref(1);
    assert_eq!((r.index, r.source, r.target, r.source_count, r.target_count), (1, 1, 2, 3, 1));
    assert_eq!(l.bias_terms(0), (1, 4));
    assert_eq!(l.bias_terms(1), (3, 4));
    assert_eq!(l.default_strength_divisor(1), 1);
    assert_eq!(l.default_strength_divisor(0), 1);
}

#[test]
fn out_of_range_endpoint_is_found() {
    let l = Link::new(vec![(0, 1), (1, 5), (7, 0)]);
    assert_eq!(l.first_out_of_range(3), Some(1));
    assert_eq!(l.first_out_of_range(8), None);
}

#[test]
fn set_links_needs_a_new_count() {
    let mut l = Link::new(vec![(0, 1)]).iterations(3);
    assert_eq!(l.iteration_count(), 3);
    l.initialize(2);
    l.set_links(vec![(1, 0), (1, 1)]);
    assert!(!l.is_initialized());
    l.initialize(2);
    assert_eq!(l.counts(), &[1, 3]);
    l.set_iterations(2);
    assert_eq!(l.iteration_count(), 2);
}

#[test]
fn zip_links_pairs_parallel_arrays() {
    assert_eq!(zip_links(&[0, 1, 2], &[1, 2]), vec![(0, 1), (1, 2)]);
    assert_eq!(zip_links(&[4], &[7, 9]), vec![(4, 7)]);
    assert_eq!(zip_links(&[], &[3]), Vec::<(usize, usize)>::new());
}
