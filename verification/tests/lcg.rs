use forcefield::lcg::LCG_M;
use forcefield::Lcg;

#[test]
fn first_values_match_js() {
    // The first two numbers the stream seeded with 1 yields.
    let mut r = Lcg::new();
    assert_eq!(r.next() as f64 / 4294967296.0, 1015568748.0 / 4294967296.0);
    assert_eq!(r.next() as f64 / 4294967296.0, 1586005467.0 / 4294967296.0);
}

#[test]
fn step_matches_formula() {
    let mut r = Lcg::new();
    let mut s: u64 = 1;
    for _ in 0..1000 {
        s = (1_664_525 * s + 1_013_904_223) % 4_294_967_296;
        let v = r.next();
        assert_eq!(v, s);
        assert!(v < LCG_M);
    }
}

#[test]
fn clone_continues_the_same_stream() {
    let mut a = Lcg::new();
    a.next();
    let mut b = a.clone();
    assert_eq!(a.next(), b.next());
    assert_eq!(a.next(), b.next());
}

#[test]
fn default_is_seed_one() {
    let mut a = Lcg::default();
    assert_eq!(a.next(), 1015568748);
}
