use halide_raytracer::halton::{Fraction, Halton};

fn value(term: Option<Fraction>) -> f32 {
    let term = term.unwrap();
    term.numerator as f32 / term.denominator as f32
}

fn close(a: f32, b: f32) -> bool {
    (a - b).abs() <= 0.001
}

#[test]
fn wikipedia() {
    let mut h = Halton::new(2);
    assert!(close(value(h.next()), 1. / 2.));
    assert!(close(value(h.next()), 1. / 4.));
    assert!(close(value(h.next()), 3. / 4.));
    assert!(close(value(h.next()), 1. / 8.));
    assert!(close(value(h.next()), 5. / 8.));
    assert!(close(value(h.next()), 3. / 8.));
    assert!(close(value(h.next()), 7. / 8.));
    assert!(close(value(h.next()), 1. / 16.));
    assert!(close(value(h.next()), 9. / 16.));
}

#[test]
fn base_three() {
    let mut h = Halton::new(3);
    assert!(close(value(h.next()), 1. / 3.));
    assert!(close(value(h.next()), 2. / 3.));
    assert!(close(value(h.next()), 1. / 9.));
    assert!(close(value(h.next()), 4. / 9.));
    assert!(close(value(h.next()), 7. / 9.));
    assert!(close(value(h.next()), 2. / 9.));
    assert!(close(value(h.next()), 5. / 9.));
    assert!(close(value(h.next()), 8. / 9.));
}

#[test]
fn one_d() {
    let mut h = Halton::one_d(2);
    assert!(close(value(h.next()), 3. / 4.));
    assert!(close(value(h.next()), 1. / 8.));
}

#[test]
fn two_d() {
    let mut h = Halton::two_d((2, 3));
    let (x, y) = h.next().unwrap();
    assert!(close(value(Some(x)), 7. / 8.));
    assert!(close(value(Some(y)), 5. / 9.));
    let (x, y) = h.next().unwrap();
    assert!(close(value(Some(x)), 1. / 16.));
    assert!(close(value(Some(y)), 8. / 9.));
}

#[test]
fn terms_are_exact_fractions() {
    let mut h = Halton::new(2);
    assert_eq!(h.next(), Some(Fraction { numerator: 1, denominator: 2 }));
    assert_eq!(h.next(), Some(Fraction { numerator: 1, denominator: 4 }));
    assert_eq!(h.next(), Some(Fraction { numerator: 3, denominator: 4 }));
    assert_eq!(h.next(), Some(Fraction { numerator: 1, denominator: 8 }));
    let mut h = Halton::new(10);
    for _ in 0..122 {
        h.next();
    }
    // the counter 123 mirrored at the point is 0.321
    assert_eq!(h.next(), Some(Fraction { numerator: 321, denominator: 1000 }));
    // the counter 124 gives 0.421
    assert_eq!(h.next(), Some(Fraction { numerator: 421, denominator: 1000 }));
}

#[test]
fn terms_lie_in_the_unit_interval() {
    for base in [2u32, 3, 5, 7, 65_535, u32::MAX] {
        let mut h = Halton::new(base);
        for _ in 0..1000 {
            let term = h.next().unwrap();
            assert!(term.numerator < term.denominator);
            assert!(term.numerator > 0);
        }
    }
}

#[test]
fn two_d_skips_the_product_of_the_bases() {
    let mut pair = Halton::two_d((2, 3));
    let mut x = Halton::new(2);
    let mut y = Halton::new(3);
    for _ in 0..6 {
        x.next();
        y.next();
    }
    for _ in 0..20 {
        assert_eq!(pair.next(), Some((x.next().unwrap(), y.next().unwrap())));
    }
}
