use rust_polynomial::{find_divs, EquationType, Monomial, ParseError, Polynomial, TermError};

fn poly(s: &str) -> Polynomial {
    Polynomial::parse(s).unwrap()
}

#[test]
fn normalizing_canonical_terms_changes_nothing() {
    for s in ["x^4 - 6x^2 + 8", "-x^90 + 9x^9 - 6x^5", "7", "0"] {
        let p = poly(s);
        assert_eq!(Polynomial::new(p.terms()), p);
    }
}

#[test]
fn display_of_parse_is_canonical() {
    assert_eq!(poly("0x^2 + 6x + 0").to_string(), "6x");
    assert_eq!(poly("x + x + x^2 - x^2").to_string(), "2x");
    assert_eq!(poly(" 2X^2 +3x ").to_string(), "2x^2 + 3x");
}

#[test]
fn adding_zero_and_negation() {
    let p = poly("3x^5 - 2x + 7");
    assert_eq!(p.clone().add(Polynomial::zero()), p);
    assert_eq!(p.clone().add(p.clone().neg()), Polynomial::zero());
    assert_eq!(p.clone().sub(p.clone()).to_string(), "0");
    assert_eq!(poly("x^2 + 1").sub(poly("3x - 1")).to_string(), "x^2 - 3x + 2");
}

#[test]
fn division_identity_holds() {
    let pairs = [
        ("x4 - 6x2 + 8", "x-1"),
        ("4x^2 + 32x + 64", "2x + 8"),
        ("-5x^7 + 42x^3 - 9", "x^2 + 1"),
        ("x^5 + 3x^2 - 4", "x^2 - x + 1"),
    ];
    for (a, b) in pairs {
        let p = poly(a);
        let d = poly(b);
        let (q, r) = p.clone().div(d.clone());
        assert_eq!(q.mul(d.clone()).add(r.clone()), p);
        assert!(r.len() == 0 || r.max_exp().get_exp() < d.max_exp().get_exp());
    }
}

#[test]
fn division_stops_when_leading_coefficients_do_not_divide() {
    let (q, r) = poly("x^2 + 1").div(poly("2x"));
    assert_eq!(q.to_string(), "0");
    assert_eq!(r.to_string(), "x^2 + 1");
}

#[test]
fn division_by_a_constant() {
    let (q, r) = poly("6x^2 - 3").div(poly("3"));
    assert_eq!(q.to_string(), "2x^2 - 1");
    assert_eq!(r.to_string(), "0");
}

#[test]
fn product_degree_is_sum_of_degrees() {
    let p = poly("x^4 - 6x^2 + 8");
    let q = poly("-6x^6 - 91x + 12");
    assert_eq!(p.clone().mul(q.clone()).max_exp().get_exp(), 10);
    assert_eq!(poly("x + 1").mul(poly("x - 1")).max_exp().get_exp(), 2);
}

#[test]
fn parse_errors() {
    assert_eq!(Monomial::parse("a"), Err(ParseError::InvalidBase));
    assert_eq!(Monomial::parse("2xabc"), Err(ParseError::InvalidExponent));
    assert_eq!(Monomial::parse("2x3x"), Err(ParseError::TooManySymbols));
    assert_eq!(Monomial::parse("99999999999x"), Err(ParseError::InvalidBase));
    assert_eq!(Polynomial::parse("2147483647 + 1"), Err(ParseError::Overflow));
    assert_eq!(Polynomial::parse("x + 2q"), Err(ParseError::InvalidBase));
    assert_eq!(Polynomial::parse("").unwrap().to_string(), "0");
}

#[test]
fn term_operations() {
    let a = Monomial::new(3, 2);
    let b = Monomial::new(-5, 2);
    assert_eq!(a.add(b), Ok(Monomial::new(-2, 2)));
    assert_eq!(a.add(Monomial::new(1, 1)), Err(TermError::IncompatibleExponents));
    assert_eq!(a.mul(Monomial::new(4, 3)), Monomial::new(12, 5));
    assert_eq!(Monomial::new(-7, 5).div(Monomial::new(2, 2)), Monomial::new(-3, 3));
    assert_eq!(a.neg(), Monomial::new(-3, 2));
    assert!(a.is_operable(&b));
    assert_eq!(Monomial::sum(&vec![a, b, Monomial::new(10, 2)]), Monomial::new(8, 2));
    assert_eq!(Monomial::sum(&Vec::new()), Monomial::new(0, 0));
}

#[test]
fn term_text() {
    assert_eq!(Monomial::new(1, 0).to_string(), "1");
    assert_eq!(Monomial::new(-1, 0).to_string(), "-1");
    assert_eq!(Monomial::new(1, 1).to_string(), "x");
    assert_eq!(Monomial::new(-1, 3).to_string(), "-x^3");
    assert_eq!(Monomial::new(-23, -2).to_string(), "-23x^-2");
    assert_eq!(Monomial::new(2147483647, 12).to_string(), "2147483647x^12");
}

#[test]
fn scaling_by_a_term() {
    let p = poly("10x - 10");
    assert_eq!(p.clone().div_mono(Monomial::new(2, 0)).to_string(), "5x - 5");
    assert_eq!(p.clone().mul_mono(Monomial::new(2, 0)).to_string(), "20x - 20");
    assert_eq!(p.clone().mul_mono(Monomial::new(-3, 2)).to_string(), "-30x^3 + 30x^2");
    assert_eq!(poly("3x^2 + 1").div_mono(Monomial::new(2, 1)).to_string(), "x");
}

#[test]
fn lookups_and_push() {
    let mut p = poly("2x^2 + 5x - 100");
    assert_eq!(p.find_by_exp(1), Monomial::new(5, 1));
    assert_eq!(p.find_by_exp(10), Monomial::new(0, 0));
    assert_eq!(p.max_exp(), Monomial::new(2, 2));
    assert_eq!(p.len(), 3);
    p.push(Monomial::new(-5, 1));
    assert_eq!(p.to_string(), "2x^2 - 100");
    p.push(Monomial::new(7, 3));
    assert_eq!(p.to_string(), "7x^3 + 2x^2 - 100");
    assert_eq!(Polynomial::zero().max_exp(), Monomial::new(0, 0));
    assert_eq!(Polynomial::default(), Polynomial::zero());
}

#[test]
fn equation_types() {
    assert_eq!(poly("7").equation_type(), EquationType::Invalid);
    assert_eq!(poly("5x - 100").equation_type(), EquationType::Linear);
    assert_eq!(poly("x^2 + 1").equation_type(), EquationType::Quadratic);
    assert_eq!(poly("x^3 + 1").equation_type(), EquationType::BigExp2Terms);
    assert_eq!(poly("x^4 - 13x^2 + 36").equation_type(), EquationType::Biquadratic);
    assert_eq!(poly("x^4 + x^3 + 1").equation_type(), EquationType::BigExp);
}

#[test]
fn divisors_in_search_order() {
    assert_eq!(find_divs(12), vec![1, 2, 3, 4, 6, 12, -1, -2, -3, -4, -6, -12]);
    assert_eq!(find_divs(1), vec![1, -1]);
    assert_eq!(find_divs(0), Vec::<i64>::new());
}

#[test]
fn more_roots() {
    assert_eq!(poly("x^3 - 8").roots(), Some(vec![2]));
    assert_eq!(poly("x^3 + 27").roots(), Some(vec![-3]));
    assert_eq!(poly("x^4 - 16").roots(), Some(vec![-2, 2]));
    assert_eq!(poly("x^3 - 2").roots(), None);
    assert_eq!(poly("x^2 - 2").roots(), None);
    assert_eq!(poly("2x^2 + 4x").roots(), Some(vec![-2, 0]));
    assert_eq!(poly("x^2").roots(), Some(vec![0]));
    assert_eq!(poly("3x + 7").roots(), None);
    assert_eq!(poly("3x + 6").roots(), Some(vec![-2]));
    assert_eq!(poly("2x + 1").roots(), None);
    assert_eq!(poly("2x^2 - 9").roots(), None);
    assert_eq!(poly("2x^2 - 8").roots(), Some(vec![-2, 2]));
    assert_eq!(poly("2x^4 + 1").roots(), None);
    assert_eq!(poly("2x^3 - 17").roots(), None);
    assert_eq!(poly("2x^3 - 16").roots(), Some(vec![2]));
    assert_eq!(poly("x").roots(), Some(vec![0]));
    assert_eq!(poly("5").roots(), None);
    assert_eq!(poly("x^4 - 10x^2 + 25").roots(), None);
    assert_eq!(poly("x^4 - 5x^2 + 4").roots(), Some(vec![-2, -1, 1, 2]));
    assert_eq!(poly("x^3 + x^2 + x").roots(), None);
}

#[test]
fn division_of_lower_degree_returns_dividend() {
    let (q, r) = poly("x + 1").div(poly("x^2 - 3"));
    assert_eq!(q, Polynomial::zero());
    assert_eq!(r, poly("x + 1"));
}

#[test]
fn trait_conversions_and_indexing() {
    let p = Polynomial::try_from("2x^2 + 5x - 100").unwrap();
    assert_eq!(p[0], Monomial::new(2, 2));
    assert_eq!(p[2], Monomial::new(-100, 0));
    let terms: Vec<Monomial> = p.clone().into_iter().collect();
    assert_eq!(terms, p.terms());
    assert_eq!(Polynomial::try_from(vec![2, 5, -100]).unwrap(), p);
    assert_eq!(Monomial::default(), Monomial::new(0, 0));
    assert_eq!(Polynomial::try_new(&vec![Monomial::new(i32::MAX, 1), Monomial::new(1, 1)]), None);
    assert_eq!(
        Polynomial::try_new(&vec![Monomial::new(3, 1), Monomial::new(-3, 1)]),
        Some(Polynomial::zero())
    );
}
