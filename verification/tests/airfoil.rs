use naca_airfoil::linspace;
use naca_airfoil::naca_airfoil_series4;
use naca_airfoil::AirfoilError;
use naca_airfoil::NacaAirfoil;
use naca_airfoil::Rat;

fn to_f64(r: &Rat) -> f64 {
    (r.num as f64) / (r.den as f64)
}

fn f64_eql(a: f64, b: f64) -> bool {
    if f64::abs(a - b) > f64::EPSILON {
        return false;
    }

    true
}

fn close_to(a: f64, b: f64, tol: f64) -> bool {
    f64::abs(a - b) <= tol
}

fn make(code: &str, chord: Rat, resolution: usize) -> NacaAirfoil {
    match naca_airfoil_series4(code, chord, resolution) {
        Ok(p) => p,
        Err(_) => panic!("expected a profile"),
    }
}

#[test]
fn test_linspace() {
    const N: usize = 10;

    let result = linspace(Rat::new(0, 1), Rat::new(5, 1), N);

    assert!(f64_eql(to_f64(&result[0]), 0.));
    assert!(f64_eql(to_f64(&result[N - 1]), 5.));
    assert_eq!(result.len(), N);
}

#[test]
fn it_can_create_naca_4_series_airfoil() {
    let mut naca_0015 = make("0015", Rat::new(1, 1), 1000);

    let mut naca_0015_str = String::new();
    let mut count: usize = 0;
    while let Some((x, yl, yu)) = naca_0015.next() {
        naca_0015_str += &format!("{},{},{}\n", to_f64(&x), to_f64(&yl), to_f64(&yu));
        count += 1;
    }
    assert_eq!(count, 1000);
    assert_eq!(naca_0015_str.lines().count(), 1000);
}

#[test]
fn linspace_hits_both_ends_exactly() {
    let start = Rat::new(3, 7);
    let end = Rat::new(22, 5);
    let grid = linspace(start, end, 13);
    assert_eq!(grid.len(), 13);
    // The first element is the start and the last is the end, exactly.
    assert_eq!(grid[0].num, 3);
    assert_eq!(grid[0].den, 7);
    assert_eq!(grid[12].num, 22);
    assert_eq!(grid[12].den, 5);
    assert!(grid[0].eqv(&start));
    assert!(grid[12].eqv(&end));
}

#[test]
fn linspace_interior_values_are_exact() {
    // From 0 to 5 in 10 points the step is exactly 5/9.
    let grid = linspace(Rat::new(0, 1), Rat::new(5, 1), 10);
    for i in 0..10 {
        let expected = Rat::new(5 * i as i128, 9);
        assert!(grid[i].eqv(&expected));
    }
}

#[test]
fn linspace_is_monotone() {
    let start = Rat::new(-4, 3);
    let end = Rat::new(9, 2);
    let grid = linspace(start, end, 20);
    for i in 0..19 {
        assert!(grid[i].le(&grid[i + 1]));
    }
}

#[test]
fn linspace_equal_ends_is_constant() {
    let v = Rat::new(5, 4);
    let grid = linspace(v, v, 4);
    for g in &grid {
        assert!(g.eqv(&v));
    }
}

#[test]
fn profile_is_symmetric() {
    let mut p = make("0015", Rat::new(3, 2), 7);
    while let Some((_, yl, yu)) = p.next() {
        assert_eq!(yl.num, -yu.num);
        assert_eq!(yl.den, yu.den);
    }
}

#[test]
fn leading_edge_is_zero() {
    for chord in [Rat::new(1, 1), Rat::new(7, 3), Rat::new(-2, 1)] {
        let p = make("0015", chord, 5);
        let (x0, yl0, yu0) = p.point(0).unwrap();
        assert_eq!(x0.num, 0);
        assert_eq!(yu0.num, 0);
        assert_eq!(yl0.num, 0);
    }
}

#[test]
fn doubling_the_chord_doubles_every_coordinate() {
    let p1 = make("0015", Rat::new(1, 1), 9);
    let p2 = make("0015", Rat::new(2, 1), 9);
    for i in 0..9 {
        let (x1, yl1, yu1) = p1.point(i).unwrap();
        let (x2, yl2, yu2) = p2.point(i).unwrap();
        // Exact cross-multiplied equalities: v2 == 2 * v1.
        assert_eq!(x2.num * x1.den, 2 * x1.num * x2.den);
        assert_eq!(yu2.num * yu1.den, 2 * yu1.num * yu2.den);
        assert_eq!(yl2.num * yl1.den, 2 * yl1.num * yl2.den);
    }
}

#[test]
fn concrete_naca_0015_profile() {
    let p = make("0015", Rat::new(1, 1), 5);
    assert_eq!(p.len(), 5);

    let quarters = [
        Rat::new(0, 1),
        Rat::new(1, 4),
        Rat::new(1, 2),
        Rat::new(3, 4),
        Rat::new(1, 1),
    ];
    for i in 0..5 {
        let (x, _, _) = p.point(i).unwrap();
        assert!(x.eqv(&quarters[i]));
    }

    let (_, yl0, yu0) = p.point(0).unwrap();
    assert_eq!(yu0.num, 0);
    assert_eq!(yl0.num, 0);

    // At the trailing edge the coefficients sum to exactly zero:
    // 5 * 15 * 1 * (0.2969 - 0.1260 - 0.3516 + 0.2843 - 0.1036) == 0.
    let expected = 5. * 15. * 1. * (0.2969 - 0.1260 - 0.3516 + 0.2843 - 0.1036);
    let (_, yl4, yu4) = p.point(4).unwrap();
    assert!(close_to(to_f64(&yu4), expected, 1e-3));
    assert_eq!(yu4.num, 0);
    assert_eq!(yl4.num, -yu4.num);

    // At mid-chord the profile matches the closed-form value within the
    // square-root resolution.
    let expected_mid = 5.
        * 15.
        * (0.2969 * f64::sqrt(0.5) - 0.1260 * 0.5 - 0.3516 * 0.25 + 0.2843 * 0.125
            - 0.1036 * 0.0625);
    let (_, _, yu2) = p.point(2).unwrap();
    assert!(close_to(to_f64(&yu2), expected_mid, 1e-2));
}

#[test]
fn non_numeric_code_tail_is_a_parse_error() {
    let r = naca_airfoil_series4("00AB", Rat::new(1, 1), 5);
    assert!(matches!(r, Err(AirfoilError::ParseError)));
}

#[test]
fn empty_code_tail_is_a_parse_error() {
    let r = naca_airfoil_series4("00", Rat::new(1, 1), 5);
    assert!(matches!(r, Err(AirfoilError::ParseError)));
}

#[test]
fn two_dots_are_a_parse_error() {
    let r = naca_airfoil_series4("001.2.3", Rat::new(1, 1), 5);
    assert!(matches!(r, Err(AirfoilError::ParseError)));
}

#[test]
fn lone_dot_is_a_parse_error() {
    let r = naca_airfoil_series4("00.", Rat::new(1, 1), 5);
    assert!(matches!(r, Err(AirfoilError::ParseError)));
}

#[test]
fn fractional_thickness_codes_parse() {
    // "15.5" is read as the exact rational 155/10.
    let p = make("0015.5", Rat::new(1, 1), 3);
    assert_eq!(p.len(), 3);
    // ".5" and "15." are decimal literals too.
    assert_eq!(make("00.5", Rat::new(1, 1), 3).len(), 3);
    assert_eq!(make("0015.", Rat::new(1, 1), 3).len(), 3);
}

#[test]
fn resolution_below_two_is_rejected() {
    let r = naca_airfoil_series4("0015", Rat::new(1, 1), 1);
    assert!(matches!(r, Err(AirfoilError::InvalidResolutionError)));
    let r0 = naca_airfoil_series4("0015", Rat::new(1, 1), 0);
    assert!(matches!(r0, Err(AirfoilError::InvalidResolutionError)));
}

#[test]
fn parse_error_takes_precedence_over_resolution() {
    let r = naca_airfoil_series4("00AB", Rat::new(1, 1), 1);
    assert!(matches!(r, Err(AirfoilError::ParseError)));
}

#[test]
fn cursor_is_one_shot() {
    let mut p = make("0012", Rat::new(1, 1), 3);
    assert!(p.next().is_some());
    assert!(p.next().is_some());
    assert!(p.next().is_some());
    assert!(p.next().is_none());
    assert!(p.next().is_none());
    assert!(p.point(3).is_none());
    assert_eq!(p.len(), 3);
}

#[test]
fn trailing_edge_is_the_chord_length() {
    let chord = Rat::new(7, 2);
    let p = make("0009", chord, 6);
    let (x5, _, _) = p.point(5).unwrap();
    assert_eq!(x5.num, 7);
    assert_eq!(x5.den, 2);
}

#[test]
fn thickness_scales_the_offsets() {
    // t parses literally: "0030" gives twice the offsets of "0015".
    let p15 = make("0015", Rat::new(1, 1), 9);
    let p30 = make("0030", Rat::new(1, 1), 9);
    for i in 0..9 {
        let (_, _, a) = p15.point(i).unwrap();
        let (_, _, b) = p30.point(i).unwrap();
        assert_eq!(b.num * a.den, 2 * a.num * b.den);
    }
}
