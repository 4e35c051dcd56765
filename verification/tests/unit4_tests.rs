use discrete_math::unit4::{get_conic_class, ConicClass, GeneralConic};

#[test]
fn i_cma41_8() {
    let conic = GeneralConic(25, -14, 25, -86, -22, -479);

    println!("conic")
}

#[test]
fn conic_classes() {
    assert_eq!(get_conic_class(&GeneralConic(25, -14, 25, -86, -22, -479)), ConicClass::Ellipse);
    assert_eq!(get_conic_class(&GeneralConic(1, 2, 1, 0, 0, 0)), ConicClass::Parabola);
    assert_eq!(get_conic_class(&GeneralConic(1, 0, -1, 0, 0, -1)), ConicClass::Hyperbola);
}
