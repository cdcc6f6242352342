use stoik::equation::format_formula;
use stoik::formula::{tokenize, Molecule, Token, TokenLoc, TokenStream};
use stoik::text::int_to_text;

#[test]
fn tokens_as_text() {
    let mut ts = TokenStream::new("Am(SUS)2[g]");
    let mut folded = String::new();
    while let Some(t) = ts.next() {
        folded = format!("{folded} {}", t.to_string());
    }
    assert_eq!(" aAm ( aS aU aS ) #2 [ og ]", folded);
    assert_eq!(Token::Number(-45, TokenLoc::default()).to_string(), "#-45");
}

#[test]
fn molecules_as_text() {
    assert_eq!(Molecule::from_formula("2 H2O").unwrap().to_string(), "2 H2O");
    assert_eq!(Molecule::from_formula("Rh2(SO4)3").unwrap().to_string(), "O12Rh2S3");
    assert_eq!(Molecule::from_formula("-").is_err(), true);
    assert_eq!(Molecule::from_formula("0CO").unwrap().to_string(), "0 CO");
}

#[test]
fn integers_as_text() {
    assert_eq!(int_to_text(0), "0");
    assert_eq!(int_to_text(1203), "1203");
    assert_eq!(int_to_text(i64::MIN), "-9223372036854775808");
    assert_eq!(int_to_text(i64::MAX), "9223372036854775807");
}

#[test]
fn formulas_with_subscripts() {
    assert_eq!(format_formula(" 2H2O "), "2H\u{2082}O");
    assert_eq!(format_formula("Rh2(SO4)3"), "Rh\u{2082}(SO\u{2084})\u{2083}");
    assert_eq!(format_formula("10Fe"), "10Fe");
    assert_eq!(format_formula(""), "");
}

#[test]
fn well_formed_formulas_read_back() {
    let f = "3[Co(NH3)6]2(Cl)3H";
    assert!(tokenize(f).iter().all(|t| !matches!(t, Token::Other(..))));
    let mol = Molecule::from_formula(f).unwrap();
    assert_eq!(mol.moles, 3);
    assert_eq!(
        mol.get_map(),
        vec![
            ("Cl".to_string(), 9),
            ("Co".to_string(), 6),
            ("H".to_string(), 111),
            ("N".to_string(), 36),
        ]
    );
    assert_eq!(mol.get_count("H"), 111);
}

#[test]
fn padding_fills_to_width() {
    assert_eq!(stoik::text::pad_string("Fe", 5), "Fe   ");
    assert_eq!(stoik::text::pad_string("\u{2082}x", 3), "\u{2082}x ");
    assert_eq!(stoik::text::pad_string("Element", 3), "Element");
}
