use stoik::equation::{check_equation, split_equation, EquationError};
use stoik::formula::{Molecule, TokenLoc};
use stoik::{generate_error_msg, StoikError};

#[test]
fn caret_under_span() {
    let msg = TokenLoc::new(0, 1).format_msg("12345", "numbers", "one");
    assert_eq!("numbers: 12345\n         ^\n         one", msg);
    let msg = TokenLoc::new(2, 2).format_msg("12345", "numbers", "hey look\n3+4=7");
    assert_eq!("numbers: 12345\n           ^^\n           hey look\n           3+4=7", msg);
}

#[test]
fn diagnostic_lines_follow_str_lines() {
    let msg = TokenLoc::new(0, 0).format_msg("x", "m", "a\r\n\nb\n");
    assert_eq!("m: x\n   \n   a\n   \n   b", msg);
    let msg = TokenLoc::new(0, 1).format_msg("x", "m", "");
    assert_eq!("m: x\n   ^", msg);
}

#[test]
fn error_message_points_at_number() {
    let formula = "Cr2(5SO4)3";
    let e = Molecule::from_formula(formula).unwrap_err();
    assert_eq!(
        generate_error_msg(e, formula),
        "Malformed formula: Cr2(5SO4)3\n                       ^\n                       Compound groups cannot start with numbers"
    );
}

#[test]
fn error_message_without_location() {
    let e = Molecule::from_formula("()").unwrap_err();
    assert_eq!(generate_error_msg(e, "()"), "Cannot have an empty molecule");
    let e = StoikError::InvalidInput("nothing here".to_string());
    assert_eq!(e.to_string(), "Invalid input: nothing here");
    assert_eq!(StoikError::UnpairedBracket(TokenLoc::new(0, 1)).to_string(), "Unpaired bracket");
}

#[test]
fn split_at_either_arrow() {
    let (lhs, rhs) = split_equation(" 2H2 +O2 => 2H2O ").unwrap();
    assert_eq!(lhs, vec!["2H2".to_string(), "O2".to_string()]);
    assert_eq!(rhs, vec!["2H2O".to_string()]);
    let (lhs, rhs) = split_equation("A->B+").unwrap();
    assert_eq!(lhs, vec!["A".to_string()]);
    assert_eq!(rhs, vec!["B".to_string(), "".to_string()]);
    assert!(split_equation("H2 + O2 = H2O").is_none());
}

#[test]
fn check_unbalanced_equation() {
    let rows = check_equation("H2 + O2 -> H2O").unwrap();
    assert_eq!(rows.len(), 2);
    assert_eq!((rows[0].atom.as_str(), rows[0].reactants, rows[0].products), ("H", 2, 2));
    assert!(rows[0].balanced);
    assert_eq!((rows[1].atom.as_str(), rows[1].reactants, rows[1].products), ("O", 2, 1));
    assert!(!rows[1].balanced);
}

#[test]
fn check_balanced_equation() {
    let rows = check_equation("2H2 + O2 -> 2H2O").unwrap();
    assert!(rows.iter().all(|r| r.balanced));
    assert_eq!((rows[0].reactants, rows[1].reactants), (4, 2));
}

#[test]
fn check_reports_first_bad_formula() {
    match check_equation("H2 + Cr2(5SO4)3 -> (H") {
        Err(EquationError::Formula(f, StoikError::NumberFirst(loc))) => {
            assert_eq!(f, "Cr2(5SO4)3");
            assert_eq!(loc, TokenLoc::new(4, 1));
        }
        other => panic!("unexpected {other:?}"),
    }
    match check_equation("H2 -> (H") {
        Err(EquationError::Formula(f, StoikError::UnpairedParenthesis(loc))) => {
            assert_eq!(f, "(H");
            assert_eq!(loc, TokenLoc::new(0, 1));
        }
        other => panic!("unexpected {other:?}"),
    }
    assert!(matches!(check_equation("H2 + O2"), Err(EquationError::NoArrow)));
    assert!(matches!(
        check_equation("H2 + -> H2"),
        Err(EquationError::Formula(f, StoikError::InvalidInput(_))) if f.is_empty()
    ));
}

#[test]
fn widget_ids_carry_program_name() {
    assert_eq!(stoik::id("top"), "stoik-gui-top");
    assert_eq!(stoik::id(""), "stoik-gui-");
}
