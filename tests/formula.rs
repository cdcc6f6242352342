use std::collections::HashMap;

use stoik::balance::{balance, extend_mol_map, is_balanced};
use stoik::formula::{assemble_tree, tokenize, Molecule, SyntaxNode, Token, TokenLoc, TokenStream};
use stoik::StoikError;

fn as_map(pairs: Vec<(String, i64)>) -> HashMap<String, i64> {
    pairs.into_iter().collect()
}

#[test]
fn overall_test() {
    let mol = Molecule::from_formula("5(H2O)3((FeW)5CrMo2V)6CoMnSi");
    assert!(mol.is_ok());
    let mol = mol.unwrap();
    assert_eq!(mol.moles, 5);
    assert_eq!(
        as_map(mol.get_map()),
        HashMap::from([
            ("V".to_string(), 30,),
            ("Fe".to_string(), 150,),
            ("Mo".to_string(), 60,),
            ("Cr".to_string(), 30,),
            ("Mn".to_string(), 5,),
            ("Co".to_string(), 5,),
            ("Si".to_string(), 5,),
            ("O".to_string(), 15,),
            ("H".to_string(), 30,),
            ("W".to_string(), 150,),
        ])
    );
}

#[test]
fn stream_yields_tokens_in_order() {
    let mut ts = TokenStream::new("O2");
    assert_eq!(Some(Token::Atom("O".to_string(), TokenLoc::default())), ts.next());
    assert_eq!(Some(Token::Number(2, TokenLoc::default())), ts.next());
    assert_eq!(None, ts.next());
    assert_eq!(None, ts.next());
}

#[test]
fn tokens_of_every_kind() {
    let toks = tokenize("Am(SUS)2[g] 1x");
    assert_eq!(
        toks,
        vec![
            Token::Atom("Am".to_string(), TokenLoc::default()),
            Token::OpenParen(TokenLoc::default()),
            Token::Atom("S".to_string(), TokenLoc::default()),
            Token::Atom("U".to_string(), TokenLoc::default()),
            Token::Atom("S".to_string(), TokenLoc::default()),
            Token::CloseParen(TokenLoc::default()),
            Token::Number(2, TokenLoc::default()),
            Token::OpenBracket(TokenLoc::default()),
            Token::Other("g".to_string(), TokenLoc::default()),
            Token::CloseBracket(TokenLoc::default()),
            Token::Number(1, TokenLoc::default()),
            Token::Other("x".to_string(), TokenLoc::default()),
        ]
    );
}

#[test]
fn token_locations_are_offsets() {
    let toks = tokenize("Rh2 (SO4)3");
    assert_eq!(&TokenLoc::new(0, 2), toks[0].get_loc());
    assert_eq!(&TokenLoc::new(2, 1), toks[1].get_loc());
    assert_eq!(&TokenLoc::new(4, 1), toks[2].get_loc());
    assert_eq!(&TokenLoc::new(7, 1), toks[5].get_loc());
    assert_eq!(&TokenLoc::new(9, 1), toks[7].get_loc());
    let toks = tokenize("  0012");
    assert_eq!(toks, vec![Token::Number(12, TokenLoc::default())]);
    assert_eq!(&TokenLoc::new(2, 4), toks[0].get_loc());
}

#[test]
fn overlong_number_is_other_token() {
    let toks = tokenize("H99999999999999999999");
    assert_eq!(toks[1], Token::Other("99999999999999999999".to_string(), TokenLoc::default()));
    assert!(matches!(
        Molecule::from_formula("H99999999999999999999"),
        Err(StoikError::InvalidToken(loc)) if loc == TokenLoc::new(1, 20)
    ));
    assert_eq!(tokenize("9223372036854775807")[0], Token::Number(i64::MAX, TokenLoc::default()));
}

#[test]
fn o2_scenario() {
    let toks = tokenize("O2");
    assert_eq!(
        toks,
        vec![Token::Atom("O".to_string(), TokenLoc::default()), Token::Number(2, TokenLoc::default())]
    );
    let tree = assemble_tree(toks).unwrap();
    assert_eq!(
        tree,
        SyntaxNode::Multiplier { node: Box::new(SyntaxNode::Atom("O".to_string())), mul: 2 }
    );
    let mol = Molecule::construct_from_tree(tree).unwrap();
    assert_eq!(mol.moles, 1);
    assert_eq!(mol.get_map(), vec![("O".to_string(), 2)]);
}

#[test]
fn leading_number_counts_moles() {
    let tree = assemble_tree(tokenize("2H2O")).unwrap();
    assert_eq!(
        tree,
        SyntaxNode::Mole {
            node: Box::new(SyntaxNode::Subcompound(vec![
                SyntaxNode::Multiplier { node: Box::new(SyntaxNode::Atom("H".to_string())), mul: 2 },
                SyntaxNode::Atom("O".to_string()),
            ])),
            mul: 2,
        }
    );
    let water = Molecule::from_formula("2 H2O").unwrap();
    assert_eq!(water.get_count("H"), 4);
    assert_eq!(water.get_count("O"), 2);
    assert_eq!(water.get_count("S"), 0);
}

#[test]
fn nested_groups_multiply() {
    let mol = Molecule::from_formula("Rh2(SO4)3").unwrap();
    assert_eq!(mol.get_count("Rh"), 2);
    assert_eq!(mol.get_count("S"), 3);
    assert_eq!(mol.get_count("O"), 12);
    let mol = Molecule::from_formula("[Co(NH3)6]Cl3").unwrap();
    assert_eq!(mol.get_count("N"), 6);
    assert_eq!(mol.get_count("H"), 18);
    assert_eq!(mol.get_count("Cl"), 3);
    assert_eq!(mol.get_count("Co"), 1);
}

#[test]
fn from_formula_matches_stepwise() {
    let tree = assemble_tree(tokenize("Rh2(SO4)3")).unwrap();
    let mol = Molecule::construct_from_tree(tree).unwrap();
    assert_eq!(mol, Molecule::from_formula("Rh2(SO4)3").unwrap());
}

#[test]
fn increase_atom_after_reduction() {
    let mut ts = TokenStream::new("Rh2(SO4)3");
    assert_eq!(Some(Token::Atom("Rh".to_string(), TokenLoc::default())), ts.next());
    let mut rest = Vec::new();
    while let Some(t) = ts.next() {
        rest.push(t);
    }
    let tree = assemble_tree(rest).unwrap();
    let mut mol = Molecule::construct_from_tree(tree).unwrap();
    mol.increase_atom("O", 3);
    assert_eq!(Molecule::from_formula("2(SO5)3").unwrap(), mol);
    assert_ne!(Molecule::from_formula("2(SO4)3").unwrap(), mol);
}

#[test]
fn increase_atom_edits_one_molecule() {
    let mut oxygen = Molecule::from_formula("O3").unwrap();
    oxygen.increase_atom("O", -1);
    assert_eq!(oxygen.get_count("O"), 2);
    oxygen.increase_atom("Rh", 1);
    assert_eq!(oxygen.get_count("Rh"), 1);
    let mut mol = Molecule::from_formula("2 H2O").unwrap();
    mol.increase_atom("O", 1);
    assert_eq!(mol.get_count("O"), 4);
    let mut empty = Molecule::empty();
    empty.increase_atom("Zn", 7);
    assert_eq!(empty.get_map(), vec![("Zn".to_string(), 7)]);
}

#[test]
fn get_count_agrees_with_get_map() {
    for f in ["5(H2O)3((FeW)5CrMo2V)6CoMnSi", "2 H2O", "O0", "3[Fe(CN)6]2"] {
        let mol = Molecule::from_formula(f).unwrap();
        let map = as_map(mol.get_map());
        for atom in ["H", "O", "Fe", "W", "C", "N", "Zz"] {
            assert_eq!(mol.get_count(atom), *map.get(atom).unwrap_or(&0));
        }
    }
}

#[test]
fn get_map_is_sorted_and_keeps_zero_counts() {
    let mol = Molecule::from_formula("O0H2").unwrap();
    assert_eq!(mol.get_map(), vec![("H".to_string(), 2), ("O".to_string(), 0)]);
}

#[test]
fn unpaired_parenthesis_points_at_opener() {
    match Molecule::from_formula("Rh2(SO4") {
        Err(StoikError::UnpairedParenthesis(loc)) => assert_eq!(loc, TokenLoc::new(3, 1)),
        other => panic!("unexpected {other:?}"),
    }
    match Molecule::from_formula("Rh2(SO4))") {
        Err(StoikError::UnpairedParenthesis(loc)) => assert_eq!(loc, TokenLoc::new(8, 1)),
        other => panic!("unexpected {other:?}"),
    }
    match Molecule::from_formula("H]") {
        Err(StoikError::UnpairedBracket(loc)) => assert_eq!(loc, TokenLoc::new(1, 1)),
        other => panic!("unexpected {other:?}"),
    }
    match Molecule::from_formula("[H") {
        Err(StoikError::UnpairedParenthesis(loc)) => assert_eq!(loc, TokenLoc::new(0, 1)),
        other => panic!("unexpected {other:?}"),
    }
}

#[test]
fn leading_number_before_atoms_is_mole_count() {
    let mol = Molecule::from_formula("5SO4").unwrap();
    assert_eq!(mol.moles, 5);
    assert_eq!(mol.get_count("O"), 20);
    let mol = Molecule::from_formula("5(SO4)").unwrap();
    assert_eq!(mol.moles, 5);
    assert_eq!(mol.get_count("S"), 5);
}

#[test]
fn number_first_in_group() {
    match Molecule::from_formula("Cr2(5SO4)3") {
        Err(StoikError::NumberFirst(loc)) => assert_eq!(loc, TokenLoc::new(4, 1)),
        other => panic!("unexpected {other:?}"),
    }
    match Molecule::from_formula("(5SO4)") {
        Err(StoikError::NumberFirst(loc)) => assert_eq!(loc, TokenLoc::new(1, 1)),
        other => panic!("unexpected {other:?}"),
    }
}

#[test]
fn other_errors() {
    assert!(matches!(Molecule::from_formula(""), Err(StoikError::InvalidInput(_))));
    assert!(matches!(Molecule::from_formula("   "), Err(StoikError::InvalidInput(_))));
    assert!(matches!(Molecule::from_formula("()"), Err(StoikError::EmptyMolecule)));
    match Molecule::from_formula("H2$O") {
        Err(StoikError::InvalidToken(loc)) => assert_eq!(loc, TokenLoc::new(2, 1)),
        other => panic!("unexpected {other:?}"),
    }
    assert!(matches!(
        Molecule::construct_from_tree(SyntaxNode::Empty),
        Err(StoikError::EmptyMolecule)
    ));
    let nested = SyntaxNode::Subcompound(vec![
        SyntaxNode::Atom("H".to_string()),
        SyntaxNode::Mole { node: Box::new(SyntaxNode::Atom("O".to_string())), mul: 2 },
    ]);
    match Molecule::construct_from_tree(nested) {
        Err(StoikError::InvalidNode(node, partial)) => {
            assert_eq!(
                node,
                SyntaxNode::Mole { node: Box::new(SyntaxNode::Atom("O".to_string())), mul: 2 }
            );
            assert_eq!(partial.moles, 1);
            assert_eq!(partial.get_map(), vec![("H".to_string(), 1)]);
        }
        other => panic!("unexpected {other:?}"),
    }
    let mol = Molecule::from_formula("5").unwrap();
    assert_eq!(mol.moles, 5);
    assert!(mol.get_map().is_empty());
}

#[test]
fn overflowing_counts_are_rejected() {
    let big = "H9223372036854775807";
    assert_eq!(Molecule::from_formula(big).unwrap().get_count("H"), i64::MAX);
    assert!(matches!(
        Molecule::from_formula("(H9223372036854775807)2"),
        Err(StoikError::InvalidInput(_))
    ));
    assert!(matches!(
        Molecule::from_formula("2H9223372036854775807"),
        Err(StoikError::InvalidInput(_))
    ));
    assert!(matches!(
        Molecule::from_formula("H9223372036854775807H"),
        Err(StoikError::InvalidInput(_))
    ));
}

fn side(formulas: &[&str]) -> Vec<Molecule> {
    formulas.iter().map(|f| Molecule::from_formula(f).unwrap()).collect()
}

#[test]
fn unbalanced_equation_flags_oxygen() {
    let rows = balance(&side(&["H2", "O2"]), &side(&["H2O"]));
    assert!(!is_balanced(&rows));
    assert_eq!(rows.len(), 2);
    assert_eq!(rows[0].atom, "H");
    assert_eq!((rows[0].reactants, rows[0].products, rows[0].balanced), (2, 2, true));
    assert_eq!(rows[1].atom, "O");
    assert_eq!((rows[1].reactants, rows[1].products, rows[1].balanced), (2, 1, false));
}

#[test]
fn balanced_equation() {
    let rows = balance(&side(&["2H2", "O2"]), &side(&["2H2O"]));
    assert!(is_balanced(&rows));
    assert_eq!(rows.len(), 2);
    assert_eq!((rows[0].reactants, rows[0].products), (4, 4));
    assert_eq!((rows[1].reactants, rows[1].products), (2, 2));
}

#[test]
fn atoms_on_one_side_only() {
    let rows = balance(&side(&["NaCl"]), &side(&["Na", "Cl2", "Ar0"]));
    let names: Vec<&str> = rows.iter().map(|r| r.atom.as_str()).collect();
    assert_eq!(names, vec!["Ar", "Cl", "Na"]);
    assert_eq!((rows[0].reactants, rows[0].products, rows[0].balanced), (0, 0, true));
    assert_eq!((rows[1].reactants, rows[1].products, rows[1].balanced), (1, 2, false));
    assert_eq!((rows[2].reactants, rows[2].products, rows[2].balanced), (1, 1, true));
    assert!(is_balanced(&balance(&Vec::new(), &Vec::new())));
}

#[test]
fn side_totals_do_not_overflow() {
    let rows = balance(&side(&["H9223372036854775807", "H9223372036854775807"]), &side(&["H"]));
    assert_eq!(rows[0].reactants, 2 * (i64::MAX as i128));
    assert!(!is_balanced(&rows));
}

#[test]
fn unicode_letters_and_spaces() {
    let toks = tokenize("\u{d1}\u{e9}\u{3000}O");
    assert_eq!(
        toks,
        vec![
            Token::Atom("\u{d1}\u{e9}".to_string(), TokenLoc::default()),
            Token::Atom("O".to_string(), TokenLoc::default()),
        ]
    );
    assert_eq!(&TokenLoc::new(0, 2), toks[0].get_loc());
    assert_eq!(&TokenLoc::new(3, 1), toks[1].get_loc());
    let toks = tokenize("h\u{e9}!");
    assert_eq!(toks, vec![Token::Other("h\u{e9}!".to_string(), TokenLoc::default())]);
}

#[test]
fn extend_adds_one_side() {
    let mut rows = Vec::new();
    extend_mol_map(&mut rows, &Molecule::from_formula("2H2O").unwrap().get_map(), false);
    extend_mol_map(&mut rows, &Molecule::from_formula("H2O2").unwrap().get_map(), false);
    extend_mol_map(&mut rows, &Molecule::from_formula("C").unwrap().get_map(), true);
    let view: Vec<(&str, i128, i128)> =
        rows.iter().map(|r| (r.atom.as_str(), r.reactants, r.products)).collect();
    assert_eq!(view, vec![("C", 0, 1), ("H", 6, 0), ("O", 4, 0)]);
}

#[test]
fn whitespace_matches_std() {
    for code in 0u32..0x3100 {
        if let Some(c) = char::from_u32(code) {
            let text = c.to_string();
            assert_eq!(tokenize(&text).is_empty(), c.is_whitespace(), "{code:x}");
        }
    }
}
