use lifefromscratch::chemistry::{malformed_lines, parse_line, Chemistry, LineKind, Reactant, ReactionResult};

fn table(lines: &[&str]) -> Chemistry {
    let lines: Vec<String> = lines.iter().map(|l| l.to_string()).collect();
    Chemistry::new(&lines)
}

#[test]
fn parse_example_combine() {
    assert_eq!(
        parse_line("0{0}+0{0}->0{1}=0{1}"),
        LineKind::Rule(Reactant(0, 0), Reactant(0, 0), ReactionResult::Combine(1, 1))
    );
    let chem = table(&["0{0}+0{0}->0{1}=0{1}"]);
    assert_eq!(chem.get_products(Reactant(0, 0), Reactant(0, 0)), Some(ReactionResult::Combine(1, 1)));
    assert_eq!(chem.get_products(Reactant(0, 1), Reactant(0, 0)), None);
}

#[test]
fn parse_rejects_species_change() {
    assert_eq!(parse_line("0{0}+0{0}->1{1}=1{1}"), LineKind::Malformed);
    let chem = table(&["0{0}+0{0}->1{1}=1{1}"]);
    assert_eq!(chem.get_products(Reactant(0, 0), Reactant(0, 0)), None);
    assert_eq!(chem.get_products(Reactant(1, 1), Reactant(1, 1)), None);
}

#[test]
fn parse_kinds_whitespace_and_comments() {
    assert_eq!(
        parse_line(" 0{0} + 1{2} -> 0{3} + 1{4}\t# excite"),
        LineKind::Rule(Reactant(0, 0), Reactant(1, 2), ReactionResult::Excite(3, 4))
    );
    assert_eq!(
        parse_line("a{1}=B{2}->A{3}+b{4}\r"),
        LineKind::Rule(Reactant(10, 1), Reactant(11, 2), ReactionResult::Decompose(3, 4))
    );
    assert_eq!(
        parse_line("ff{FF}+00{0a}->0ff{1}=0{2}"),
        LineKind::Rule(Reactant(255, 255), Reactant(0, 10), ReactionResult::Combine(1, 2))
    );
    assert_eq!(parse_line(""), LineKind::Blank);
    assert_eq!(parse_line("   \t "), LineKind::Blank);
    assert_eq!(parse_line("# 0{0}+0{0}->0{1}=0{1}"), LineKind::Blank);
}

#[test]
fn parse_rejects_malformed_lines() {
    // separators that select no kind
    assert_eq!(parse_line("0{0}=0{0}->0{1}=0{1}"), LineKind::Malformed);
    // no arrow, two arrows
    assert_eq!(parse_line("0{0}+0{0}0{1}=0{1}"), LineKind::Malformed);
    assert_eq!(parse_line("0{0}+0{0}->0{1}=0{1}->0{1}"), LineKind::Malformed);
    // a value over 255, a non-hex digit, a missing brace, an empty field
    assert_eq!(parse_line("100{0}+0{0}->100{1}=0{1}"), LineKind::Malformed);
    assert_eq!(parse_line("0{g}+0{0}->0{1}=0{1}"), LineKind::Malformed);
    assert_eq!(parse_line("0{0+0{0}->0{1}=0{1}"), LineKind::Malformed);
    assert_eq!(parse_line("{0}+0{0}->0{1}=0{1}"), LineKind::Malformed);
    assert_eq!(parse_line("0{}+0{0}->0{1}=0{1}"), LineKind::Malformed);
    // three reactants
    assert_eq!(parse_line("0{0}+0{0}+0{0}->0{1}=0{1}"), LineKind::Malformed);
    // trailing text after a token
    assert_eq!(parse_line("0{0}x+0{0}->0{1}=0{1}"), LineKind::Malformed);
}

#[test]
fn malformed_lines_are_listed_and_skipped() {
    let lines: Vec<String> = vec![
        "# a comment".to_string(),
        "0{0}+0{0}->0{1}=0{1}".to_string(),
        "rubbish".to_string(),
        "".to_string(),
        "0{0}+0{0}->1{1}=1{1}".to_string(),
        "1{1}=1{1}->1{0}+1{0}".to_string(),
    ];
    assert_eq!(malformed_lines(&lines), vec![2, 4]);
    let chem = Chemistry::new(&lines);
    assert_eq!(chem.get_products(Reactant(0, 0), Reactant(0, 0)), Some(ReactionResult::Combine(1, 1)));
    assert_eq!(chem.get_products(Reactant(1, 1), Reactant(1, 1)), Some(ReactionResult::Decompose(0, 0)));
}

#[test]
fn later_rule_for_same_pair_wins() {
    let chem = table(&["0{0}+1{0}->0{1}=1{1}", "0{0}+1{0}->0{2}+1{3}"]);
    assert_eq!(chem.get_products(Reactant(0, 0), Reactant(1, 0)), Some(ReactionResult::Excite(2, 3)));
}

#[test]
fn lookup_is_symmetric() {
    let chem = table(&["1{2}+3{4}->1{5}=3{6}", "5{0}=6{0}->5{1}+6{2}", "7{0}+8{0}->7{3}+8{4}"]);
    assert_eq!(chem.get_products(Reactant(1, 2), Reactant(3, 4)), Some(ReactionResult::Combine(5, 6)));
    assert_eq!(chem.get_products(Reactant(3, 4), Reactant(1, 2)), Some(ReactionResult::Combine(6, 5)));
    assert_eq!(chem.get_products(Reactant(6, 0), Reactant(5, 0)), Some(ReactionResult::Decompose(2, 1)));
    assert_eq!(chem.get_products(Reactant(8, 0), Reactant(7, 0)), Some(ReactionResult::Excite(4, 3)));
    assert_eq!(chem.get_products(Reactant(1, 2), Reactant(1, 2)), None);
}

#[test]
fn species_and_state_tokens() {
    assert_eq!(Chemistry::parse_species_and_state("1f{a0}"), Some((31, 160)));
    assert_eq!(Chemistry::parse_species_and_state("0{0}"), Some((0, 0)));
    assert_eq!(Chemistry::parse_species_and_state("1f"), None);
    assert_eq!(Chemistry::parse_species_and_state("{1}"), None);
    assert_eq!(Chemistry::parse_species_and_state("1{1ff}"), None);
}

#[test]
fn reactants_and_products_of_sides() {
    assert_eq!(
        Chemistry::get_reactants_and_products("0{0}+1{1}", "0{2}=1{3}", '+', '='),
        Some((Reactant(0, 0), Reactant(1, 1), (2, 3)))
    );
    assert_eq!(Chemistry::get_reactants_and_products("0{0}+1{1}", "1{2}=0{3}", '+', '='), None);
    assert_eq!(Chemistry::get_reactants_and_products("0{0}+1{1}", "0{2}+1{3}", '+', '='), None);
}
