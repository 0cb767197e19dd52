use life::rule::{Rule, RuleParseError};

fn mask(digits: &[u16]) -> u16 {
    let mut m: u16 = 0;
    for d in digits {
        m |= 1u16 << d;
    }
    m
}

fn rule(birth: &[u16], survival: &[u16]) -> Rule {
    Rule { birth: mask(birth), survival: mask(survival) }
}

fn classic() -> Rule {
    rule(&[3], &[2, 3])
}

#[test]
fn test_rule_from_str_ok() {
    assert_eq!(Ok(classic()), Rule::parse("B3/S23"));
    // lookup a named rule
    assert_eq!(Ok(classic()), Rule::parse("original"));
    // legacy S/B rule notation without "B" and "S" labels
    assert_eq!(Ok(classic()), Rule::parse("23/3"));
    assert_eq!(Ok(rule(&[4, 5, 6, 7, 8], &[2, 3, 4, 5])), Rule::parse("B45678/S2345"));
    // Seeds rule has no survival section
    assert_eq!(Ok(rule(&[2], &[])), Rule::parse("B2"));
    assert_eq!(Ok(rule(&[2], &[0])), Rule::parse("B2/S0000"));
}

#[test]
fn test_rule_from_str_err() {
    assert_eq!(Err(RuleParseError::UnrecognisedRuleToken), Rule::parse("B3/S23V"));
    assert_eq!(Err(RuleParseError::UnrecognisedRuleToken), Rule::parse("B3\\S23"));
    let err = Rule::parse("B3/S23V").unwrap_err();
    assert_eq!("Unrecognised content in rulestring", err.message());
}

#[test]
fn test_rule_apply() {
    let rule: Rule = Rule::parse("B3/S23").unwrap();
    assert_eq!(false, rule.apply(&false, &2));
    assert_eq!(true, rule.apply(&false, &3));
    assert_eq!(false, rule.apply(&false, &4));
    assert_eq!(false, rule.apply(&true, &1));
    assert_eq!(true, rule.apply(&true, &2));
    assert_eq!(true, rule.apply(&true, &3));
    assert_eq!(false, rule.apply(&true, &4));
}

#[test]
fn test_rule_parse_round_trip() {
    let a = Rule::parse("B3/S23").unwrap();
    let b = Rule::parse("original").unwrap();
    let c = Rule::parse("23/3").unwrap();
    assert_eq!(a, b);
    assert_eq!(b, c);
    assert_eq!(a, classic());
}

#[test]
fn test_seeds_rule_empty_survival() {
    let seeds = Rule::parse("B2").unwrap();
    assert_eq!(seeds, rule(&[2], &[]));
    assert_eq!(false, seeds.apply(&true, &2));
    assert_eq!(true, seeds.apply(&false, &2));
}

#[test]
fn test_rule_default_is_original() {
    assert_eq!(Rule::default(), Rule::parse("original").unwrap());
    assert_eq!(Rule::default(), classic());
}

#[test]
fn test_named_rules_parse() {
    assert_eq!(Ok(rule(&[2], &[0])), Rule::parse("live-free-or-die"));
    assert_eq!(Ok(rule(&[3, 6], &[2, 3])), Rule::parse("highlife"));
    assert_eq!(Ok(rule(&[3], &[0, 1, 2, 3, 4, 5, 6, 7, 8])), Rule::parse("life-without-death"));
    // an unknown name is read as a rule string, and fails on its letters
    assert_eq!(Err(RuleParseError::UnrecognisedRuleToken), Rule::parse("unknown-name"));
}
