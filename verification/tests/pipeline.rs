//! End-to-end tests of the configuration pipeline: lexing,
//! preprocessing, parsing and rule building.

use pfrs::error::Error;
use pfrs::filter::Filter;
use pfrs::lexer::Lexer;
use pfrs::parser::Parser;
use pfrs::preproc::PreProc;
use pfrs::rule::{InnerRule, RawRule, Rule};
use pfrs::Action;

fn rules_of(cfg: &str) -> Result<Vec<Rule>, Error> {
    let toks = Lexer::from_str(String::from(cfg)).tokenize()?;
    let toks = PreProc::new(toks).preprocess()?;
    let mut p = Parser::new(toks);
    p.parse_statements()?;
    Ok(p.get_rules())
}

fn filter_of(cfg: &str) -> Result<Filter, Error> {
    Ok(pfrs::generate_filter(rules_of(cfg)?))
}

fn raw_rules(f: &Filter) -> (Vec<RawRule>, Vec<RawRule>) {
    (f.ipv4_rules().clone(), f.ipv6_rules().clone())
}

fn raw_of(r: &Rule) -> RawRule {
    match r.get_rule() {
        InnerRule::IPv4Rule(raw) => raw,
        InnerRule::IPv6Rule(raw) => raw,
        InnerRule::DefaultRule(_) => panic!("expected a match rule"),
    }
}

#[test]
fn empty_list_is_a_lex_error() {
    let r = Lexer::from_str(String::from("block from {} to 1.2.3.4\n")).tokenize();
    assert!(matches!(r, Err(Error::Lex(_))));
    let r = Lexer::from_str(String::from("block from { } to 1.2.3.4\n")).tokenize();
    assert!(matches!(r, Err(Error::Lex(_))));
}

#[test]
fn dollar_at_end_is_a_lex_error() {
    let r = Lexer::from_str(String::from("block from $")).tokenize();
    assert!(matches!(r, Err(Error::Lex(_))));
    let r = Lexer::from_str(String::from("$")).tokenize();
    assert!(matches!(r, Err(Error::Lex(_))));
    let r = Lexer::from_str(String::from("$ ")).tokenize();
    assert!(matches!(r, Err(Error::Lex(_))));
}

#[test]
fn newline_in_list_is_a_lex_error() {
    let r = Lexer::from_str(String::from("block from { a \n b } to x\n")).tokenize();
    assert!(matches!(r, Err(Error::Lex(_))));
}

#[test]
fn unclosed_list_is_a_lex_error() {
    let r = Lexer::from_str(String::from("block from { a b")).tokenize();
    assert!(matches!(r, Err(Error::Lex(_))));
}

#[test]
fn port_65536_is_a_parse_error() {
    let r = rules_of("block from 10.0.0.1 port 65536 to 10.0.0.2\n");
    assert!(matches!(r, Err(Error::Parse(_))));
}

#[test]
fn port_0_means_any() {
    let rules = rules_of("block from 10.0.0.1 port 0 to 10.0.0.2 port 0\n").unwrap();
    assert_eq!(rules.len(), 1);
    let raw = raw_of(&rules[0]);
    assert_eq!(raw.sport, 0);
    assert_eq!(raw.dport, 0);
}

#[test]
fn pass_all_sets_the_default() {
    let f = filter_of("pass all\n").unwrap();
    assert_eq!(f.default_action(), Action::Pass);
    let (v4, v6) = raw_rules(&f);
    assert!(v4.is_empty());
    assert!(v6.is_empty());
}

#[test]
fn block_all_sets_the_default() {
    let f = filter_of("block all\n").unwrap();
    assert_eq!(f.default_action(), Action::Block);
}

#[test]
fn simple_ipv4_rule() {
    let rules = rules_of("block from 10.0.0.1 to 10.0.0.2\n").unwrap();
    assert_eq!(rules.len(), 1);
    let raw = raw_of(&rules[0]);
    assert!(matches!(rules[0].get_rule(), InnerRule::IPv4Rule(_)));
    assert_eq!(raw.action, 1);
    assert_eq!(raw.proto, 0);
    assert_eq!(raw.quick, 0);
    // addresses land on the wire in network byte order
    let bytes = raw.serialize();
    assert_eq!(&bytes[16..20], &[0x0a, 0x00, 0x00, 0x01]);
    assert_eq!(&bytes[20..24], &[0x0a, 0x00, 0x00, 0x02]);
}

#[test]
fn definitions_substitute() {
    let direct = rules_of("block from 10.0.0.1 to 10.0.0.2\n").unwrap();
    let defined = rules_of("a = 10.0.0.1\nblock from $a to 10.0.0.2\n").unwrap();
    assert_eq!(defined.len(), 1);
    assert_eq!(raw_of(&defined[0]), raw_of(&direct[0]));
}

#[test]
fn chained_definitions_substitute() {
    let direct = rules_of("block from 10.0.0.1 to 10.0.0.2\n").unwrap();
    let defined = rules_of("a = 10.0.0.1\nb = $a\nblock from $b to 10.0.0.2\n").unwrap();
    assert_eq!(defined.len(), 1);
    assert_eq!(raw_of(&defined[0]), raw_of(&direct[0]));
}

#[test]
fn unknown_identifier_is_an_error() {
    let r = rules_of("block from $nowhere to 10.0.0.2\n");
    assert!(matches!(r, Err(Error::Parse(_))));
}

#[test]
fn lists_expand_in_order() {
    let rules =
        rules_of("block from { 1.1.1.1 2.2.2.2 } to { 3.3.3.3 4.4.4.4 }\n").unwrap();
    assert_eq!(rules.len(), 4);
    let expect = [
        ("1.1.1.1", "3.3.3.3"),
        ("1.1.1.1", "4.4.4.4"),
        ("2.2.2.2", "3.3.3.3"),
        ("2.2.2.2", "4.4.4.4"),
    ];
    for (i, (src, dst)) in expect.iter().enumerate() {
        let single = rules_of(&format!("block from {} to {}\n", src, dst)).unwrap();
        assert_eq!(raw_of(&rules[i]), raw_of(&single[0]), "expansion {}", i);
    }
}

#[test]
fn list_bound_to_definition_expands() {
    let via_def = rules_of("hosts = { 1.1.1.1 2.2.2.2 }\nblock from $hosts to 9.9.9.9\n")
        .unwrap();
    let direct = rules_of("block from { 1.1.1.1 2.2.2.2 } to 9.9.9.9\n").unwrap();
    assert_eq!(via_def.len(), 2);
    assert_eq!(raw_of(&via_def[0]), raw_of(&direct[0]));
    assert_eq!(raw_of(&via_def[1]), raw_of(&direct[1]));
}

#[test]
fn ipv6_rule_with_ports_and_proto() {
    let rules = rules_of("block proto udp from ::1 port 53 to ::2 port 5353\n").unwrap();
    assert_eq!(rules.len(), 1);
    assert!(matches!(rules[0].get_rule(), InnerRule::IPv6Rule(_)));
    let raw = raw_of(&rules[0]);
    assert_eq!(raw.proto, 17);
    let bytes = raw.serialize();
    // sport 53 big-endian
    assert_eq!(&bytes[12..14], &[0x00, 0x35]);
    // dport 5353 big-endian
    assert_eq!(&bytes[14..16], &[0x14, 0xe9]);
    // saddr6 ::1
    let mut want = [0u8; 16];
    want[15] = 1;
    assert_eq!(&bytes[24..40], &want);
}

#[test]
fn family_mismatch_is_a_build_error() {
    let r = rules_of("block from 10.0.0.1 to ::1\n");
    assert!(matches!(r, Err(Error::Build(_))));
}

#[test]
fn unknown_protocol_is_invalid_input() {
    let r = rules_of("block proto icmp from 10.0.0.1 to 10.0.0.2\n");
    assert!(matches!(r, Err(Error::InvalidInput(_))));
}

#[test]
fn bad_address_is_invalid_input() {
    let r = rules_of("block from 10.0.0.300 to 10.0.0.2\n");
    assert!(matches!(r, Err(Error::InvalidInput(_))));
}

#[test]
fn missing_from_is_a_parse_error() {
    let r = rules_of("block to 10.0.0.2\n");
    assert!(matches!(r, Err(Error::Parse(_))));
}

#[test]
fn blank_lines_are_allowed() {
    let rules = rules_of("\n\nblock from 1.1.1.1 to 2.2.2.2\n\n\npass all\n\n").unwrap();
    assert_eq!(rules.len(), 2);
}

#[test]
fn missing_final_newline_is_allowed() {
    let rules = rules_of("block from 1.1.1.1 to 2.2.2.2").unwrap();
    assert_eq!(rules.len(), 1);
}

#[test]
fn proto_is_case_insensitive() {
    let upper = rules_of("block proto TCP from 1.1.1.1 to 2.2.2.2\n").unwrap();
    assert_eq!(raw_of(&upper[0]).proto, 6);
}

#[test]
fn config_round_trips_through_serialize_back() {
    let cfgs = [
        "pass all\n",
        "block from 10.0.0.1 to 10.0.0.2\n",
        "block proto udp from ::1 port 53 to ::2 port 5353\n",
        "block all\nblock from { 1.1.1.1 2.2.2.2 } to 9.9.9.9\npass proto tcp from 1.2.3.4 port 80 to 4.3.2.1\n",
    ];
    for cfg in cfgs.iter() {
        let f1 = filter_of(cfg).unwrap();
        let text = pfrs::filter::serialize_back(&f1);
        let f2 = filter_of(&text).unwrap();
        assert_eq!(f1.default_action(), f2.default_action(), "config {:?}", cfg);
        assert_eq!(raw_rules(&f1), raw_rules(&f2), "config {:?}", cfg);
    }
}

#[test]
fn demo_filter_builds() {
    let f = pfrs::load_filter().unwrap();
    assert_eq!(f.default_action(), Action::Pass);
    assert_eq!(f.ipv4_rules().len(), 4);
    assert_eq!(f.ipv6_rules().len(), 2);
}
