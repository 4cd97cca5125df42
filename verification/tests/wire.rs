//! Tests of the wire record, address parsing, rendering, and the
//! program parameterization.

use pfrs::filter::{rule_map_entries, serialize_back, EvalVariant, Filter};
use pfrs::ip::{get_zero_addr, parse_ipv4, parse_ipv6, parse_sock_addr, Ip, SockAddr};
use pfrs::rule::{Builder, InnerRule, RawRule};
use pfrs::Action;

fn chars(s: &str) -> Vec<char> {
    s.chars().collect()
}

#[test]
fn raw_rule_serializes_to_56_bytes() {
    let raw = RawRule::default();
    assert_eq!(raw.serialize().len(), 56);
}

#[test]
fn serialize_then_deserialize_is_identity() {
    let raw = RawRule {
        action: 1,
        quick: 1,
        proto: 17,
        sport: 0x3500,
        dport: 0xe914,
        saddr4: 0x0100000a,
        daddr4: 0x0200000a,
        saddr6: 0x0102030405060708090a0b0c0d0e0f10,
        daddr6: 0xf0e0d0c0b0a090807060504030201000,
    };
    let bytes = raw.serialize();
    let back = RawRule::deserialize(&bytes).unwrap();
    assert_eq!(back, raw);
}

#[test]
fn deserialize_rejects_wrong_length() {
    let bytes = vec![0u8; 55];
    assert!(RawRule::deserialize(&bytes).is_none());
    let bytes = vec![0u8; 57];
    assert!(RawRule::deserialize(&bytes).is_none());
}

#[test]
fn serialized_fields_are_little_endian_in_declaration_order() {
    let raw = RawRule { action: 2, quick: 0, proto: 6, ..RawRule::default() };
    let bytes = raw.serialize();
    assert_eq!(&bytes[0..4], &[2, 0, 0, 0]);
    assert_eq!(&bytes[4..8], &[0, 0, 0, 0]);
    assert_eq!(&bytes[8..12], &[6, 0, 0, 0]);
}

#[test]
fn parse_ipv4_values() {
    assert_eq!(parse_ipv4(&chars("1.2.3.4")), Some(0x01020304));
    assert_eq!(parse_ipv4(&chars("0.0.0.0")), Some(0));
    assert_eq!(parse_ipv4(&chars("255.255.255.255")), Some(0xffffffff));
    assert_eq!(parse_ipv4(&chars("10.0.0.1")), Some(0x0a000001));
    assert_eq!(parse_ipv4(&chars("256.0.0.1")), None);
    assert_eq!(parse_ipv4(&chars("1.2.3")), None);
    assert_eq!(parse_ipv4(&chars("1.2.3.4.5")), None);
    assert_eq!(parse_ipv4(&chars("1.2.3.x")), None);
    assert_eq!(parse_ipv4(&chars("")), None);
}

#[test]
fn parse_ipv6_values() {
    assert_eq!(parse_ipv6(&chars("::")), Some(0));
    assert_eq!(parse_ipv6(&chars("::1")), Some(1));
    assert_eq!(parse_ipv6(&chars("1::")), Some(0x0001_0000_0000_0000_0000_0000_0000_0000));
    assert_eq!(
        parse_ipv6(&chars("1:2:3:4:5:6:7:8")),
        Some(0x0001_0002_0003_0004_0005_0006_0007_0008)
    );
    assert_eq!(
        parse_ipv6(&chars("ffff::1")),
        Some(0xffff_0000_0000_0000_0000_0000_0000_0001)
    );
    assert_eq!(
        parse_ipv6(&chars("0:0:0:0:0:FFFF:204.152.189.116")),
        Some(0x0000_0000_0000_0000_0000_ffff_cc98_bd74)
    );
    assert_eq!(parse_ipv6(&chars("1:2:3:4:5:6:7")), None);
    assert_eq!(parse_ipv6(&chars("1:2:3:4:5:6:7:8:9")), None);
    assert_eq!(parse_ipv6(&chars("1::2::3")), None);
    assert_eq!(parse_ipv6(&chars(":::")), None);
    assert_eq!(parse_ipv6(&chars("12345::")), None);
    assert_eq!(parse_ipv6(&chars("")), None);
}

#[test]
fn parse_sock_addr_forms() {
    assert_eq!(
        parse_sock_addr(&chars("1.2.3.4")),
        Some(SockAddr { ip: Ip::V4(0x01020304), port: 0 })
    );
    assert_eq!(
        parse_sock_addr(&chars("1.2.3.4:80")),
        Some(SockAddr { ip: Ip::V4(0x01020304), port: 80 })
    );
    assert_eq!(
        parse_sock_addr(&chars("::1")),
        Some(SockAddr { ip: Ip::V6(1), port: 0 })
    );
    assert_eq!(
        parse_sock_addr(&chars("[::1]:8080")),
        Some(SockAddr { ip: Ip::V6(1), port: 8080 })
    );
    assert_eq!(parse_sock_addr(&chars("1.2.3.4:65536")), None);
    assert_eq!(parse_sock_addr(&chars("[::1]")), None);
    assert_eq!(parse_sock_addr(&chars("host")), None);
}

#[test]
fn zero_addr_families() {
    assert_eq!(get_zero_addr(false), SockAddr { ip: Ip::V4(0), port: 0 });
    assert_eq!(get_zero_addr(true), SockAddr { ip: Ip::V6(0), port: 0 });
}

#[test]
fn builder_swaps_to_network_order() {
    let rule = Builder::new()
        .block()
        .from_addr("10.0.0.1:53")
        .to_addr("10.0.0.2")
        .build()
        .unwrap();
    match rule.get_rule() {
        InnerRule::IPv4Rule(raw) => {
            assert_eq!(raw.saddr4, 0x0100000a);
            assert_eq!(raw.daddr4, 0x0200000a);
            assert_eq!(raw.sport, 0x3500);
            assert_eq!(raw.dport, 0);
        },
        _ => panic!("expected an IPv4 rule"),
    }
}

#[test]
fn builder_quick_and_pass() {
    let rule = Builder::new()
        .pass()
        .quick()
        .from_addr("1.1.1.1")
        .to_addr("2.2.2.2")
        .build()
        .unwrap();
    match rule.get_rule() {
        InnerRule::IPv4Rule(raw) => {
            assert_eq!(raw.action, 2);
            assert_eq!(raw.quick, 1);
        },
        _ => panic!("expected an IPv4 rule"),
    }
}

#[test]
fn builder_forced_family_mismatch() {
    let r = Builder::new().block().from_addr("1.1.1.1").to_addr("2.2.2.2").set_ipv6().build();
    assert!(r.is_err());
}

#[test]
fn builder_default_family_is_ipv4() {
    let rule = Builder::new().block().from_port(80).to_port(81).build().unwrap();
    assert!(matches!(rule.get_rule(), InnerRule::IPv4Rule(_)));
}

#[test]
fn builder_short_circuits_on_first_failure() {
    let r = Builder::new().block().from_addr("nonsense").to_addr("1.1.1.1").build();
    assert!(r.is_err());
}

#[test]
fn filter_keeps_insertion_order() {
    let mut f = Filter::new();
    let a = Builder::new().block().from_addr("1.1.1.1").to_addr("2.2.2.2").build().unwrap();
    let b = Builder::new().block().from_addr("3.3.3.3").to_addr("4.4.4.4").build().unwrap();
    f.add_rule(a);
    f.add_rule(b);
    let v4 = f.ipv4_rules();
    assert_eq!(v4.len(), 2);
    assert_eq!(v4[0].saddr4.swap_bytes(), 0x01010101);
    assert_eq!(v4[1].saddr4.swap_bytes(), 0x03030303);
}

#[test]
fn generate_src_renders_the_define_block() {
    let f = Filter::new();
    assert_eq!(
        f.generate_src(),
        "#define DEFAULT_ACTION 2\n#define IPV4_RULE_COUNT 1\n#define IPV6_RULE_COUNT 1\n"
    );
    let mut f = Filter::new();
    let a = Builder::new().block().from_addr("1.1.1.1").to_addr("2.2.2.2").build().unwrap();
    f.add_rule(a);
    let d = Builder::new().block_all().unwrap();
    f.add_rule(d);
    assert_eq!(
        f.generate_src(),
        "#define DEFAULT_ACTION 1\n#define IPV4_RULE_COUNT 1\n#define IPV6_RULE_COUNT 1\n"
    );
}

#[test]
fn eval_variant_follows_rule_presence() {
    let mut f = Filter::new();
    assert_eq!(f.eval_variant(), EvalVariant::Noop);
    let a = Builder::new().block().from_addr("1.1.1.1").to_addr("2.2.2.2").build().unwrap();
    f.add_rule(a);
    assert_eq!(f.eval_variant(), EvalVariant::OnlyIp4);
    let b = Builder::new().block().from_addr("::1").to_addr("::2").build().unwrap();
    f.add_rule(b);
    assert_eq!(f.eval_variant(), EvalVariant::Both);
}

#[test]
fn map_entries_are_indexed_and_serialized() {
    let mut f = Filter::new();
    let a = Builder::new().block().from_addr("1.1.1.1").to_addr("2.2.2.2").build().unwrap();
    let b = Builder::new().pass().from_addr("3.3.3.3").to_addr("4.4.4.4").build().unwrap();
    f.add_rule(a);
    f.add_rule(b);
    let entries = rule_map_entries(f.ipv4_rules());
    assert_eq!(entries.len(), 2);
    assert_eq!(entries[0].0, vec![0, 0, 0, 0]);
    assert_eq!(entries[1].0, vec![1, 0, 0, 0]);
    assert_eq!(entries[0].1, f.ipv4_rules()[0].serialize());
    assert_eq!(entries[1].1, f.ipv4_rules()[1].serialize());
}

#[test]
fn serialize_back_renders_expected_text() {
    let mut f = Filter::new();
    let a = Builder::new()
        .block()
        .from_addr("10.0.0.1:53")
        .to_addr("10.0.0.2")
        .build()
        .unwrap();
    f.add_rule(a);
    assert_eq!(
        serialize_back(&f),
        "pass all\nblock from 10.0.0.1 port 53 to 10.0.0.2\n"
    );
    let mut f = Filter::new();
    let b = Builder::new().pass().proto("udp").from_addr("::1").to_addr("::2").build().unwrap();
    f.add_rule(b);
    let d = Builder::new().block_all().unwrap();
    f.add_rule(d);
    assert_eq!(
        serialize_back(&f),
        "block all\npass proto udp from 0:0:0:0:0:0:0:1 to 0:0:0:0:0:0:0:2\n"
    );
}

#[test]
fn error_message_text() {
    let e = pfrs::Error::Build(String::from("x"));
    assert_eq!(e.message(), "error when building: x");
    let e = pfrs::Error::Lex(String::from("y"));
    assert_eq!(e.message(), "lex error: y");
}

#[test]
fn action_codes() {
    assert_eq!(Action::Block.code(), 1);
    assert_eq!(Action::Pass.code(), 2);
}
