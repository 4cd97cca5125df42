//! A declarative packet-filter rule compiler.
//!
//! A rule file written in a small configuration language is lexed,
//! preprocessed (definition substitution and cartesian list expansion),
//! parsed into typed rules, and compiled into fixed wire records that an
//! in-kernel XDP program evaluates per packet.

use vstd::prelude::*;

pub mod bytes;
pub mod error;
pub mod filter;
pub mod ip;
pub mod lexer;
pub mod parser;
pub mod preproc;
pub mod rule;
pub mod text;
pub mod token;

pub use error::Error;

pub use rule::{Action, InnerRule, RawRule, Rule};

use crate::filter::{filter_of_rules, fold_rules, Filter};
use crate::rule::Builder;

verus! {

/// Builds the rule set of the given rules: defaults overwrite, match
/// rules append to their family in order.  Source generation and
/// compilation are driven by the caller from the returned set.
pub fn generate_filter(rules: Vec<Rule>) -> (f: Filter)
    ensures
        f.spec_default_action() == fold_rules(rules@).0,
        f.spec_ipv4() == fold_rules(rules@).1,
        f.spec_ipv6() == fold_rules(rules@).2,
{
    filter_of_rules(rules)
}

/// Builds one block rule between two addresses and appends it to the
/// rule set, refusing a rule whose family is not the expected one.
fn add_block_rule(f: &mut Filter, src: &str, dst: &str, want_v6: bool) -> (r: Result<(), Error>)
    ensures
        match r {
            Ok(()) => {
                &&& final(f).spec_default_action() == old(f).spec_default_action()
                &&& if want_v6 {
                    final(f).spec_ipv6().len() == old(f).spec_ipv6().len() + 1
                        && final(f).spec_ipv4() == old(f).spec_ipv4()
                } else {
                    final(f).spec_ipv4().len() == old(f).spec_ipv4().len() + 1
                        && final(f).spec_ipv6() == old(f).spec_ipv6()
                }
            },
            Err(_) => *final(f) == *old(f),
        },
{
    let rule = match Builder::new().block().from_addr(src).to_addr(dst).build() {
        Ok(rule) => rule,
        Err(e) => {
            return Err(e);
        },
    };
    match rule.get_rule() {
        InnerRule::IPv4Rule(_) => {
            if want_v6 {
                return Err(Error::Internal(String::from_str("unexpected address family")));
            }
            f.add_rule(rule);
            Ok(())
        },
        InnerRule::IPv6Rule(_) => {
            if !want_v6 {
                return Err(Error::Internal(String::from_str("unexpected address family")));
            }
            f.add_rule(rule);
            Ok(())
        },
        InnerRule::DefaultRule(_) => Err(
            Error::Internal(String::from_str("unexpected default rule")),
        ),
    }
}

/// A demonstration rule set: blocks traffic between a fixed set of
/// address pairs, four IPv4 and two IPv6, with the default `Pass`.
pub fn load_filter() -> (r: Result<Filter, Error>)
    ensures
        r matches Ok(f) ==> f.spec_default_action() == Action::Pass && f.spec_ipv4().len() == 4
            && f.spec_ipv6().len() == 2,
{
    let mut f = Filter::new();
    if let Err(e) = add_block_rule(&mut f, "10.11.4.2", "10.11.3.2", false) {
        return Err(e);
    }
    if let Err(e) = add_block_rule(&mut f, "10.11.6.2", "10.11.3.2", false) {
        return Err(e);
    }
    if let Err(e) = add_block_rule(&mut f, "10.11.5.2", "10.11.2.2", false) {
        return Err(e);
    }
    if let Err(e) = add_block_rule(&mut f, "10.11.127.2", "100.11.2.2", false) {
        return Err(e);
    }
    if let Err(e) = add_block_rule(&mut f, "0:0:0:0:0:FFFF:204.152.189.116", "1:0:0:0:0:0:0:8", true) {
        return Err(e);
    }
    if let Err(e) = add_block_rule(&mut f, "0:0:0:0:0:FFFF:204.152.189.116", "1:0:0:0:0:0:0:8", true) {
        return Err(e);
    }
    Ok(f)
}

} // verus!
