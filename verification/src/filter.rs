//! The rule-set container and the parameterization of the in-kernel
//! program.
//!
//! A `Filter` holds the default action and one ordered rule list per IP
//! family.  `generate_src` renders the three `#define`s that parameterize
//! the fixed program text, and `rule_map_entries` lays the rules out as
//! the key/value byte pairs the kernel maps take.

use vstd::prelude::*;

use crate::bytes::{
    le_bytes, le_bytes_exec, lemma_pow256_values, lemma_swapped_bound, swap_u128, swap_u16,
    swap_u32, swapped,
};
use crate::ip::{render_v4, render_v6, render_ipv4, render_ipv6};
use crate::rule::{Action, InnerRule, RawRule, Rule};
use crate::text::{chars_to_string, dec_str, usize_to_string, u32_to_string};

verus! {

/// Which per-family evaluation sections the generated program needs.
#[derive(Clone, Copy, Debug, PartialEq, Eq, Structural)]
pub enum EvalVariant {
    /// No rules at all: the program only applies the default action.
    Noop,
    /// Only IPv4 rules exist.
    OnlyIp4,
    /// Only IPv6 rules exist.
    OnlyIp6,
    /// Both families have rules.
    Both,
}

/// An ordered rule set split by IP family, with a default action.
#[derive(Debug)]
pub struct Filter {
    pub(crate) default_act: Action,
    pub(crate) ipv4_rules: Vec<RawRule>,
    pub(crate) ipv6_rules: Vec<RawRule>,
}

/// An array map must have at least one slot, so an empty list still
/// emits a count of 1.
pub open spec fn spec_count(n: nat) -> nat {
    if n == 0 {
        1
    } else {
        n
    }
}

impl Filter {
    pub closed spec fn spec_default_action(self) -> Action {
        self.default_act
    }

    pub closed spec fn spec_ipv4(self) -> Seq<RawRule> {
        self.ipv4_rules@
    }

    pub closed spec fn spec_ipv6(self) -> Seq<RawRule> {
        self.ipv6_rules@
    }

    /// An empty rule set whose default action is `Pass`.
    pub fn new() -> (r: Filter)
        ensures
            r.spec_default_action() == Action::Pass,
            r.spec_ipv4() == Seq::<RawRule>::empty(),
            r.spec_ipv6() == Seq::<RawRule>::empty(),
    {
        let r = Filter { default_act: Action::Pass, ipv4_rules: Vec::new(), ipv6_rules: Vec::new() };
        proof {
            assert(r.spec_ipv4() =~= Seq::<RawRule>::empty());
            assert(r.spec_ipv6() =~= Seq::<RawRule>::empty());
        }
        r
    }

    /// Appends the rule to the list of its family, in insertion order,
    /// or overwrites the default action.
    pub fn add_rule(&mut self, rule: Rule)
        ensures
            match rule.spec_inner() {
                InnerRule::IPv4Rule(r) => {
                    &&& final(self).spec_ipv4() == old(self).spec_ipv4().push(r)
                    &&& final(self).spec_ipv6() == old(self).spec_ipv6()
                    &&& final(self).spec_default_action() == old(self).spec_default_action()
                },
                InnerRule::IPv6Rule(r) => {
                    &&& final(self).spec_ipv6() == old(self).spec_ipv6().push(r)
                    &&& final(self).spec_ipv4() == old(self).spec_ipv4()
                    &&& final(self).spec_default_action() == old(self).spec_default_action()
                },
                InnerRule::DefaultRule(a) => {
                    &&& final(self).spec_default_action() == a
                    &&& final(self).spec_ipv4() == old(self).spec_ipv4()
                    &&& final(self).spec_ipv6() == old(self).spec_ipv6()
                },
            },
    {
        match rule.get_rule() {
            InnerRule::IPv6Rule(r) => self.ipv6_rules.push(r),
            InnerRule::IPv4Rule(r) => self.ipv4_rules.push(r),
            InnerRule::DefaultRule(a) => self.default_act = a,
        }
    }

    pub fn default_action(&self) -> (r: Action)
        ensures
            r == self.spec_default_action(),
    {
        self.default_act
    }

    pub fn ipv4_rules(&self) -> (r: &Vec<RawRule>)
        ensures
            r@ == self.spec_ipv4(),
    {
        &self.ipv4_rules
    }

    pub fn ipv6_rules(&self) -> (r: &Vec<RawRule>)
        ensures
            r@ == self.spec_ipv6(),
    {
        &self.ipv6_rules
    }

    /// The `#define` block that parameterizes the program text.
    pub open spec fn spec_src(self) -> Seq<char> {
        "#define DEFAULT_ACTION "@ + dec_str(self.spec_default_action().spec_code() as nat)
            + "\n#define IPV4_RULE_COUNT "@ + dec_str(spec_count(self.spec_ipv4().len()))
            + "\n#define IPV6_RULE_COUNT "@ + dec_str(spec_count(self.spec_ipv6().len())) + "\n"@
    }

    /// Renders the rule-set-dependent part of the program source: the
    /// default action and the two map sizes.  The surrounding fixed
    /// program text is not part of the rule set and is assembled by the
    /// caller around this block.
    pub fn generate_src(&self) -> (r: String)
        ensures
            r@ == self.spec_src(),
    {
        let mut out = String::from_str("#define DEFAULT_ACTION ");
        let act = u32_to_string(self.default_act.code());
        out.append(act.as_str());
        out.append("\n#define IPV4_RULE_COUNT ");
        let n4 = self.ipv4_rules.len();
        let c4 = usize_to_string(if n4 == 0 {
            1
        } else {
            n4
        });
        out.append(c4.as_str());
        out.append("\n#define IPV6_RULE_COUNT ");
        let n6 = self.ipv6_rules.len();
        let c6 = usize_to_string(if n6 == 0 {
            1
        } else {
            n6
        });
        out.append(c6.as_str());
        out.append("\n");
        out
    }

    /// Which evaluation sections the program text needs: exactly the
    /// families that have rules.
    pub fn eval_variant(&self) -> (r: EvalVariant)
        ensures
            r == EvalVariant::Noop <==> self.spec_ipv4().len() == 0 && self.spec_ipv6().len() == 0,
            r == EvalVariant::OnlyIp4 <==> self.spec_ipv4().len() > 0 && self.spec_ipv6().len()
                == 0,
            r == EvalVariant::OnlyIp6 <==> self.spec_ipv4().len() == 0 && self.spec_ipv6().len()
                > 0,
            r == EvalVariant::Both <==> self.spec_ipv4().len() > 0 && self.spec_ipv6().len() > 0,
    {
        match (self.ipv6_rules.is_empty(), self.ipv4_rules.is_empty()) {
            (true, true) => EvalVariant::Noop,
            (true, false) => EvalVariant::OnlyIp4,
            (false, true) => EvalVariant::OnlyIp6,
            (false, false) => EvalVariant::Both,
        }
    }
}

/// Lays a rule list out as kernel map entries: entry `i` maps the
/// little-endian 4-byte key `i` to the serialized wire record of rule
/// `i`, in insertion order.
pub fn rule_map_entries(rules: &Vec<RawRule>) -> (r: Vec<(Vec<u8>, Vec<u8>)>)
    requires
        rules@.len() <= 0xFFFFFFFF,
    ensures
        r@.len() == rules@.len(),
        forall|i: int|
            0 <= i < r@.len() ==> (#[trigger] r@[i]).0@ == le_bytes(i as nat, 4) && r@[i].1@
                == rules@[i].spec_serialize(),
{
    let mut out: Vec<(Vec<u8>, Vec<u8>)> = Vec::new();
    let mut i: usize = 0;
    while i < rules.len()
        invariant
            i <= rules@.len() <= 0xFFFFFFFF,
            out@.len() == i,
            forall|k: int|
                0 <= k < i ==> (#[trigger] out@[k]).0@ == le_bytes(k as nat, 4) && out@[k].1@
                    == rules@[k].spec_serialize(),
        decreases rules.len() - i,
    {
        let key = le_bytes_exec(i as u128, 4);
        let value = rules[i].serialize();
        out.push((key, value));
        i = i + 1;
    }
    out
}

/// The rule set that a sequence of rules folds into, starting from the
/// empty set: defaults overwrite, match rules append to their family.
pub open spec fn fold_rules(rules: Seq<Rule>) -> (Action, Seq<RawRule>, Seq<RawRule>)
    decreases rules.len(),
{
    if rules.len() == 0 {
        (Action::Pass, Seq::<RawRule>::empty(), Seq::<RawRule>::empty())
    } else {
        let prev = fold_rules(rules.drop_last());
        match rules.last().spec_inner() {
            InnerRule::DefaultRule(a) => (a, prev.1, prev.2),
            InnerRule::IPv4Rule(r) => (prev.0, prev.1.push(r), prev.2),
            InnerRule::IPv6Rule(r) => (prev.0, prev.1, prev.2.push(r)),
        }
    }
}

/// Builds the rule set of a rule sequence.
pub fn filter_of_rules(rules: Vec<Rule>) -> (f: Filter)
    ensures
        f.spec_default_action() == fold_rules(rules@).0,
        f.spec_ipv4() == fold_rules(rules@).1,
        f.spec_ipv6() == fold_rules(rules@).2,
{
    let mut f = Filter::new();
    let mut i: usize = 0;
    while i < rules.len()
        invariant
            i <= rules@.len(),
            f.spec_default_action() == fold_rules(rules@.subrange(0, i as int)).0,
            f.spec_ipv4() == fold_rules(rules@.subrange(0, i as int)).1,
            f.spec_ipv6() == fold_rules(rules@.subrange(0, i as int)).2,
        decreases rules.len() - i,
    {
        proof {
            let pre = rules@.subrange(0, i as int);
            let post = rules@.subrange(0, i + 1);
            assert(post.drop_last() =~= pre);
            assert(post.last() == rules@[i as int]);
        }
        let r = rules[i];
        f.add_rule(r);
        i = i + 1;
    }
    proof {
        assert(rules@.subrange(0, rules@.len() as int) =~= rules@);
    }
    f
}


// ---------------------------------------------------------------------
// Textual rendering of a rule set
// ---------------------------------------------------------------------
/// The action word of a wire action code.
pub open spec fn action_text(a: u32) -> Seq<char> {
    if a == 1 {
        "block"@
    } else {
        "pass"@
    }
}

/// The protocol clause of a wire protocol code; empty means any.
pub open spec fn proto_text(p: u32) -> Seq<char> {
    if p == 6 {
        " proto tcp"@
    } else if p == 17 {
        " proto udp"@
    } else {
        ""@
    }
}

/// The port clause of a presentation-form port; empty for "any port".
pub open spec fn port_text(p: nat) -> Seq<char> {
    if p == 0 {
        ""@
    } else {
        " port "@ + dec_str(p)
    }
}

/// The presentation form of a rule's address of its family.
pub open spec fn addr_text(a4: u32, a6: u128, v6: bool) -> Seq<char> {
    if v6 {
        render_v6(swapped(a6 as nat, 16))
    } else {
        render_v4(swapped(a4 as nat, 4))
    }
}

/// One configuration line for a wire record.
pub open spec fn spec_render_rule(raw: RawRule, v6: bool) -> Seq<char> {
    action_text(raw.action) + proto_text(raw.proto) + " from "@ + addr_text(
        raw.saddr4,
        raw.saddr6,
        v6,
    ) + port_text(swapped(raw.sport as nat, 2)) + " to "@ + addr_text(raw.daddr4, raw.daddr6, v6)
        + port_text(swapped(raw.dport as nat, 2)) + "
"@
}

/// The lines of a rule list, in order.
pub open spec fn spec_render_rules(rules: Seq<RawRule>, v6: bool) -> Seq<char>
    decreases rules.len(),
{
    if rules.len() == 0 {
        Seq::empty()
    } else {
        spec_render_rules(rules.drop_last(), v6) + spec_render_rule(rules.last(), v6)
    }
}

/// The configuration text a rule set writes back to: the default line
/// first, then the IPv4 rules, then the IPv6 rules.
pub open spec fn spec_serialize_back(f: Filter) -> Seq<char> {
    action_text(f.spec_default_action().spec_code()) + " all\n"@ + spec_render_rules(
        f.spec_ipv4(),
        false,
    ) + spec_render_rules(f.spec_ipv6(), true)
}

fn render_port_clause(container: u16, out: &mut String)
    ensures
        final(out)@ == old(out)@ + port_text(swapped(container as nat, 2)),
{
    let p = swap_u16(container);
    if p == 0 {
        proof {
            reveal_strlit("");
            assert(old(out)@ + ""@ =~= old(out)@);
        }
        return ;
    }
    out.append(" port ");
    let t = u32_to_string(p as u32);
    out.append(t.as_str());
}

/// Renders one rule as a configuration line.
pub fn render_rule(raw: &RawRule, v6: bool) -> (r: String)
    ensures
        r@ == spec_render_rule(*raw, v6),
{
    proof {
        lemma_pow256_values();
        lemma_swapped_bound(raw.saddr6 as nat, 16);
        lemma_swapped_bound(raw.daddr6 as nat, 16);
        lemma_swapped_bound(raw.saddr4 as nat, 4);
        lemma_swapped_bound(raw.daddr4 as nat, 4);
    }
    let mut out = if raw.action == 1 {
        String::from_str("block")
    } else {
        String::from_str("pass")
    };
    if raw.proto == 6 {
        out.append(" proto tcp");
    } else if raw.proto == 17 {
        out.append(" proto udp");
    } else {
        proof {
            reveal_strlit("");
            assert(out@ + ""@ =~= out@);
        }
    }
    out.append(" from ");
    let schars = if v6 {
        render_ipv6(swap_u128(raw.saddr6))
    } else {
        render_ipv4(swap_u32(raw.saddr4))
    };
    let st = chars_to_string(&schars);
    out.append(st.as_str());
    render_port_clause(raw.sport, &mut out);
    out.append(" to ");
    let dchars = if v6 {
        render_ipv6(swap_u128(raw.daddr6))
    } else {
        render_ipv4(swap_u32(raw.daddr4))
    };
    let dt = chars_to_string(&dchars);
    out.append(dt.as_str());
    render_port_clause(raw.dport, &mut out);
    out.append("\n");
    out
}

fn render_rules_into(rules: &Vec<RawRule>, v6: bool, out: &mut String)
    ensures
        final(out)@ == old(out)@ + spec_render_rules(rules@, v6),
{
    let mut i: usize = 0;
    proof {
        assert(rules@.subrange(0, 0) =~= Seq::<RawRule>::empty());
        assert(out@ + Seq::<char>::empty() =~= out@);
    }
    while i < rules.len()
        invariant
            i <= rules.len(),
            out@ == old(out)@ + spec_render_rules(rules@.subrange(0, i as int), v6),
        decreases rules.len() - i,
    {
        proof {
            let pre = rules@.subrange(0, i as int);
            let post = rules@.subrange(0, i + 1);
            assert(post.drop_last() =~= pre);
            assert(post.last() == rules@[i as int]);
        }
        let line = render_rule(&rules[i], v6);
        out.append(line.as_str());
        proof {
            assert(old(out)@ + spec_render_rules(rules@.subrange(0, i as int), v6)
                + spec_render_rule(rules@[i as int], v6) =~= old(out)@ + (spec_render_rules(
                rules@.subrange(0, i as int),
                v6,
            ) + spec_render_rule(rules@[i as int], v6)));
        }
        i = i + 1;
    }
    proof {
        assert(rules@.subrange(0, rules@.len() as int) =~= rules@);
    }
}

/// Writes a rule set back as configuration text whose parse denotes the
/// same set: the default line, then each rule in insertion order.
pub fn serialize_back(f: &Filter) -> (r: String)
    ensures
        r@ == spec_serialize_back(*f),
{
    let mut out = if matches!(f.default_action(), Action::Block) {
        String::from_str("block")
    } else {
        String::from_str("pass")
    };
    out.append(" all\n");
    render_rules_into(&f.ipv4_rules, false, &mut out);
    render_rules_into(&f.ipv6_rules, true, &mut out);
    out
}

} // verus!
