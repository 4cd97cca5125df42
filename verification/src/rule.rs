//! The rule model: verdicts, protocols, and the fixed wire record.
//!
//! A `RawRule` is the in-kernel record: its address and port fields hold
//! network-order payloads, and the whole record is serialized as
//! little-endian container words packed in declaration order.

use vstd::prelude::*;

use crate::bytes::{
    be_bytes, le_bytes, le_value, lemma_le_bytes_len, lemma_le_bytes_of_swapped,
    lemma_le_value_bound, lemma_le_value_of_le_bytes, lemma_pow256_values, lemma_swapped_bound,
    le_bytes_exec, le_value_range, pow256, swap_u128, swap_u16, swap_u32, swapped,
};
use crate::error::Error;
use crate::ip::{get_zero_addr, spec_sock, Ip, SockAddr};
use crate::text::{chars_eq_str, lower, str_to_chars, to_lower};

verus! {

/// A rule's verdict. On the wire `Block` is 1 and `Pass` is 2, with 0
/// reserved to mean no action.
#[derive(Clone, Copy, Debug, PartialEq, Eq, Structural)]
pub enum Action {
    Block,
    Pass,
}

impl Action {
    pub open spec fn spec_code(&self) -> u32 {
        match self {
            Action::Block => 1,
            Action::Pass => 2,
        }
    }

    /// Numeric value used in the wire record and the generated program.
    pub fn code(&self) -> (c: u32)
        ensures
            c == self.spec_code(),
    {
        match self {
            Action::Block => 1,
            Action::Pass => 2,
        }
    }
}

/// Protocol selector. Wire encoding uses the IANA numbers: TCP is 6,
/// UDP is 17, and 0 stands for "any protocol".
#[derive(Clone, Copy, Debug, PartialEq, Eq, Structural)]
pub enum Proto {
    UDP,
    TCP,
    Any,
}

impl Proto {
    pub open spec fn spec_code(&self) -> u32 {
        match self {
            Proto::TCP => 6,
            Proto::UDP => 17,
            Proto::Any => 0,
        }
    }

    pub fn code(&self) -> (c: u32)
        ensures
            c == self.spec_code(),
    {
        match self {
            Proto::TCP => 6,
            Proto::UDP => 17,
            Proto::Any => 0,
        }
    }
}

/// The fixed wire record, in declaration order.  Address and port fields
/// hold their payload pre-swapped to network byte order; 0 (or all-zero)
/// means "any".
#[derive(Clone, Copy, Debug, PartialEq, Eq, Structural)]
pub struct RawRule {
    pub action: u32,
    pub quick: u32,
    pub proto: u32,
    pub sport: u16,
    pub dport: u16,
    pub saddr4: u32,
    pub daddr4: u32,
    pub saddr6: u128,
    pub daddr6: u128,
}

/// Number of bytes of a serialized `RawRule`.
pub const RAW_RULE_SIZE: usize = 56;

impl Default for RawRule {
    /// The all-zero record: no action, not quick, any protocol, any
    /// address and any port on both sides.
    fn default() -> (r: Self)
        ensures
            r == RawRule::zero(),
    {
        RawRule {
            action: 0,
            quick: 0,
            proto: 0,
            sport: 0,
            dport: 0,
            saddr4: 0,
            daddr4: 0,
            saddr6: 0,
            daddr6: 0,
        }
    }
}

impl RawRule {
    pub open spec fn zero() -> RawRule {
        RawRule {
            action: 0,
            quick: 0,
            proto: 0,
            sport: 0,
            dport: 0,
            saddr4: 0,
            daddr4: 0,
            saddr6: 0,
            daddr6: 0,
        }
    }

    /// The serialized form: the fields packed sequentially in declaration
    /// order, each stored as a little-endian container word.
    pub open spec fn spec_serialize(self) -> Seq<u8> {
        le_bytes(self.action as nat, 4) + le_bytes(self.quick as nat, 4) + le_bytes(
            self.proto as nat,
            4,
        ) + le_bytes(self.sport as nat, 2) + le_bytes(self.dport as nat, 2) + le_bytes(
            self.saddr4 as nat,
            4,
        ) + le_bytes(self.daddr4 as nat, 4) + le_bytes(self.saddr6 as nat, 16) + le_bytes(
            self.daddr6 as nat,
            16,
        )
    }

    /// The record denoted by a 56-byte sequence, or nothing if the length
    /// is wrong.
    pub open spec fn spec_deserialize(s: Seq<u8>) -> Option<RawRule> {
        if s.len() == RAW_RULE_SIZE {
            Some(
                RawRule {
                    action: le_value(s.subrange(0, 4)) as u32,
                    quick: le_value(s.subrange(4, 8)) as u32,
                    proto: le_value(s.subrange(8, 12)) as u32,
                    sport: le_value(s.subrange(12, 14)) as u16,
                    dport: le_value(s.subrange(14, 16)) as u16,
                    saddr4: le_value(s.subrange(16, 20)) as u32,
                    daddr4: le_value(s.subrange(20, 24)) as u32,
                    saddr6: le_value(s.subrange(24, 40)) as u128,
                    daddr6: le_value(s.subrange(40, 56)) as u128,
                },
            )
        } else {
            None
        }
    }

    pub proof fn lemma_serialize_len(self)
        ensures
            self.spec_serialize().len() == RAW_RULE_SIZE,
    {
        lemma_le_bytes_len(self.action as nat, 4);
        lemma_le_bytes_len(self.quick as nat, 4);
        lemma_le_bytes_len(self.proto as nat, 4);
        lemma_le_bytes_len(self.sport as nat, 2);
        lemma_le_bytes_len(self.dport as nat, 2);
        lemma_le_bytes_len(self.saddr4 as nat, 4);
        lemma_le_bytes_len(self.daddr4 as nat, 4);
        lemma_le_bytes_len(self.saddr6 as nat, 16);
        lemma_le_bytes_len(self.daddr6 as nat, 16);
    }

    /// Packs the record into its 56-byte wire form.
    pub fn serialize(&self) -> (r: Vec<u8>)
        ensures
            r@ == self.spec_serialize(),
            r@.len() == RAW_RULE_SIZE,
    {
        let mut out: Vec<u8> = Vec::new();
        let mut part = le_bytes_exec(self.action as u128, 4);
        out.append(&mut part);
        let mut part = le_bytes_exec(self.quick as u128, 4);
        out.append(&mut part);
        let mut part = le_bytes_exec(self.proto as u128, 4);
        out.append(&mut part);
        let mut part = le_bytes_exec(self.sport as u128, 2);
        out.append(&mut part);
        let mut part = le_bytes_exec(self.dport as u128, 2);
        out.append(&mut part);
        let mut part = le_bytes_exec(self.saddr4 as u128, 4);
        out.append(&mut part);
        let mut part = le_bytes_exec(self.daddr4 as u128, 4);
        out.append(&mut part);
        let mut part = le_bytes_exec(self.saddr6, 16);
        out.append(&mut part);
        let mut part = le_bytes_exec(self.daddr6, 16);
        out.append(&mut part);
        proof {
            assert(out@ =~= self.spec_serialize());
            self.lemma_serialize_len();
        }
        out
    }

    /// Reads a record back from its wire form.  Returns `None` exactly
    /// when the input is not 56 bytes long.
    pub fn deserialize(s: &Vec<u8>) -> (r: Option<RawRule>)
        ensures
            r == RawRule::spec_deserialize(s@),
    {
        if s.len() != RAW_RULE_SIZE {
            return None;
        }
        proof {
            lemma_pow256_values();
            lemma_le_value_bound(s@.subrange(0, 4));
            lemma_le_value_bound(s@.subrange(4, 8));
            lemma_le_value_bound(s@.subrange(8, 12));
            lemma_le_value_bound(s@.subrange(12, 14));
            lemma_le_value_bound(s@.subrange(14, 16));
            lemma_le_value_bound(s@.subrange(16, 20));
            lemma_le_value_bound(s@.subrange(20, 24));
            lemma_le_value_bound(s@.subrange(24, 40));
            lemma_le_value_bound(s@.subrange(40, 56));
        }
        Some(
            RawRule {
                action: le_value_range(s, 0, 4) as u32,
                quick: le_value_range(s, 4, 4) as u32,
                proto: le_value_range(s, 8, 4) as u32,
                sport: le_value_range(s, 12, 2) as u16,
                dport: le_value_range(s, 14, 2) as u16,
                saddr4: le_value_range(s, 16, 4) as u32,
                daddr4: le_value_range(s, 20, 4) as u32,
                saddr6: le_value_range(s, 24, 16),
                daddr6: le_value_range(s, 40, 16),
            },
        )
    }

    /// Deserializing a serialized record gives the record back, for every
    /// record.
    pub proof fn lemma_serialize_round_trip(self)
        ensures
            RawRule::spec_deserialize(self.spec_serialize()) == Some(self),
    {
        let s = self.spec_serialize();
        self.lemma_serialize_len();
        lemma_le_bytes_len(self.action as nat, 4);
        lemma_le_bytes_len(self.quick as nat, 4);
        lemma_le_bytes_len(self.proto as nat, 4);
        lemma_le_bytes_len(self.sport as nat, 2);
        lemma_le_bytes_len(self.dport as nat, 2);
        lemma_le_bytes_len(self.saddr4 as nat, 4);
        lemma_le_bytes_len(self.daddr4 as nat, 4);
        lemma_le_bytes_len(self.saddr6 as nat, 16);
        lemma_le_bytes_len(self.daddr6 as nat, 16);
        assert(s.subrange(0, 4) =~= le_bytes(self.action as nat, 4));
        assert(s.subrange(4, 8) =~= le_bytes(self.quick as nat, 4));
        assert(s.subrange(8, 12) =~= le_bytes(self.proto as nat, 4));
        assert(s.subrange(12, 14) =~= le_bytes(self.sport as nat, 2));
        assert(s.subrange(14, 16) =~= le_bytes(self.dport as nat, 2));
        assert(s.subrange(16, 20) =~= le_bytes(self.saddr4 as nat, 4));
        assert(s.subrange(20, 24) =~= le_bytes(self.daddr4 as nat, 4));
        assert(s.subrange(24, 40) =~= le_bytes(self.saddr6 as nat, 16));
        assert(s.subrange(40, 56) =~= le_bytes(self.daddr6 as nat, 16));
        lemma_pow256_values();
        lemma_le_value_of_le_bytes(self.action as nat, 4);
        lemma_le_value_of_le_bytes(self.quick as nat, 4);
        lemma_le_value_of_le_bytes(self.proto as nat, 4);
        lemma_le_value_of_le_bytes(self.sport as nat, 2);
        lemma_le_value_of_le_bytes(self.dport as nat, 2);
        lemma_le_value_of_le_bytes(self.saddr4 as nat, 4);
        lemma_le_value_of_le_bytes(self.daddr4 as nat, 4);
        lemma_le_value_of_le_bytes(self.saddr6 as nat, 16);
        lemma_le_value_of_le_bytes(self.daddr6 as nat, 16);
    }

    /// When the port and IPv4 address fields were filled with byte-swapped
    /// payloads, those payloads appear on the wire in network byte order:
    /// the serialized record carries the presentation-form values
    /// big-endian at the fields' offsets.
    pub proof fn lemma_network_order_fields(self, sport: u16, dport: u16, saddr4: u32, daddr4: u32)
        requires
            self.sport as nat == swapped(sport as nat, 2),
            self.dport as nat == swapped(dport as nat, 2),
            self.saddr4 as nat == swapped(saddr4 as nat, 4),
            self.daddr4 as nat == swapped(daddr4 as nat, 4),
        ensures
            self.spec_serialize().subrange(12, 14) == be_bytes(sport as nat, 2),
            self.spec_serialize().subrange(14, 16) == be_bytes(dport as nat, 2),
            self.spec_serialize().subrange(16, 20) == be_bytes(saddr4 as nat, 4),
            self.spec_serialize().subrange(20, 24) == be_bytes(daddr4 as nat, 4),
    {
        let s = self.spec_serialize();
        lemma_le_bytes_len(self.action as nat, 4);
        lemma_le_bytes_len(self.quick as nat, 4);
        lemma_le_bytes_len(self.proto as nat, 4);
        lemma_le_bytes_len(self.sport as nat, 2);
        lemma_le_bytes_len(self.dport as nat, 2);
        lemma_le_bytes_len(self.saddr4 as nat, 4);
        lemma_le_bytes_len(self.daddr4 as nat, 4);
        lemma_le_bytes_len(self.saddr6 as nat, 16);
        lemma_le_bytes_len(self.daddr6 as nat, 16);
        assert(s.subrange(12, 14) =~= le_bytes(self.sport as nat, 2));
        assert(s.subrange(14, 16) =~= le_bytes(self.dport as nat, 2));
        assert(s.subrange(16, 20) =~= le_bytes(self.saddr4 as nat, 4));
        assert(s.subrange(20, 24) =~= le_bytes(self.daddr4 as nat, 4));
        lemma_le_bytes_of_swapped(sport as nat, 2);
        lemma_le_bytes_of_swapped(dport as nat, 2);
        lemma_le_bytes_of_swapped(saddr4 as nat, 4);
        lemma_le_bytes_of_swapped(daddr4 as nat, 4);
    }
}

/// A finished rule: either one side of the rule-set default, or a wire
/// record for one IP family.
#[derive(Clone, Copy, Debug, PartialEq, Eq, Structural)]
pub enum InnerRule {
    DefaultRule(Action),
    IPv4Rule(RawRule),
    IPv6Rule(RawRule),
}

/// A built rule; immutable once built.
#[derive(Clone, Copy, Debug, PartialEq, Eq, Structural)]
pub struct Rule {
    pub(crate) inner: InnerRule,
}

impl Rule {
    pub closed spec fn spec_inner(self) -> InnerRule {
        self.inner
    }

    pub closed spec fn spec_new(inner: InnerRule) -> Rule {
        Rule { inner }
    }

    /// A rule made from an inner rule holds exactly that inner rule.
    pub broadcast proof fn lemma_spec_new(inner: InnerRule)
        ensures
            (#[trigger] Rule::spec_new(inner)).spec_inner() == inner,
    {
    }

    pub(crate) fn new(inner: InnerRule) -> (r: Rule)
        ensures
            r.spec_inner() == inner,
    {
        Rule { inner }
    }

    /// Takes the rule apart.
    pub fn get_rule(self) -> (r: InnerRule)
        ensures
            r == self.spec_inner(),
    {
        self.inner
    }
}

/// The staging record a `Builder` accumulates before `build`.
#[derive(Clone, Copy, Debug, PartialEq, Eq, Structural)]
pub struct Parts {
    pub action: Action,
    pub is_ipv6: bool,
    pub quick: bool,
    pub proto: Proto,
    pub saddr: Option<SockAddr>,
    pub daddr: Option<SockAddr>,
}

impl Parts {
    pub open spec fn spec_default() -> Parts {
        Parts {
            action: Action::Pass,
            is_ipv6: false,
            quick: false,
            proto: Proto::Any,
            saddr: None,
            daddr: None,
        }
    }
}

impl Default for Parts {
    fn default() -> (r: Self)
        ensures
            r == Parts::spec_default(),
    {
        Parts {
            action: Action::Pass,
            is_ipv6: false,
            quick: false,
            proto: Proto::Any,
            saddr: None,
            daddr: None,
        }
    }
}

/// Why `build` refuses a staging record.
#[derive(Clone, Copy, Debug, PartialEq, Eq, Structural)]
pub enum BuildIssue {
    /// Source and destination addresses are of different IP versions.
    VersionMismatch,
    /// The family forced with `set_ipv4`/`set_ipv6` disagrees with the
    /// family the addresses infer.
    ForcedMismatch,
}

/// The address a port lands on: the one already staged, else the
/// all-zero address of the current family.
pub open spec fn spec_with_port(prev: Option<SockAddr>, ipv6: bool, port: u16) -> SockAddr {
    match prev {
        Some(a) => SockAddr { ip: a.ip, port },
        None => SockAddr { ip: if ipv6 { Ip::V6(0) } else { Ip::V4(0) }, port },
    }
}

/// The wire record a staging record encodes to: numeric action, quick
/// and protocol codes, and each present address and port byte-swapped
/// into the field of its family.
pub open spec fn spec_raw(p: Parts) -> RawRule {
    RawRule {
        action: p.action.spec_code(),
        quick: if p.quick { 1 } else { 0 },
        proto: p.proto.spec_code(),
        sport: match p.saddr {
            Some(a) => swapped(a.port as nat, 2) as u16,
            None => 0,
        },
        dport: match p.daddr {
            Some(a) => swapped(a.port as nat, 2) as u16,
            None => 0,
        },
        saddr4: match p.saddr {
            Some(a) => match a.ip {
                Ip::V4(v) => swapped(v as nat, 4) as u32,
                Ip::V6(_) => 0,
            },
            None => 0,
        },
        daddr4: match p.daddr {
            Some(a) => match a.ip {
                Ip::V4(v) => swapped(v as nat, 4) as u32,
                Ip::V6(_) => 0,
            },
            None => 0,
        },
        saddr6: match p.saddr {
            Some(a) => match a.ip {
                Ip::V6(v) => swapped(v as nat, 16) as u128,
                Ip::V4(_) => 0,
            },
            None => 0,
        },
        daddr6: match p.daddr {
            Some(a) => match a.ip {
                Ip::V6(v) => swapped(v as nat, 16) as u128,
                Ip::V4(_) => 0,
            },
            None => 0,
        },
    }
}

/// The family a staging record infers: the source address decides when
/// present, else the destination, else the forced flag.
pub open spec fn spec_family_v6(p: Parts) -> bool {
    match (p.saddr, p.daddr) {
        (Some(s), Some(d)) => s.spec_is_v6(),
        (Some(s), None) => s.spec_is_v6(),
        (None, Some(d)) => d.spec_is_v6(),
        (None, None) => p.is_ipv6,
    }
}

/// What `build` does with a staging record: family validation, then the
/// encoded wire record wrapped by family.
pub open spec fn spec_build(p: Parts) -> Result<InnerRule, BuildIssue> {
    if p.saddr is Some && p.daddr is Some && p.saddr->0.spec_is_v6() != p.daddr->0.spec_is_v6() {
        Err(BuildIssue::VersionMismatch)
    } else if spec_family_v6(p) != p.is_ipv6 {
        Err(BuildIssue::ForcedMismatch)
    } else if spec_family_v6(p) {
        Ok(InnerRule::IPv6Rule(spec_raw(p)))
    } else {
        Ok(InnerRule::IPv4Rule(spec_raw(p)))
    }
}

/// Accumulates rule parts; chainable, and short-circuiting: once a step
/// has failed, every later step returns the same failure.
#[derive(Debug)]
pub struct Builder {
    pub(crate) inner: Result<Parts, Error>,
}

impl Builder {
    pub closed spec fn spec_inner(self) -> Result<Parts, Error> {
        self.inner
    }

    pub open spec fn spec_ok(self) -> bool {
        self.spec_inner() is Ok
    }

    pub open spec fn parts(self) -> Parts {
        self.spec_inner()->Ok_0
    }

    pub fn new() -> (r: Builder)
        ensures
            r.spec_inner() == Ok::<Parts, Error>(Parts::spec_default()),
    {
        Builder { inner: Ok(Parts::default()) }
    }

    /// Sets the verdict to `Pass`.
    pub fn pass(self) -> (r: Builder)
        ensures
            self.spec_ok() ==> r.spec_inner() == Ok::<Parts, Error>(
                Parts { action: Action::Pass, ..self.parts() },
            ),
            !self.spec_ok() ==> r.spec_inner() == self.spec_inner(),
    {
        match self.inner {
            Ok(p) => Builder { inner: Ok(Parts { action: Action::Pass, ..p }) },
            Err(e) => Builder { inner: Err(e) },
        }
    }

    /// Sets the verdict to `Block`.
    pub fn block(self) -> (r: Builder)
        ensures
            self.spec_ok() ==> r.spec_inner() == Ok::<Parts, Error>(
                Parts { action: Action::Block, ..self.parts() },
            ),
            !self.spec_ok() ==> r.spec_inner() == self.spec_inner(),
    {
        match self.inner {
            Ok(p) => Builder { inner: Ok(Parts { action: Action::Block, ..p }) },
            Err(e) => Builder { inner: Err(e) },
        }
    }

    /// Marks the rule quick: a match short-circuits evaluation.
    pub fn quick(self) -> (r: Builder)
        ensures
            self.spec_ok() ==> r.spec_inner() == Ok::<Parts, Error>(
                Parts { quick: true, ..self.parts() },
            ),
            !self.spec_ok() ==> r.spec_inner() == self.spec_inner(),
    {
        match self.inner {
            Ok(p) => Builder { inner: Ok(Parts { quick: true, ..p }) },
            Err(e) => Builder { inner: Err(e) },
        }
    }

    /// Selects the protocol: `"tcp"` or `"udp"`, case-insensitively;
    /// anything else fails the chain with an `InvalidInput` error.
    pub fn proto(self, proto: &str) -> (r: Builder)
        ensures
            self.spec_ok() && lower(proto@) == "udp"@ ==> r.spec_inner() == Ok::<Parts, Error>(
                Parts { proto: Proto::UDP, ..self.parts() },
            ),
            self.spec_ok() && lower(proto@) == "tcp"@ ==> r.spec_inner() == Ok::<Parts, Error>(
                Parts { proto: Proto::TCP, ..self.parts() },
            ),
            self.spec_ok() && lower(proto@) != "udp"@ && lower(proto@) != "tcp"@ ==> (r.spec_inner()
                matches Err(e) && e is InvalidInput),
            !self.spec_ok() ==> r.spec_inner() == self.spec_inner(),
    {
        proof {
            reveal_strlit("udp");
            reveal_strlit("tcp");
            assert("udp"@[0] == 'u' && "tcp"@[0] == 't');
            assert("udp"@ != "tcp"@);
        }
        match self.inner {
            Ok(p) => {
                let chars = str_to_chars(proto);
                let lc = to_lower(&chars);
                if chars_eq_str(&lc, "udp") {
                    Builder { inner: Ok(Parts { proto: Proto::UDP, ..p }) }
                } else if chars_eq_str(&lc, "tcp") {
                    Builder { inner: Ok(Parts { proto: Proto::TCP, ..p }) }
                } else {
                    Builder {
                        inner: Err(
                            Error::InvalidInput(
                                String::from_str("invalid protocol must be `tcp` or `udp`"),
                            ),
                        ),
                    }
                }
            },
            Err(e) => Builder { inner: Err(e) },
        }
    }

    /// Forces the rule's family to IPv4; `build` cross-checks it.
    pub fn set_ipv4(self) -> (r: Builder)
        ensures
            self.spec_ok() ==> r.spec_inner() == Ok::<Parts, Error>(
                Parts { is_ipv6: false, ..self.parts() },
            ),
            !self.spec_ok() ==> r.spec_inner() == self.spec_inner(),
    {
        match self.inner {
            Ok(p) => Builder { inner: Ok(Parts { is_ipv6: false, ..p }) },
            Err(e) => Builder { inner: Err(e) },
        }
    }

    /// Forces the rule's family to IPv6; `build` cross-checks it.
    pub fn set_ipv6(self) -> (r: Builder)
        ensures
            self.spec_ok() ==> r.spec_inner() == Ok::<Parts, Error>(
                Parts { is_ipv6: true, ..self.parts() },
            ),
            !self.spec_ok() ==> r.spec_inner() == self.spec_inner(),
    {
        match self.inner {
            Ok(p) => Builder { inner: Ok(Parts { is_ipv6: true, ..p }) },
            Err(e) => Builder { inner: Err(e) },
        }
    }

    /// Records the source as `IP` or `IP:port`; the inferred family
    /// follows the address.  An unparseable address fails the chain.
    pub fn from_addr(self, src: &str) -> (r: Builder)
        ensures
            self.spec_ok() ==> match spec_sock(src@) {
                Some(sa) => r.spec_inner() == Ok::<Parts, Error>(
                    Parts { saddr: Some(sa), is_ipv6: sa.spec_is_v6(), ..self.parts() },
                ),
                None => (r.spec_inner() matches Err(e) && e is InvalidInput),
            },
            !self.spec_ok() ==> r.spec_inner() == self.spec_inner(),
    {
        match self.inner {
            Ok(p) => {
                let chars = str_to_chars(src);
                match crate::ip::parse_sock_addr(&chars) {
                    Some(sa) => {
                        let v6 = sa.is_v6();
                        Builder { inner: Ok(Parts { saddr: Some(sa), is_ipv6: v6, ..p }) }
                    },
                    None => Builder {
                        inner: Err(Error::InvalidInput(String::from_str("invalid address"))),
                    },
                }
            },
            Err(e) => Builder { inner: Err(e) },
        }
    }

    /// Records the destination as `IP` or `IP:port`; the inferred family
    /// follows the address.  An unparseable address fails the chain.
    pub fn to_addr(self, dst: &str) -> (r: Builder)
        ensures
            self.spec_ok() ==> match spec_sock(dst@) {
                Some(sa) => r.spec_inner() == Ok::<Parts, Error>(
                    Parts { daddr: Some(sa), is_ipv6: sa.spec_is_v6(), ..self.parts() },
                ),
                None => (r.spec_inner() matches Err(e) && e is InvalidInput),
            },
            !self.spec_ok() ==> r.spec_inner() == self.spec_inner(),
    {
        match self.inner {
            Ok(p) => {
                let chars = str_to_chars(dst);
                match crate::ip::parse_sock_addr(&chars) {
                    Some(sa) => {
                        let v6 = sa.is_v6();
                        Builder { inner: Ok(Parts { daddr: Some(sa), is_ipv6: v6, ..p }) }
                    },
                    None => Builder {
                        inner: Err(Error::InvalidInput(String::from_str("invalid address"))),
                    },
                }
            },
            Err(e) => Builder { inner: Err(e) },
        }
    }

    /// Sets the source port, on the staged source address or on a fresh
    /// all-zero address of the current family.
    pub fn from_port(self, port: u16) -> (r: Builder)
        ensures
            self.spec_ok() ==> r.spec_inner() == Ok::<Parts, Error>(
                Parts {
                    saddr: Some(
                        spec_with_port(self.parts().saddr, self.parts().is_ipv6, port),
                    ),
                    ..self.parts()
                },
            ),
            !self.spec_ok() ==> r.spec_inner() == self.spec_inner(),
    {
        match self.inner {
            Ok(p) => {
                let base = match p.saddr {
                    Some(a) => a,
                    None => get_zero_addr(p.is_ipv6),
                };
                Builder {
                    inner: Ok(Parts { saddr: Some(SockAddr { ip: base.ip, port }), ..p }),
                }
            },
            Err(e) => Builder { inner: Err(e) },
        }
    }

    /// Sets the destination port, on the staged destination address or
    /// on a fresh all-zero address of the current family.
    pub fn to_port(self, port: u16) -> (r: Builder)
        ensures
            self.spec_ok() ==> r.spec_inner() == Ok::<Parts, Error>(
                Parts {
                    daddr: Some(
                        spec_with_port(self.parts().daddr, self.parts().is_ipv6, port),
                    ),
                    ..self.parts()
                },
            ),
            !self.spec_ok() ==> r.spec_inner() == self.spec_inner(),
    {
        match self.inner {
            Ok(p) => {
                let base = match p.daddr {
                    Some(a) => a,
                    None => get_zero_addr(p.is_ipv6),
                };
                Builder {
                    inner: Ok(Parts { daddr: Some(SockAddr { ip: base.ip, port }), ..p }),
                }
            },
            Err(e) => Builder { inner: Err(e) },
        }
    }

    /// Surfaces a failure the chain already holds, or hands the
    /// builder back unchanged.
    pub fn check(self) -> (r: Result<Builder, Error>)
        ensures
            self.spec_ok() ==> (r matches Ok(b) && b.spec_inner() == self.spec_inner()),
            !self.spec_ok() ==> r == Err::<Builder, Error>(self.spec_inner()->Err_0),
    {
        match self.inner {
            Ok(p) => Ok(Builder { inner: Ok(p) }),
            Err(e) => Err(e),
        }
    }

    /// Produces the rule-set default `Pass`, with no match criteria.
    pub fn pass_all(self) -> (r: Result<Rule, Error>)
        ensures
            self.spec_ok() ==> r == Ok::<Rule, Error>(
                Rule::spec_new(InnerRule::DefaultRule(Action::Pass)),
            ),
            !self.spec_ok() ==> r == Err::<Rule, Error>(self.spec_inner()->Err_0),
    {
        match self.inner {
            Ok(_) => Ok(Rule { inner: InnerRule::DefaultRule(Action::Pass) }),
            Err(e) => Err(e),
        }
    }

    /// Produces the rule-set default `Block`, with no match criteria.
    pub fn block_all(self) -> (r: Result<Rule, Error>)
        ensures
            self.spec_ok() ==> r == Ok::<Rule, Error>(
                Rule::spec_new(InnerRule::DefaultRule(Action::Block)),
            ),
            !self.spec_ok() ==> r == Err::<Rule, Error>(self.spec_inner()->Err_0),
    {
        match self.inner {
            Ok(_) => Ok(Rule { inner: InnerRule::DefaultRule(Action::Block) }),
            Err(e) => Err(e),
        }
    }

    /// Finalizes the staged parts into a rule: validates that the
    /// families agree and encodes the wire record.
    pub fn build(self) -> (r: Result<Rule, Error>)
        ensures
            self.spec_ok() ==> match spec_build(self.parts()) {
                Ok(ir) => r == Ok::<Rule, Error>(Rule::spec_new(ir)),
                Err(BuildIssue::VersionMismatch) => (r matches Err(e) && e matches Error::Build(m)
                    && m@ == "src & dst IP versions do not match"@),
                Err(BuildIssue::ForcedMismatch) => (r matches Err(e) && e matches Error::Build(m)
                    && m@ == "error: IP version mismatch"@),
            },
            !self.spec_ok() ==> r == Err::<Rule, Error>(self.spec_inner()->Err_0),
    {
        let p = match self.inner {
            Ok(p) => p,
            Err(e) => {
                return Err(e);
            },
        };
        let is_ipv6: bool = match (&p.saddr, &p.daddr) {
            (Some(s), Some(d)) => {
                if s.is_v6() != d.is_v6() {
                    return Err(
                        Error::Build(String::from_str("src & dst IP versions do not match")),
                    );
                }
                s.is_v6()
            },
            (Some(s), None) => s.is_v6(),
            (None, Some(d)) => d.is_v6(),
            (None, None) => p.is_ipv6,
        };
        if is_ipv6 != p.is_ipv6 {
            return Err(Error::Build(String::from_str("error: IP version mismatch")));
        }
        let mut raw = RawRule::default();
        if let Some(a) = p.saddr {
            raw.sport = swap_u16(a.port);
            match a.ip {
                Ip::V4(v) => {
                    raw.saddr4 = swap_u32(v);
                },
                Ip::V6(v) => {
                    raw.saddr6 = swap_u128(v);
                },
            }
        }
        if let Some(a) = p.daddr {
            raw.dport = swap_u16(a.port);
            match a.ip {
                Ip::V4(v) => {
                    raw.daddr4 = swap_u32(v);
                },
                Ip::V6(v) => {
                    raw.daddr6 = swap_u128(v);
                },
            }
        }
        raw.action = p.action.code();
        raw.quick = if p.quick {
            1
        } else {
            0
        };
        raw.proto = p.proto.code();
        proof {
            lemma_pow256_values();
            lemma_swapped_bound_all(p);
            assert(raw == spec_raw(p));
        }
        let inner_rule = if is_ipv6 {
            InnerRule::IPv6Rule(raw)
        } else {
            InnerRule::IPv4Rule(raw)
        };
        Ok(Rule { inner: inner_rule })
    }
}

proof fn lemma_swapped_bound_all(p: Parts)
    ensures
        forall|v: u16| #[trigger] swapped(v as nat, 2) < pow256(2),
        forall|v: u32| #[trigger] swapped(v as nat, 4) < pow256(4),
        forall|v: u128| #[trigger] swapped(v as nat, 16) < pow256(16),
{
    assert forall|v: u16| #[trigger] swapped(v as nat, 2) < pow256(2) by {
        lemma_swapped_bound(v as nat, 2);
    }
    assert forall|v: u32| #[trigger] swapped(v as nat, 4) < pow256(4) by {
        lemma_swapped_bound(v as nat, 4);
    }
    assert forall|v: u128| #[trigger] swapped(v as nat, 16) < pow256(16) by {
        lemma_swapped_bound(v as nat, 16);
    }
}

} // verus!
