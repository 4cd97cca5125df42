//! The parser: preprocessed tokens to typed rules.
//!
//! Grammar, per statement (terminated by a newline token or the end of
//! the stream):
//!
//! ```text
//! stmt   := action ( "all" | [proto_clause] from_clause [port_clause]
//!                    to_clause [port_clause] )
//! action := "pass" | "block"
//! ```
//!
//! `action all` sets the rule-set default instead of adding a match
//! rule.  The first `port` clause binds to the source, the second to
//! the destination.  Values are interpreted by the rule builder; the
//! first error aborts.
//!
//! `spec_parse` is the reference: `Parser::parse_statements` produces
//! exactly its rules.

use vstd::prelude::*;

use crate::error::Error;
use crate::ip::{port_ok, spec_sock, Ip, SockAddr};
use crate::rule::{
    spec_build, Action, BuildIssue, Builder, InnerRule, Parts, Proto, RawRule, Rule,
};
use crate::bytes::swapped;
use crate::filter::{addr_text, fold_rules, Filter};
use crate::text::{chars_to_string, dec_run_end_exec, dec_str, dec_value, dec_value_port, lower};
use crate::preproc::{spec_preprocess, tok_flat, PreFail};
use crate::token::{toks_view, Tok, Token};

verus! {

/// The ways parsing can fail.
pub enum ParseFail {
    /// A statement begins with something other than `pass` or `block`.
    ExpectedAction,
    /// No protocol word after `proto`.
    MissingProtoArg,
    /// The protocol word is neither `tcp` nor `udp`.
    BadProto(Seq<char>),
    /// No `from` clause where one is required.
    ExpectedFrom,
    /// No address word after `from`.
    MissingFromArg,
    /// No `to` clause where one is required.
    ExpectedTo,
    /// No address word after `to`.
    MissingToArg,
    /// No port word after `port`.
    MissingPortArg,
    /// An address word that does not parse.
    BadAddr(Seq<char>),
    /// A port that is not a number of at most 65535.
    BadPort(Seq<char>),
    /// A statement not terminated by a newline or the end of input.
    TrailingToken,
    /// The rule builder refused the assembled parts.
    BuildFailed(BuildIssue),
}

/// Which error a parse failure surfaces as.  Structural failures carry
/// exact parser messages; value failures surface the builder's own
/// error kind.
pub open spec fn parse_fail_matches(f: ParseFail, e: Error) -> bool {
    match f {
        ParseFail::ExpectedAction => e matches Error::Parse(m) && m@
            == "expected `pass` or `block` token"@,
        ParseFail::MissingProtoArg => e matches Error::Parse(m) && m@
            == "expected protocol after `proto`"@,
        ParseFail::BadProto(_) => e is InvalidInput,
        ParseFail::ExpectedFrom => e matches Error::Parse(m) && m@ == "expected token `from`"@,
        ParseFail::MissingFromArg => e matches Error::Parse(m) && m@
            == "expected src IP after `from`"@,
        ParseFail::ExpectedTo => e matches Error::Parse(m) && m@ == "expected token `to`"@,
        ParseFail::MissingToArg => e matches Error::Parse(m) && m@
            == "expected dst IP after `to`"@,
        ParseFail::MissingPortArg => e matches Error::Parse(m) && m@
            == "missing port after `port`"@,
        ParseFail::BadAddr(_) => e is InvalidInput,
        ParseFail::BadPort(w) => e matches Error::Parse(m) && m@ == "invalid port `"@ + w + "`"@,
        ParseFail::TrailingToken => e matches Error::Parse(m) && m@ == "expected end of rule"@,
        ParseFail::BuildFailed(_) => e is Build,
    }
}

/// First position at or after `i` that is not a newline token.
pub open spec fn skip_nls(ts: Seq<Tok>, i: int) -> int
    decreases ts.len() - i,
{
    if i < 0 || i >= ts.len() || !(ts[i] is Nl) {
        i
    } else {
        skip_nls(ts, i + 1)
    }
}

pub proof fn lemma_skip_nls(ts: Seq<Tok>, i: int)
    requires
        0 <= i <= ts.len(),
    ensures
        i <= skip_nls(ts, i) <= ts.len(),
        skip_nls(ts, i) < ts.len() ==> !(ts[skip_nls(ts, i)] is Nl),
    decreases ts.len() - i,
{
    if i < ts.len() && ts[i] is Nl {
        lemma_skip_nls(ts, i + 1);
    }
}

/// One statement starting at `i`: the rule it denotes and the position
/// after its terminator.
#[verifier::opaque]
pub open spec fn spec_stmt(ts: Seq<Tok>, i: int) -> Result<(Rule, int), ParseFail> {
    if i < 0 || i >= ts.len() || !(ts[i] is Pass || ts[i] is Block) {
        Err(ParseFail::ExpectedAction)
    } else {
        let act = if ts[i] is Pass {
            Action::Pass
        } else {
            Action::Block
        };
        let j = i + 1;
        if j < ts.len() && ts[j] is All {
            if j + 1 >= ts.len() || ts[j + 1] is Nl {
                Ok(
                    (
                        Rule::spec_new(InnerRule::DefaultRule(act)),
                        if j + 1 < ts.len() {
                            j + 2
                        } else {
                            ts.len() as int
                        },
                    ),
                )
            } else {
                Err(ParseFail::TrailingToken)
            }
        } else {
            let has_proto = j < ts.len() && ts[j] is Proto;
            if has_proto && !(j + 1 < ts.len() && ts[j + 1] is Val) {
                Err(ParseFail::MissingProtoArg)
            } else {
                let j2 = if has_proto {
                    j + 2
                } else {
                    j
                };
                let proto_bad = has_proto && lower(ts[j + 1]->Val_0) != "udp"@ && lower(
                    ts[j + 1]->Val_0,
                ) != "tcp"@;
                if proto_bad {
                    Err(ParseFail::BadProto(ts[j + 1]->Val_0))
                } else {
                    let proto = if !has_proto {
                        Proto::Any
                    } else if lower(ts[j + 1]->Val_0) == "udp"@ {
                        Proto::UDP
                    } else {
                        Proto::TCP
                    };
                    spec_stmt_from(ts, j2, act, proto)
                }
            }
        }
    }
}

/// The `from` clause and the source port of a statement.
#[verifier::opaque]
pub open spec fn spec_stmt_from(ts: Seq<Tok>, j2: int, act: Action, proto: Proto) -> Result<
    (Rule, int),
    ParseFail,
> {
    if !(j2 < ts.len() && ts[j2] is From) {
        Err(ParseFail::ExpectedFrom)
    } else if !(j2 + 1 < ts.len() && ts[j2 + 1] is Val) {
        Err(ParseFail::MissingFromArg)
    } else {
        let stxt = ts[j2 + 1]->Val_0;
        let j3 = j2 + 2;
        match spec_sock(stxt) {
            None => Err(ParseFail::BadAddr(stxt)),
            Some(sa) => {
                let has_sport = j3 < ts.len() && ts[j3] is Port;
                if has_sport && !(j3 + 1 < ts.len() && ts[j3 + 1] is Val) {
                    Err(ParseFail::MissingPortArg)
                } else {
                    let j4 = if has_sport {
                        j3 + 2
                    } else {
                        j3
                    };
                    let sport_bad = has_sport && !port_ok(ts[j3 + 1]->Val_0);
                    if sport_bad {
                        Err(ParseFail::BadPort(ts[j3 + 1]->Val_0))
                    } else {
                        let sa2 = if has_sport {
                            SockAddr { ip: sa.ip, port: dec_value(ts[j3 + 1]->Val_0) as u16 }
                        } else {
                            sa
                        };
                        spec_stmt_to(ts, j4, act, proto, sa2)
                    }
                }
            },
        }
    }
}

/// The `to` clause and the finish of a statement.
#[verifier::opaque]
pub open spec fn spec_stmt_to(ts: Seq<Tok>, j4: int, act: Action, proto: Proto, sa2: SockAddr)
    -> Result<(Rule, int), ParseFail> {
    if !(j4 < ts.len() && ts[j4] is To) {
        Err(ParseFail::ExpectedTo)
    } else if !(j4 + 1 < ts.len() && ts[j4 + 1] is Val) {
        Err(ParseFail::MissingToArg)
    } else {
        let dtxt = ts[j4 + 1]->Val_0;
        let j5 = j4 + 2;
        match spec_sock(dtxt) {
            None => Err(ParseFail::BadAddr(dtxt)),
            Some(da) => {
                let has_dport = j5 < ts.len() && ts[j5] is Port;
                if has_dport && !(j5 + 1 < ts.len() && ts[j5 + 1] is Val) {
                    Err(ParseFail::MissingPortArg)
                } else {
                    let j6 = if has_dport {
                        j5 + 2
                    } else {
                        j5
                    };
                    let dport_bad = has_dport && !port_ok(ts[j5 + 1]->Val_0);
                    if dport_bad {
                        Err(ParseFail::BadPort(ts[j5 + 1]->Val_0))
                    } else {
                        let da2 = if has_dport {
                            SockAddr { ip: da.ip, port: dec_value(ts[j5 + 1]->Val_0) as u16 }
                        } else {
                            da
                        };
                        if !(j6 >= ts.len() || ts[j6] is Nl) {
                            Err(ParseFail::TrailingToken)
                        } else {
                            let parts = Parts {
                                action: act,
                                is_ipv6: da2.spec_is_v6(),
                                quick: false,
                                proto,
                                saddr: Some(sa2),
                                daddr: Some(da2),
                            };
                            match spec_build(parts) {
                                Ok(ir) => Ok(
                                    (
                                        Rule::spec_new(ir),
                                        if j6 < ts.len() {
                                            j6 + 1
                                        } else {
                                            ts.len() as int
                                        },
                                    ),
                                ),
                                Err(issue) => Err(ParseFail::BuildFailed(issue)),
                            }
                        }
                    }
                }
            }
        }
    }
}

pub proof fn lemma_spec_stmt_next(ts: Seq<Tok>, i: int)
    requires
        0 <= i < ts.len(),
    ensures
        spec_stmt(ts, i) matches Ok((rule, next)) ==> i < next <= ts.len(),
{
    reveal(spec_stmt);
    reveal(spec_stmt_from);
    reveal(spec_stmt_to);
}

/// The rules of the whole stream from position `i` on, runs of
/// newlines between statements skipped.  This is the reference parser.
pub open spec fn spec_parse(ts: Seq<Tok>, i: int) -> Result<Seq<Rule>, ParseFail>
    decreases ts.len() + 1 - i,
        via spec_parse_dec
{
    if i < 0 {
        Ok(Seq::empty())
    } else {
        let j = skip_nls(ts, i);
        if j >= ts.len() {
            Ok(Seq::empty())
        } else {
            match spec_stmt(ts, j) {
                Ok((rule, next)) => match spec_parse(ts, next) {
                    Ok(rest) => Ok(seq![rule] + rest),
                    Err(f) => Err(f),
                },
                Err(f) => Err(f),
            }
        }
    }
}

#[via_fn]
proof fn spec_parse_dec(ts: Seq<Tok>, i: int) {
    if i >= 0 && i <= ts.len() {
        lemma_skip_nls(ts, i);
        let j = skip_nls(ts, i);
        if j < ts.len() {
            lemma_spec_stmt_next(ts, j);
        }
    }
}

/// The parser: a token stream, a cursor, and the rules built so far.
pub struct Parser {
    tokens: Vec<Token>,
    pos: usize,
    rules: Vec<Rule>,
}

impl Parser {
    pub closed spec fn spec_toks(self) -> Seq<Tok> {
        toks_view(self.tokens@)
    }

    pub closed spec fn spec_pos(self) -> int {
        self.pos as int
    }

    pub closed spec fn spec_rules(self) -> Seq<Rule> {
        self.rules@
    }

    pub open spec fn wf(self) -> bool {
        0 <= self.spec_pos() <= self.spec_toks().len()
    }

    pub fn new(tokens: Vec<Token>) -> (r: Parser)
        ensures
            r.spec_toks() == toks_view(tokens@),
            r.spec_pos() == 0,
            r.spec_rules() == Seq::<Rule>::empty(),
            r.wf(),
    {
        let r = Parser { tokens, pos: 0, rules: Vec::new() };
        proof {
            assert(r.spec_rules() =~= Seq::<Rule>::empty());
        }
        r
    }

    /// Reads the `Val` argument of a clause, if the next token is one.
    fn read_arg(&mut self) -> (r: Option<Vec<char>>)
        requires
            old(self).wf(),
        ensures
            final(self).wf(),
            final(self).spec_toks() == old(self).spec_toks(),
            final(self).spec_rules() == old(self).spec_rules(),
            ({
                let ts = old(self).spec_toks();
                let i = old(self).spec_pos();
                match r {
                    Some(w) => {
                        &&& i < ts.len()
                        &&& ts[i] is Val
                        &&& w@ == ts[i]->Val_0
                        &&& final(self).spec_pos() == i + 1
                    },
                    None => (i >= ts.len() || !(ts[i] is Val)) && final(self).spec_pos() == i,
                }
            }),
    {
        if self.pos < self.tokens.len() {
            match &self.tokens[self.pos] {
                Token::Val(w) => {
                    let c = crate::token::copy_chars(w);
                    self.pos = self.pos + 1;
                    Some(c)
                },
                _ => None,
            }
        } else {
            None
        }
    }

    /// Parses one statement, the cursor standing on its first token.
    #[verifier::rlimit(100)]
    #[verifier::spinoff_prover]
    fn parse_statement(&mut self) -> (r: Result<(), Error>)
        requires
            old(self).wf(),
            old(self).spec_pos() < old(self).spec_toks().len(),
        ensures
            final(self).wf(),
            final(self).spec_toks() == old(self).spec_toks(),
            ({
                let ts = old(self).spec_toks();
                let i = old(self).spec_pos();
                match r {
                    Ok(()) => {
                        &&& spec_stmt(ts, i) matches Ok((rule, next))
                        &&& final(self).spec_rules() == old(self).spec_rules().push(
                            spec_stmt(ts, i)->Ok_0.0,
                        )
                        &&& final(self).spec_pos() == spec_stmt(ts, i)->Ok_0.1
                    },
                    Err(e) => {
                        &&& spec_stmt(ts, i) matches Err(f)
                        &&& parse_fail_matches(spec_stmt(ts, i)->Err_0, e)
                    },
                }
            }),
            r is Err ==> final(self).spec_rules() == old(self).spec_rules(),
    {
        let ghost ts = self.spec_toks();
        let ghost i = self.spec_pos();
        proof {
            assert(ts.len() == self.tokens@.len());
        }
        let mut builder = Builder::new();
        let is_pass = matches!(&self.tokens[self.pos], Token::Pass);
        let is_block = matches!(&self.tokens[self.pos], Token::Block);
        if !is_pass && !is_block {
            proof {
                reveal(spec_stmt);
                assert(spec_stmt(ts, i) == Err::<(Rule, int), ParseFail>(
                    ParseFail::ExpectedAction,
                ));
            }
            return Err(Error::Parse(String::from_str("expected `pass` or `block` token")));
        }
        let ghost act = if is_pass {
            Action::Pass
        } else {
            Action::Block
        };
        builder = if is_pass {
            builder.pass()
        } else {
            builder.block()
        };
        let n = self.tokens.len();
        proof {
            assert(self.pos < n);
        }
        self.pos = self.pos + 1;
        // `action all` sets the rule-set default
        if self.pos < self.tokens.len() && matches!(&self.tokens[self.pos], Token::All) {
            self.pos = self.pos + 1;
            if self.pos < self.tokens.len() && !(matches!(&self.tokens[self.pos], Token::Nl)) {
                proof {
                    reveal(spec_stmt);
                    assert(spec_stmt(ts, i) == Err::<(Rule, int), ParseFail>(
                        ParseFail::TrailingToken,
                    ));
                }
                return Err(Error::Parse(String::from_str("expected end of rule")));
            }
            if self.pos < self.tokens.len() {
                self.pos = self.pos + 1;
            }
            let rule = if is_pass {
                match builder.pass_all() {
                    Ok(r) => r,
                    Err(e) => {
                        return Err(e);
                    },
                }
            } else {
                match builder.block_all() {
                    Ok(r) => r,
                    Err(e) => {
                        return Err(e);
                    },
                }
            };
            self.rules.push(rule);
            proof {
                reveal(spec_stmt);
                assert(spec_stmt(ts, i) matches Ok(p) && p.0 == rule && p.1
                    == self.spec_pos());
            }
            return Ok(());
        }
        // optional proto clause
        let ghost mut proto: Proto = Proto::Any;
        if self.pos < self.tokens.len() && matches!(&self.tokens[self.pos], Token::Proto) {
            self.pos = self.pos + 1;
            let arg = match self.read_arg() {
                Some(w) => w,
                None => {
                    proof {
                        reveal(spec_stmt);
                        assert(spec_stmt(ts, i) == Err::<(Rule, int), ParseFail>(
                            ParseFail::MissingProtoArg,
                        ));
                    }
                    return Err(
                        Error::Parse(String::from_str("expected protocol after `proto`")),
                    );
                },
            };
            let txt = chars_to_string(&arg);
            builder = match builder.proto(txt.as_str()).check() {
                Ok(b) => b,
                Err(e) => {
                    proof {
                        reveal(spec_stmt);
                        assert(spec_stmt(ts, i) == Err::<(Rule, int), ParseFail>(
                            ParseFail::BadProto(arg@),
                        ));
                    }
                    return Err(e);
                },
            };
            proof {
                if lower(arg@) == "udp"@ {
                    proto = Proto::UDP;
                } else {
                    proto = Proto::TCP;
                }
            }
        }
        proof {
            reveal(spec_stmt);
            assert(spec_stmt(ts, i) == spec_stmt_from(ts, self.spec_pos(), act, proto));
        }
        self.parse_stmt_from(builder, Ghost(act), Ghost(proto))
    }

    /// Parses the `from` clause and the source port.
    #[verifier::rlimit(100)]
    #[verifier::spinoff_prover]
    fn parse_stmt_from(
        &mut self,
        builder: Builder,
        act: Ghost<Action>,
        proto: Ghost<Proto>,
    ) -> (r: Result<(), Error>)
        requires
            old(self).wf(),
            builder.spec_inner() == Ok::<Parts, Error>(
                Parts {
                    action: act@,
                    is_ipv6: false,
                    quick: false,
                    proto: proto@,
                    saddr: None,
                    daddr: None,
                },
            ),
        ensures
            final(self).wf(),
            final(self).spec_toks() == old(self).spec_toks(),
            ({
                let ts = old(self).spec_toks();
                let i = old(self).spec_pos();
                match r {
                    Ok(()) => {
                        &&& spec_stmt_from(ts, i, act@, proto@) matches Ok((rule, next))
                        &&& final(self).spec_rules() == old(self).spec_rules().push(
                            spec_stmt_from(ts, i, act@, proto@)->Ok_0.0,
                        )
                        &&& final(self).spec_pos() == spec_stmt_from(ts, i, act@, proto@)->Ok_0.1
                    },
                    Err(e) => {
                        &&& spec_stmt_from(ts, i, act@, proto@) matches Err(f)
                        &&& parse_fail_matches(spec_stmt_from(ts, i, act@, proto@)->Err_0, e)
                    },
                }
            }),
            r is Err ==> final(self).spec_rules() == old(self).spec_rules(),
    {
        let ghost ts = self.spec_toks();
        let ghost i = self.spec_pos();
        let mut builder = builder;
        // from clause
        if !(self.pos < self.tokens.len() && matches!(&self.tokens[self.pos], Token::From)) {
            proof {
                reveal(spec_stmt_from);
                assert(spec_stmt_from(ts, i, act@, proto@) == Err::<(Rule, int), ParseFail>(
                    ParseFail::ExpectedFrom,
                ));
            }
            return Err(Error::Parse(String::from_str("expected token `from`")));
        }
        self.pos = self.pos + 1;
        let sarg = match self.read_arg() {
            Some(w) => w,
            None => {
                proof {
                    reveal(spec_stmt_from);
                    assert(spec_stmt_from(ts, i, act@, proto@) == Err::<(Rule, int), ParseFail>(
                        ParseFail::MissingFromArg,
                    ));
                }
                return Err(Error::Parse(String::from_str("expected src IP after `from`")));
            },
        };
        let stxt = chars_to_string(&sarg);
        builder = match builder.from_addr(stxt.as_str()).check() {
            Ok(b) => b,
            Err(e) => {
                proof {
                    reveal(spec_stmt_from);
                    assert(spec_stmt_from(ts, i, act@, proto@) == Err::<(Rule, int), ParseFail>(
                        ParseFail::BadAddr(sarg@),
                    ));
                }
                return Err(e);
            },
        };
        let ghost mut sa2: SockAddr = spec_sock(sarg@)->0;
        // optional source port clause
        if self.pos < self.tokens.len() && matches!(&self.tokens[self.pos], Token::Port) {
            self.pos = self.pos + 1;
            let parg = match self.read_arg() {
                Some(w) => w,
                None => {
                    proof {
                        reveal(spec_stmt_from);
                        assert(spec_stmt_from(ts, i, act@, proto@) == Err::<
                            (Rule, int),
                            ParseFail,
                        >(ParseFail::MissingPortArg));
                    }
                    return Err(Error::Parse(String::from_str("missing port after `port`")));
                },
            };
            match parse_port(&parg) {
                Some(p) => {
                    builder = builder.from_port(p);
                    proof {
                        sa2 = SockAddr { ip: sa2.ip, port: (dec_value(parg@) as u16) };
                    }
                },
                None => {
                    proof {
                        reveal(spec_stmt_from);
                        assert(spec_stmt_from(ts, i, act@, proto@) == Err::<
                            (Rule, int),
                            ParseFail,
                        >(ParseFail::BadPort(parg@)));
                    }
                    return Err(Error::Parse(port_msg(&parg)));
                },
            }
        }
        proof {
            reveal(spec_stmt_from);
            assert(spec_stmt_from(ts, i, act@, proto@) == spec_stmt_to(
                ts,
                self.spec_pos(),
                act@,
                proto@,
                sa2,
            ));
        }
        self.parse_stmt_tail(builder, act, proto, Ghost(sa2))
    }


    /// Parses the `to` clause and finishes the statement.
    #[verifier::rlimit(100)]
    #[verifier::spinoff_prover]
    fn parse_stmt_tail(
        &mut self,
        builder: Builder,
        act: Ghost<Action>,
        proto: Ghost<Proto>,
        sa2: Ghost<SockAddr>,
    ) -> (r: Result<(), Error>)
        requires
            old(self).wf(),
            builder.spec_inner() == Ok::<Parts, Error>(
                Parts {
                    action: act@,
                    is_ipv6: sa2@.spec_is_v6(),
                    quick: false,
                    proto: proto@,
                    saddr: Some(sa2@),
                    daddr: None,
                },
            ),
        ensures
            final(self).wf(),
            final(self).spec_toks() == old(self).spec_toks(),
            ({
                let ts = old(self).spec_toks();
                let i = old(self).spec_pos();
                match r {
                    Ok(()) => {
                        &&& spec_stmt_to(ts, i, act@, proto@, sa2@) matches Ok((rule, next))
                        &&& final(self).spec_rules() == old(self).spec_rules().push(
                            spec_stmt_to(ts, i, act@, proto@, sa2@)->Ok_0.0,
                        )
                        &&& final(self).spec_pos() == spec_stmt_to(
                            ts,
                            i,
                            act@,
                            proto@,
                            sa2@,
                        )->Ok_0.1
                    },
                    Err(e) => {
                        &&& spec_stmt_to(ts, i, act@, proto@, sa2@) matches Err(f)
                        &&& parse_fail_matches(spec_stmt_to(ts, i, act@, proto@, sa2@)->Err_0, e)
                    },
                }
            }),
            r is Err ==> final(self).spec_rules() == old(self).spec_rules(),
    {
        let ghost ts = self.spec_toks();
        let ghost i = self.spec_pos();
        let mut builder = builder;
        // to clause
        if !(self.pos < self.tokens.len() && matches!(&self.tokens[self.pos], Token::To)) {
            proof {
                reveal(spec_stmt_to);
                assert(spec_stmt_to(ts, i, act@, proto@, sa2@) == Err::<(Rule, int), ParseFail>(
                    ParseFail::ExpectedTo,
                ));
            }
            return Err(Error::Parse(String::from_str("expected token `to`")));
        }
        self.pos = self.pos + 1;
        let darg = match self.read_arg() {
            Some(w) => w,
            None => {
                proof {
                    reveal(spec_stmt_to);
                    assert(spec_stmt_to(ts, i, act@, proto@, sa2@) == Err::<
                        (Rule, int),
                        ParseFail,
                    >(ParseFail::MissingToArg));
                }
                return Err(Error::Parse(String::from_str("expected dst IP after `to`")));
            },
        };
        let dtxt = chars_to_string(&darg);
        builder = match builder.to_addr(dtxt.as_str()).check() {
            Ok(b) => b,
            Err(e) => {
                proof {
                    reveal(spec_stmt_to);
                    assert(spec_stmt_to(ts, i, act@, proto@, sa2@) == Err::<
                        (Rule, int),
                        ParseFail,
                    >(ParseFail::BadAddr(darg@)));
                }
                return Err(e);
            },
        };
        let ghost mut da2: SockAddr = spec_sock(darg@)->0;
        // optional destination port clause
        if self.pos < self.tokens.len() && matches!(&self.tokens[self.pos], Token::Port) {
            self.pos = self.pos + 1;
            let parg = match self.read_arg() {
                Some(w) => w,
                None => {
                    proof {
                        reveal(spec_stmt_to);
                        assert(spec_stmt_to(ts, i, act@, proto@, sa2@) == Err::<
                            (Rule, int),
                            ParseFail,
                        >(ParseFail::MissingPortArg));
                    }
                    return Err(Error::Parse(String::from_str("missing port after `port`")));
                },
            };
            match parse_port(&parg) {
                Some(p) => {
                    builder = builder.to_port(p);
                    proof {
                        da2 = SockAddr { ip: da2.ip, port: (dec_value(parg@) as u16) };
                    }
                },
                None => {
                    proof {
                        reveal(spec_stmt_to);
                        assert(spec_stmt_to(ts, i, act@, proto@, sa2@) == Err::<
                            (Rule, int),
                            ParseFail,
                        >(ParseFail::BadPort(parg@)));
                    }
                    return Err(Error::Parse(port_msg(&parg)));
                },
            }
        }
        // terminator
        if self.pos < self.tokens.len() && !(matches!(&self.tokens[self.pos], Token::Nl)) {
            proof {
                reveal(spec_stmt_to);
                assert(spec_stmt_to(ts, i, act@, proto@, sa2@) == Err::<(Rule, int), ParseFail>(
                    ParseFail::TrailingToken,
                ));
            }
            return Err(Error::Parse(String::from_str("expected end of rule")));
        }
        if self.pos < self.tokens.len() {
            self.pos = self.pos + 1;
        }
        proof {
            reveal(spec_stmt_to);
        }
        match builder.build() {
            Ok(rule) => {
                self.rules.push(rule);
                Ok(())
            },
            Err(e) => Err(e),
        }
    }

    /// Parses statements until the stream ends; the first error aborts.
    #[verifier::rlimit(100)]
    #[verifier::spinoff_prover]
    pub fn parse_statements(&mut self) -> (r: Result<(), Error>)
        requires
            old(self).wf(),
        ensures
            final(self).wf(),
            final(self).spec_toks() == old(self).spec_toks(),
            ({
                let ts = old(self).spec_toks();
                let i = old(self).spec_pos();
                match r {
                    Ok(()) => {
                        &&& spec_parse(ts, i) matches Ok(rs)
                        &&& final(self).spec_rules() == old(self).spec_rules() + spec_parse(
                            ts,
                            i,
                        )->Ok_0
                    },
                    Err(e) => {
                        &&& spec_parse(ts, i) matches Err(f)
                        &&& parse_fail_matches(spec_parse(ts, i)->Err_0, e)
                    },
                }
            }),
    {
        let ghost ts = self.spec_toks();
        let ghost start = self.spec_pos();
        let ghost rules0 = self.spec_rules();
        let mut failure: Option<Error> = None;
        loop
            invariant_except_break
                failure is None,
                match spec_parse(ts, self.spec_pos()) {
                    Ok(rest) => spec_parse(ts, start) == Ok::<_, ParseFail>(
                        self.spec_rules().skip(rules0.len() as int) + rest,
                    ) && self.spec_rules().subrange(0, rules0.len() as int) == rules0,
                    Err(f) => spec_parse(ts, start) == Err::<Seq<Rule>, _>(f),
                },
            invariant
                self.wf(),
                self.spec_toks() == ts,
                0 <= start <= ts.len(),
                self.spec_rules().len() >= rules0.len(),
            ensures
                match failure {
                    None => spec_parse(ts, start) == Ok::<_, ParseFail>(
                        self.spec_rules().skip(rules0.len() as int),
                    ) && self.spec_rules().subrange(0, rules0.len() as int) == rules0,
                    Some(err) => {
                        &&& spec_parse(ts, start) matches Err(f)
                        &&& parse_fail_matches(spec_parse(ts, start)->Err_0, err)
                    },
                },
            decreases ts.len() - self.spec_pos(),
        {
            // skip newline runs between statements
            let ghost p0 = self.spec_pos();
            let ghost r0 = self.spec_rules();
            while self.pos < self.tokens.len() && matches!(&self.tokens[self.pos], Token::Nl)
                invariant
                    self.wf(),
                    self.spec_toks() == ts,
                    p0 <= self.spec_pos(),
                    skip_nls(ts, p0) == skip_nls(ts, self.spec_pos()),
                    self.spec_rules() == r0,
                decreases ts.len() - self.spec_pos(),
            {
                self.pos = self.pos + 1;
            }
            proof {
                assert(skip_nls(ts, self.spec_pos()) == self.spec_pos());
            }
            if self.pos >= self.tokens.len() {
                proof {
                    let done = self.spec_rules().skip(rules0.len() as int);
                    assert(done + Seq::<Rule>::empty() =~= done);
                }
                break ;
            }
            let ghost before = self.spec_pos();
            let ghost rules_before = self.spec_rules();
            match self.parse_statement() {
                Ok(()) => {
                    proof {
                        lemma_spec_stmt_next(ts, before);
                        let (rule, next) = spec_stmt(ts, before)->Ok_0;
                        match spec_parse(ts, next) {
                            Ok(rest) => {
                                assert(self.spec_rules().skip(rules0.len() as int) + rest
                                    =~= rules_before.skip(rules0.len() as int) + (seq![rule]
                                    + rest));
                                assert(self.spec_rules().subrange(0, rules0.len() as int)
                                    =~= rules_before.subrange(0, rules0.len() as int));
                            },
                            Err(_) => {},
                        }
                    }
                },
                Err(e) => {
                    failure = Some(e);
                    break ;
                },
            }
        }
        if let Some(err) = failure {
            return Err(err);
        }
        proof {
            assert(rules0 + self.spec_rules().skip(rules0.len() as int) =~= self.spec_rules());
        }
        Ok(())
    }

    /// Hands the parsed rules out.
    pub fn get_rules(self) -> (r: Vec<Rule>)
        ensures
            r@ == self.spec_rules(),
    {
        self.rules
    }
}

/// The value of a port word, when it is all digits and at most 65535.
fn parse_port(w: &Vec<char>) -> (r: Option<u16>)
    ensures
        match r {
            Some(p) => port_ok(w@) && p == dec_value(w@),
            None => !port_ok(w@),
        },
{
    if w.len() == 0 {
        return None;
    }
    let e = dec_run_end_exec(w, 0);
    proof {
        crate::text::lemma_dec_run_end(w@, 0);
    }
    if e != w.len() {
        return None;
    }
    proof {
        assert(w@.subrange(0, w@.len() as int) =~= w@);
    }
    match dec_value_port(w, 0, w.len()) {
        Some(p) => Some(p),
        None => None,
    }
}

fn port_msg(w: &Vec<char>) -> (r: String)
    ensures
        r@ == "invalid port `"@ + w@ + "`"@,
{
    let mut m = String::from_str("invalid port `");
    let n = chars_to_string(w);
    m.append(n.as_str());
    m.append("`");
    m
}


// ---------------------------------------------------------------------
// Round trip of a rendered rule line
// ---------------------------------------------------------------------
/// A wire record as `build` produces it: a real verdict, no quick flag
/// from the grammar, a known protocol code, and only the fields of its
/// family filled.
pub open spec fn built_rule_wf(raw: RawRule, v6: bool) -> bool {
    &&& (raw.action == 1 || raw.action == 2)
    &&& raw.quick == 0
    &&& (raw.proto == 0 || raw.proto == 6 || raw.proto == 17)
    &&& if v6 {
        raw.saddr4 == 0 && raw.daddr4 == 0
    } else {
        raw.saddr6 == 0 && raw.daddr6 == 0
    }
}

/// The token sequence of a rule's rendered configuration line.
pub open spec fn rule_line_toks(raw: RawRule, v6: bool) -> Seq<Tok> {
    let atok = if raw.action == 1 {
        Tok::Block
    } else {
        Tok::Pass
    };
    let ptoks = if raw.proto == 6 {
        seq![Tok::Proto, Tok::Val("tcp"@)]
    } else if raw.proto == 17 {
        seq![Tok::Proto, Tok::Val("udp"@)]
    } else {
        Seq::<Tok>::empty()
    };
    let stoks = if swapped(raw.sport as nat, 2) == 0 {
        Seq::<Tok>::empty()
    } else {
        seq![Tok::Port, Tok::Val(dec_str(swapped(raw.sport as nat, 2)))]
    };
    let dtoks = if swapped(raw.dport as nat, 2) == 0 {
        Seq::<Tok>::empty()
    } else {
        seq![Tok::Port, Tok::Val(dec_str(swapped(raw.dport as nat, 2)))]
    };
    seq![atok] + ptoks + seq![Tok::From, Tok::Val(addr_text(raw.saddr4, raw.saddr6, v6))] + stoks
        + seq![Tok::To, Tok::Val(addr_text(raw.daddr4, raw.daddr6, v6))] + dtoks + seq![Tok::Nl]
}

proof fn lemma_lower_fixed()
    ensures
        lower("tcp"@) == "tcp"@,
        lower("udp"@) == "udp"@,
        "tcp"@ != "udp"@,
    decreases 0nat,
{
    reveal_strlit("tcp");
    reveal_strlit("udp");
    assert(crate::text::lower_char('t') == 't');
    assert(crate::text::lower_char('c') == 'c');
    assert(crate::text::lower_char('p') == 'p');
    assert(crate::text::lower_char('u') == 'u');
    assert(crate::text::lower_char('d') == 'd');
    assert(lower("tcp"@) =~= "tcp"@);
    assert(lower("udp"@) =~= "udp"@);
    assert("tcp"@[0] == 't' && "udp"@[0] == 'u');
}

/// The verdict a rendered line carries.
pub open spec fn rendered_act(raw: RawRule) -> Action {
    if raw.action == 1 {
        Action::Block
    } else {
        Action::Pass
    }
}

/// The protocol selector a rendered line carries.
pub open spec fn rendered_proto(raw: RawRule) -> Proto {
    if raw.proto == 6 {
        Proto::TCP
    } else if raw.proto == 17 {
        Proto::UDP
    } else {
        Proto::Any
    }
}

/// The source endpoint a rendered line denotes.
pub open spec fn rendered_sa2(raw: RawRule, v6: bool) -> SockAddr {
    SockAddr {
        ip: if v6 {
            Ip::V6(swapped(raw.saddr6 as nat, 16) as u128)
        } else {
            Ip::V4(swapped(raw.saddr4 as nat, 4) as u32)
        },
        port: swapped(raw.sport as nat, 2) as u16,
    }
}

/// The destination endpoint a rendered line denotes.
pub open spec fn rendered_da2(raw: RawRule, v6: bool) -> SockAddr {
    SockAddr {
        ip: if v6 {
            Ip::V6(swapped(raw.daddr6 as nat, 16) as u128)
        } else {
            Ip::V4(swapped(raw.daddr4 as nat, 4) as u32)
        },
        port: swapped(raw.dport as nat, 2) as u16,
    }
}

/// The inner rule a rendered line should parse back to.
pub open spec fn rendered_inner(raw: RawRule, v6: bool) -> InnerRule {
    if v6 {
        InnerRule::IPv6Rule(raw)
    } else {
        InnerRule::IPv4Rule(raw)
    }
}

/// The rule a rendered line should parse back to.
pub open spec fn rendered_rule(raw: RawRule, v6: bool) -> Rule {
    Rule::spec_new(rendered_inner(raw, v6))
}

/// The shape of the tokens from the `from` clause to the end of the
/// line, which finishes at `fin` with its newline.
pub open spec fn rendered_from_ok(raw: RawRule, v6: bool, ts: Seq<Tok>, b: int, fin: int) -> bool {
    let spres = swapped(raw.sport as nat, 2);
    &&& ts[b] == Tok::From
    &&& ts[b + 1] == Tok::Val(addr_text(raw.saddr4, raw.saddr6, v6))
    &&& (spres == 0 ==> rendered_tail_ok(raw, v6, ts, b + 2, fin))
    &&& (spres != 0 ==> ts[b + 2] == Tok::Port && ts[b + 3] == Tok::Val(dec_str(spres))
        && rendered_tail_ok(raw, v6, ts, b + 4, fin))
}

/// The shape of the tokens from the `to` clause to the end of the
/// line, which finishes at `fin` with its newline.
pub open spec fn rendered_tail_ok(raw: RawRule, v6: bool, ts: Seq<Tok>, d0: int, fin: int) -> bool {
    let dpres = swapped(raw.dport as nat, 2);
    &&& fin <= ts.len()
    &&& ts[d0] == Tok::To
    &&& ts[d0 + 1] == Tok::Val(addr_text(raw.daddr4, raw.daddr6, v6))
    &&& (dpres == 0 ==> fin == d0 + 3 && ts[d0 + 2] == Tok::Nl)
    &&& (dpres != 0 ==> fin == d0 + 5 && ts[d0 + 2] == Tok::Port && ts[d0 + 3] == Tok::Val(
        dec_str(dpres),
    ) && ts[d0 + 4] == Tok::Nl)
}

/// Building the parts a rendered line denotes reproduces the record.
proof fn lemma_build_of_rendered(raw: RawRule, v6: bool, parts: Parts)
    requires
        built_rule_wf(raw, v6),
        parts.action == rendered_act(raw),
        parts.quick == false,
        parts.proto == rendered_proto(raw),
        parts.saddr == Some(rendered_sa2(raw, v6)),
        parts.daddr == Some(rendered_da2(raw, v6)),
        parts.is_ipv6 == v6,
    ensures
        spec_build(parts) == Ok::<InnerRule, BuildIssue>(rendered_inner(raw, v6)),
{
    crate::bytes::lemma_pow256_values();
    crate::bytes::lemma_swapped_bound(raw.sport as nat, 2);
    crate::bytes::lemma_swapped_bound(raw.dport as nat, 2);
    crate::bytes::lemma_swapped_bound(raw.saddr4 as nat, 4);
    crate::bytes::lemma_swapped_bound(raw.daddr4 as nat, 4);
    crate::bytes::lemma_swapped_bound(raw.saddr6 as nat, 16);
    crate::bytes::lemma_swapped_bound(raw.daddr6 as nat, 16);
    crate::bytes::lemma_swapped_involutive(raw.sport as nat, 2);
    crate::bytes::lemma_swapped_involutive(raw.dport as nat, 2);
    crate::bytes::lemma_swapped_involutive(raw.saddr4 as nat, 4);
    crate::bytes::lemma_swapped_involutive(raw.daddr4 as nat, 4);
    crate::bytes::lemma_swapped_involutive(raw.saddr6 as nat, 16);
    crate::bytes::lemma_swapped_involutive(raw.daddr6 as nat, 16);
    assert(crate::rule::spec_raw(parts) == raw);
}

/// The `to` clause of a rendered line finishes into the same record.
#[verifier::rlimit(100)]
#[verifier::spinoff_prover]
proof fn lemma_rendered_tail(raw: RawRule, v6: bool, ts: Seq<Tok>, d0: int, fin: int, sa2: SockAddr)
    requires
        built_rule_wf(raw, v6),
        0 <= d0,
        rendered_tail_ok(raw, v6, ts, d0, fin),
        sa2 == rendered_sa2(raw, v6),
    ensures
        spec_stmt_to(ts, d0, rendered_act(raw), rendered_proto(raw), sa2) == Ok::<
            (Rule, int),
            ParseFail,
        >((rendered_rule(raw, v6), fin)),
{
    reveal(spec_stmt_to);
    crate::bytes::lemma_pow256_values();
    crate::bytes::lemma_swapped_bound(raw.dport as nat, 2);
    crate::bytes::lemma_swapped_bound(raw.daddr4 as nat, 4);
    crate::bytes::lemma_swapped_bound(raw.daddr6 as nat, 16);
    let dpres = swapped(raw.dport as nat, 2);
    let da = if v6 {
        SockAddr { ip: Ip::V6(swapped(raw.daddr6 as nat, 16) as u128), port: 0 }
    } else {
        SockAddr { ip: Ip::V4(swapped(raw.daddr4 as nat, 4) as u32), port: 0 }
    };
    if v6 {
        crate::ip::lemma_render_sock_v6(swapped(raw.daddr6 as nat, 16) as u128);
    } else {
        crate::ip::lemma_render_sock_v4(swapped(raw.daddr4 as nat, 4) as u32);
    }
    assert(spec_sock(addr_text(raw.daddr4, raw.daddr6, v6)) == Some(da));
    if dpres != 0 {
        crate::text::lemma_dec_str_digits(dpres);
        assert(port_ok(dec_str(dpres)));
    } else {
        crate::bytes::lemma_swapped_zero(2);
    }
    let da2 = SockAddr { ip: da.ip, port: dpres as u16 };
    assert(da2 == rendered_da2(raw, v6));
    let parts = Parts {
        action: rendered_act(raw),
        is_ipv6: da2.spec_is_v6(),
        quick: false,
        proto: rendered_proto(raw),
        saddr: Some(sa2),
        daddr: Some(da2),
    };
    lemma_build_of_rendered(raw, v6, parts);
}

/// The `from` clause of a rendered line parses on to the same record.
#[verifier::rlimit(100)]
#[verifier::spinoff_prover]
proof fn lemma_rendered_from(raw: RawRule, v6: bool, ts: Seq<Tok>, b: int, fin: int)
    requires
        built_rule_wf(raw, v6),
        0 <= b,
        rendered_from_ok(raw, v6, ts, b, fin),
    ensures
        spec_stmt_from(ts, b, rendered_act(raw), rendered_proto(raw)) == Ok::<
            (Rule, int),
            ParseFail,
        >((rendered_rule(raw, v6), fin)),
{
    reveal(spec_stmt_from);
    crate::bytes::lemma_pow256_values();
    crate::bytes::lemma_swapped_bound(raw.sport as nat, 2);
    crate::bytes::lemma_swapped_bound(raw.saddr4 as nat, 4);
    crate::bytes::lemma_swapped_bound(raw.saddr6 as nat, 16);
    let spres = swapped(raw.sport as nat, 2);
    let sa = if v6 {
        SockAddr { ip: Ip::V6(swapped(raw.saddr6 as nat, 16) as u128), port: 0 }
    } else {
        SockAddr { ip: Ip::V4(swapped(raw.saddr4 as nat, 4) as u32), port: 0 }
    };
    if v6 {
        crate::ip::lemma_render_sock_v6(swapped(raw.saddr6 as nat, 16) as u128);
    } else {
        crate::ip::lemma_render_sock_v4(swapped(raw.saddr4 as nat, 4) as u32);
    }
    assert(spec_sock(addr_text(raw.saddr4, raw.saddr6, v6)) == Some(sa));
    if spres != 0 {
        crate::text::lemma_dec_str_digits(spres);
        assert(port_ok(dec_str(spres)));
    } else {
        crate::bytes::lemma_swapped_zero(2);
    }
    let sa2 = SockAddr { ip: sa.ip, port: spres as u16 };
    assert(sa2 == rendered_sa2(raw, v6));
    let d0 = if spres == 0 {
        b + 2
    } else {
        b + 4
    };
    assert(spec_stmt_from(ts, b, rendered_act(raw), rendered_proto(raw)) == spec_stmt_to(
        ts,
        d0,
        rendered_act(raw),
        rendered_proto(raw),
        sa2,
    ));
    lemma_rendered_tail(raw, v6, ts, d0, fin, sa2);
}

/// The line's tokens standing at position `p` inside a larger stream,
/// the line ending at `fin`.
pub open spec fn line_at_ok(raw: RawRule, v6: bool, ts: Seq<Tok>, p: int, fin: int) -> bool {
    let line = rule_line_toks(raw, v6);
    &&& 0 <= p
    &&& fin == p + line.len()
    &&& fin <= ts.len()
    &&& forall|j: int| 0 <= j < line.len() ==> ts[p + j] == #[trigger] line[j]
}

/// A rendered rule line standing anywhere in a token stream parses
/// back to a rule holding exactly the same wire record, consuming the
/// line and its newline.
#[verifier::rlimit(100)]
#[verifier::spinoff_prover]
pub proof fn lemma_rule_line_at(raw: RawRule, v6: bool, ts: Seq<Tok>, p: int, fin: int)
    requires
        built_rule_wf(raw, v6),
        line_at_ok(raw, v6, ts, p, fin),
    ensures
        spec_stmt(ts, p) == Ok::<(Rule, int), ParseFail>((rendered_rule(raw, v6), fin)),
{
    reveal(spec_stmt);
    lemma_lower_fixed();
    crate::bytes::lemma_pow256_values();
    crate::bytes::lemma_swapped_bound(raw.sport as nat, 2);
    crate::bytes::lemma_swapped_bound(raw.dport as nat, 2);
    let line = rule_line_toks(raw, v6);
    let ptoks = if raw.proto == 6 {
        seq![Tok::Proto, Tok::Val("tcp"@)]
    } else if raw.proto == 17 {
        seq![Tok::Proto, Tok::Val("udp"@)]
    } else {
        Seq::<Tok>::empty()
    };
    let spres = swapped(raw.sport as nat, 2);
    let dpres = swapped(raw.dport as nat, 2);
    let stoks = if spres == 0 {
        Seq::<Tok>::empty()
    } else {
        seq![Tok::Port, Tok::Val(dec_str(spres))]
    };
    let dtoks = if dpres == 0 {
        Seq::<Tok>::empty()
    } else {
        seq![Tok::Port, Tok::Val(dec_str(dpres))]
    };
    let b = p + 1 + ptoks.len() as int;
    let d0 = b + 2 + stoks.len() as int;
    let f0 = d0 + 2 + dtoks.len() as int;
    assert(line.len() == f0 + 1 - p);
    let rb = b - p;
    let rd = d0 - p;
    let rf = f0 - p;
    assert(line[0] == (if raw.action == 1 {
        Tok::Block
    } else {
        Tok::Pass
    }));
    assert(ts[p + 0] == line[0]);
    if raw.proto == 6 || raw.proto == 17 {
        assert(line[1] == Tok::Proto);
        assert(ts[p + 1] == line[1]);
        assert(line[2] == Tok::Val(
            if raw.proto == 6 {
                "tcp"@
            } else {
                "udp"@
            },
        ));
        assert(ts[p + 2] == line[2]);
    }
    assert(line[rb] == Tok::From);
    assert(ts[p + rb] == line[rb]);
    assert(line[rb + 1] == Tok::Val(addr_text(raw.saddr4, raw.saddr6, v6)));
    assert(ts[p + (rb + 1)] == line[rb + 1]);
    if spres != 0 {
        assert(line[rb + 2] == Tok::Port);
        assert(ts[p + (rb + 2)] == line[rb + 2]);
        assert(line[rb + 3] == Tok::Val(dec_str(spres)));
        assert(ts[p + (rb + 3)] == line[rb + 3]);
    }
    assert(line[rd] == Tok::To);
    assert(ts[p + rd] == line[rd]);
    assert(line[rd + 1] == Tok::Val(addr_text(raw.daddr4, raw.daddr6, v6)));
    assert(ts[p + (rd + 1)] == line[rd + 1]);
    if dpres != 0 {
        assert(line[rd + 2] == Tok::Port);
        assert(ts[p + (rd + 2)] == line[rd + 2]);
        assert(line[rd + 3] == Tok::Val(dec_str(dpres)));
        assert(ts[p + (rd + 3)] == line[rd + 3]);
    }
    assert(line[rf] == Tok::Nl);
    assert(ts[p + rf] == line[rf]);
    assert(rendered_tail_ok(raw, v6, ts, d0, fin));
    assert(rendered_from_ok(raw, v6, ts, b, fin));
    assert(spec_stmt(ts, p) == spec_stmt_from(ts, b, rendered_act(raw), rendered_proto(raw)));
    lemma_rendered_from(raw, v6, ts, b, fin);
}

/// The tokens of a rendered rule line parse back to a rule holding
/// exactly the same wire record, consuming the whole line.
pub proof fn lemma_rule_line_round_trip(raw: RawRule, v6: bool)
    requires
        built_rule_wf(raw, v6),
    ensures
        spec_stmt(rule_line_toks(raw, v6), 0) == Ok::<(Rule, int), ParseFail>(
            (rendered_rule(raw, v6), rule_line_toks(raw, v6).len() as int),
        ),
{
    let ts = rule_line_toks(raw, v6);
    lemma_rule_line_at(raw, v6, ts, 0, ts.len() as int);
}


/// The tokens of the rendered default line.
pub open spec fn default_line_toks(a: Action) -> Seq<Tok> {
    seq![
        if a == Action::Block {
            Tok::Block
        } else {
            Tok::Pass
        },
        Tok::All,
        Tok::Nl,
    ]
}

/// The tokens of a rule list's rendered lines, in order.
pub open spec fn rules_toks(rules: Seq<RawRule>, v6: bool) -> Seq<Tok>
    decreases rules.len(),
{
    if rules.len() == 0 {
        Seq::empty()
    } else {
        rule_line_toks(rules[0], v6) + rules_toks(rules.drop_first(), v6)
    }
}

/// The tokens of a whole rendered rule set: the default line, then the
/// IPv4 lines, then the IPv6 lines.
pub open spec fn filter_toks(f: Filter) -> Seq<Tok> {
    default_line_toks(f.spec_default_action()) + rules_toks(f.spec_ipv4(), false) + rules_toks(
        f.spec_ipv6(),
        true,
    )
}

/// The rules a re-parsed rule list should yield.
pub open spec fn wrap_rules(rules: Seq<RawRule>, v6: bool) -> Seq<Rule> {
    rules.map_values(|r: RawRule| Rule::spec_new(rendered_inner(r, v6)))
}

/// Every record of the list has the shape `build` produces.
pub open spec fn rules_wf(rules: Seq<RawRule>, v6: bool) -> bool {
    forall|i: int| 0 <= i < rules.len() ==> built_rule_wf(#[trigger] rules[i], v6)
}

/// A run of rendered rule lines parses back to the corresponding
/// rules, consuming the rest of the stream.
proof fn lemma_rules_toks_parse(ts: Seq<Tok>, p: int, r4: Seq<RawRule>, r6: Seq<RawRule>)
    requires
        0 <= p <= ts.len(),
        rules_wf(r4, false),
        rules_wf(r6, true),
        ts.skip(p) == rules_toks(r4, false) + rules_toks(r6, true),
    ensures
        spec_parse(ts, p) == Ok::<Seq<Rule>, ParseFail>(
            wrap_rules(r4, false) + wrap_rules(r6, true),
        ),
    decreases r4.len() + r6.len(),
{
    let suffix = ts.skip(p);
    assert(forall|j: int| 0 <= j < suffix.len() ==> #[trigger] suffix[j] == ts[p + j]);
    if r4.len() == 0 && r6.len() == 0 {
        assert(suffix.len() == 0);
        assert(p == ts.len());
        assert(skip_nls(ts, p) == p);
        assert(wrap_rules(r4, false) + wrap_rules(r6, true) =~= Seq::<Rule>::empty());
    } else {
        let v6first = r4.len() == 0;
        let raw = if v6first {
            r6[0]
        } else {
            r4[0]
        };
        let line = rule_line_toks(raw, v6first);
        let tail4 = if v6first {
            r4
        } else {
            r4.drop_first()
        };
        let tail6 = if v6first {
            r6.drop_first()
        } else {
            r6
        };
        assert(rules_toks(r4, false) + rules_toks(r6, true) =~= line + (rules_toks(tail4, false)
            + rules_toks(tail6, true))) by {
            if v6first {
                assert(rules_toks(r4, false) =~= Seq::<Tok>::empty());
            }
        }
        let ln = line.len() as int;
        assert(ln >= 1);
        assert forall|j: int| 0 <= j < ln implies ts[p + j] == #[trigger] line[j] by {
            assert(suffix[j] == ts[p + j]);
            assert(suffix[j] == line[j]);
        };
        assert(line_at_ok(raw, v6first, ts, p, p + ln));
        lemma_rule_line_at(raw, v6first, ts, p, p + ln);
        assert(ts[p + 0] == line[0]);
        assert(!(ts[p] is Nl));
        assert(skip_nls(ts, p) == p);
        assert(ts.skip(p + ln) =~= rules_toks(tail4, false) + rules_toks(tail6, true)) by {
            assert forall|j: int| 0 <= j < ts.len() - (p + ln) implies #[trigger] ts.skip(
                p + ln,
            )[j] == (rules_toks(tail4, false) + rules_toks(tail6, true))[j] by {
                assert(ts.skip(p + ln)[j] == ts[p + ln + j]);
                assert(suffix[ln + j] == ts[p + ln + j]);
                assert(suffix[ln + j] == (line + (rules_toks(tail4, false) + rules_toks(
                    tail6,
                    true,
                )))[ln + j]);
            };
        }
        lemma_rules_toks_parse(ts, p + ln, tail4, tail6);
        assert(spec_parse(ts, p) == Ok::<Seq<Rule>, ParseFail>(
            seq![rendered_rule(raw, v6first)] + (wrap_rules(tail4, false) + wrap_rules(
                tail6,
                true,
            )),
        ));
        assert(seq![rendered_rule(raw, v6first)] + (wrap_rules(tail4, false) + wrap_rules(
            tail6,
            true,
        )) =~= wrap_rules(r4, false) + wrap_rules(r6, true)) by {
            if v6first {
                assert(wrap_rules(r4, false) =~= Seq::<Rule>::empty());
                assert(forall|i: int|
                    0 <= i < r6.len() - 1 ==> #[trigger] r6.drop_first()[i] == r6[i + 1]);
            } else {
                assert(forall|i: int|
                    0 <= i < r4.len() - 1 ==> #[trigger] r4.drop_first()[i] == r4[i + 1]);
            }
        }
    }
}

/// Folding a rule list's wrapped rules appends them, in order, to the
/// family of their kind.
proof fn lemma_fold_wrapped(base: Seq<Rule>, rules: Seq<RawRule>, v6: bool)
    ensures
        fold_rules(base + wrap_rules(rules, v6)).0 == fold_rules(base).0,
        !v6 ==> fold_rules(base + wrap_rules(rules, v6)).1 == fold_rules(base).1 + rules
            && fold_rules(base + wrap_rules(rules, v6)).2 == fold_rules(base).2,
        v6 ==> fold_rules(base + wrap_rules(rules, v6)).2 == fold_rules(base).2 + rules
            && fold_rules(base + wrap_rules(rules, v6)).1 == fold_rules(base).1,
    decreases rules.len(),
{
    broadcast use crate::rule::Rule::lemma_spec_new;

    if rules.len() == 0 {
        assert(base + wrap_rules(rules, v6) =~= base);
        assert(fold_rules(base).1 + rules =~= fold_rules(base).1);
        assert(fold_rules(base).2 + rules =~= fold_rules(base).2);
    } else {
        lemma_fold_wrapped(base, rules.drop_last(), v6);
        let whole = base + wrap_rules(rules, v6);
        assert(whole.drop_last() =~= base + wrap_rules(rules.drop_last(), v6)) by {
            assert(forall|i: int|
                0 <= i < rules.len() - 1 ==> #[trigger] rules.drop_last()[i] == rules[i]);
        }
        assert(whole.last() == Rule::spec_new(rendered_inner(rules.last(), v6)));
        assert(whole.last().spec_inner() == rendered_inner(rules.last(), v6));
        if v6 {
            assert(fold_rules(base).2 + rules.drop_last() + seq![rules.last()] =~= fold_rules(
                base,
            ).2 + rules);
        } else {
            assert(fold_rules(base).1 + rules.drop_last() + seq![rules.last()] =~= fold_rules(
                base,
            ).1 + rules);
        }
    }
}

/// The default line's three tokens parse to the default rule.
proof fn lemma_default_line_stmt(ts: Seq<Tok>, a: Action)
    requires
        3 <= ts.len(),
        ts[0] == (if a == Action::Block {
            Tok::Block
        } else {
            Tok::Pass
        }),
        ts[1] == Tok::All,
        ts[2] == Tok::Nl,
    ensures
        spec_stmt(ts, 0) == Ok::<(Rule, int), ParseFail>(
            (Rule::spec_new(InnerRule::DefaultRule(a)), 3),
        ),
{
    reveal(spec_stmt);
}

/// The token rendering of a rule set parses to the default rule
/// followed by the wrapped rules of both families.
#[verifier::rlimit(100)]
#[verifier::spinoff_prover]
proof fn lemma_filter_toks_parse(f: Filter)
    requires
        rules_wf(f.spec_ipv4(), false),
        rules_wf(f.spec_ipv6(), true),
    ensures
        spec_parse(filter_toks(f), 0) == Ok::<Seq<Rule>, ParseFail>(
            seq![Rule::spec_new(InnerRule::DefaultRule(f.spec_default_action()))] + (wrap_rules(
                f.spec_ipv4(),
                false,
            ) + wrap_rules(f.spec_ipv6(), true)),
        ),
{
    let ts = filter_toks(f);
    let act = f.spec_default_action();
    let dtoks = default_line_toks(act);
    let body = rules_toks(f.spec_ipv4(), false) + rules_toks(f.spec_ipv6(), true);
    assert(ts.len() == 3 + body.len());
    assert(ts[0] == dtoks[0]);
    assert(ts[1] == Tok::All);
    assert(ts[2] == Tok::Nl);
    assert(!(ts[0] is Nl));
    assert(skip_nls(ts, 0) == 0);
    lemma_default_line_stmt(ts, act);
    assert(ts.skip(3) =~= body) by {
        assert(forall|j: int| 0 <= j < body.len() ==> #[trigger] ts.skip(3)[j] == ts[3 + j]);
        assert(forall|j: int| 0 <= j < body.len() ==> #[trigger] ts[3 + j] == body[j]);
    }
    lemma_rules_toks_parse(ts, 3, f.spec_ipv4(), f.spec_ipv6());
}

/// Folding the re-parsed rules rebuilds the same rule set.
#[verifier::rlimit(100)]
#[verifier::spinoff_prover]
proof fn lemma_filter_toks_fold(f: Filter)
    ensures
        ({
            let drule = Rule::spec_new(InnerRule::DefaultRule(f.spec_default_action()));
            let rs = seq![drule] + (wrap_rules(f.spec_ipv4(), false) + wrap_rules(
                f.spec_ipv6(),
                true,
            ));
            fold_rules(rs).0 == f.spec_default_action() && fold_rules(rs).1 == f.spec_ipv4()
                && fold_rules(rs).2 == f.spec_ipv6()
        }),
{
    broadcast use crate::rule::Rule::lemma_spec_new;

    let act = f.spec_default_action();
    let drule = Rule::spec_new(InnerRule::DefaultRule(act));
    let w4 = wrap_rules(f.spec_ipv4(), false);
    let w6 = wrap_rules(f.spec_ipv6(), true);
    let rs = seq![drule] + (w4 + w6);
    assert(fold_rules(seq![drule]).0 == act && fold_rules(seq![drule]).1
        == Seq::<RawRule>::empty() && fold_rules(seq![drule]).2 == Seq::<RawRule>::empty()) by {
        assert(seq![drule].drop_last() =~= Seq::<Rule>::empty());
        assert(fold_rules(Seq::<Rule>::empty()) == (
            Action::Pass,
            Seq::<RawRule>::empty(),
            Seq::<RawRule>::empty(),
        ));
        assert(seq![drule].last() == drule);
        assert(drule.spec_inner() == InnerRule::DefaultRule(act));
    }
    lemma_fold_wrapped(seq![drule], f.spec_ipv4(), false);
    lemma_fold_wrapped(seq![drule] + w4, f.spec_ipv6(), true);
    assert(rs =~= (seq![drule] + w4) + w6);
    assert(Seq::<RawRule>::empty() + f.spec_ipv4() =~= f.spec_ipv4());
    assert(Seq::<RawRule>::empty() + f.spec_ipv6() =~= f.spec_ipv6());
}

/// The whole token rendering of a rule set parses back, and the parsed
/// rules fold back into exactly the same rule set: the same default
/// action and the same wire records in the same order per family.
pub proof fn lemma_filter_toks_round_trip(f: Filter)
    requires
        rules_wf(f.spec_ipv4(), false),
        rules_wf(f.spec_ipv6(), true),
    ensures
        spec_parse(filter_toks(f), 0) matches Ok(rs) && fold_rules(rs).0
            == f.spec_default_action() && fold_rules(rs).1 == f.spec_ipv4() && fold_rules(rs).2
            == f.spec_ipv6(),
{
    lemma_filter_toks_parse(f);
    lemma_filter_toks_fold(f);
}


/// A stream chunk the preprocessor passes through unchanged: flat
/// tokens, single newlines, and a closing newline.
pub open spec fn chunk_ok(ts: Seq<Tok>) -> bool {
    &&& forall|k: int| 0 <= k < ts.len() ==> tok_flat(#[trigger] ts[k])
    &&& forall|k: int|
        0 <= k && k + 1 < ts.len() ==> !((#[trigger] ts[k]) is Nl && ts[k + 1] is Nl)
    &&& ts.len() > 0 ==> !(ts[0] is Nl) && ts[ts.len() - 1] is Nl
}

proof fn lemma_chunk_concat(a: Seq<Tok>, b: Seq<Tok>)
    requires
        chunk_ok(a),
        chunk_ok(b),
    ensures
        chunk_ok(a + b),
{
    if a.len() == 0 {
        assert(a + b =~= b);
    } else if b.len() == 0 {
        assert(a + b =~= a);
    } else {
        let c = a + b;
        assert(forall|k: int| 0 <= k < a.len() ==> #[trigger] c[k] == a[k]);
        assert(forall|k: int| a.len() <= k < c.len() ==> #[trigger] c[k] == b[k - a.len()]);
        assert(c[a.len() as int] == b[0]);
        assert(c[c.len() - 1] == b[b.len() - 1]);
    }
}

/// One rendered rule line is such a chunk.
#[verifier::rlimit(100)]
#[verifier::spinoff_prover]
proof fn lemma_rule_line_chunk(raw: RawRule, v6: bool)
    ensures
        chunk_ok(rule_line_toks(raw, v6)),
{
    let line = rule_line_toks(raw, v6);
    let ptoks = if raw.proto == 6 {
        seq![Tok::Proto, Tok::Val("tcp"@)]
    } else if raw.proto == 17 {
        seq![Tok::Proto, Tok::Val("udp"@)]
    } else {
        Seq::<Tok>::empty()
    };
    let spres = swapped(raw.sport as nat, 2);
    let dpres = swapped(raw.dport as nat, 2);
    let stoks = if spres == 0 {
        Seq::<Tok>::empty()
    } else {
        seq![Tok::Port, Tok::Val(dec_str(spres))]
    };
    let dtoks = if dpres == 0 {
        Seq::<Tok>::empty()
    } else {
        seq![Tok::Port, Tok::Val(dec_str(dpres))]
    };
    let b = 1 + ptoks.len() as int;
    let d0 = b + 2 + stoks.len() as int;
    let f0 = d0 + 2 + dtoks.len() as int;
    assert(line.len() == f0 + 1);
    assert forall|k: int| 0 <= k < line.len() implies tok_flat(#[trigger] line[k]) && (k < f0
        ==> !(line[k] is Nl)) by {
        if k == 0 {
            assert(line[0] == (if raw.action == 1 {
                Tok::Block
            } else {
                Tok::Pass
            }));
        } else if k < b {
            assert(line[k] == ptoks[k - 1]);
        } else if k == b {
            assert(line[k] == Tok::From);
        } else if k == b + 1 {
            assert(line[k] == Tok::Val(addr_text(raw.saddr4, raw.saddr6, v6)));
        } else if k < d0 {
            assert(line[k] == stoks[k - (b + 2)]);
        } else if k == d0 {
            assert(line[k] == Tok::To);
        } else if k == d0 + 1 {
            assert(line[k] == Tok::Val(addr_text(raw.daddr4, raw.daddr6, v6)));
        } else if k < f0 {
            assert(line[k] == dtoks[k - (d0 + 2)]);
        } else {
            assert(line[k] == Tok::Nl);
        }
    };
    assert(line[f0] == Tok::Nl);
}

/// A run of rendered rule lines is such a chunk.
proof fn lemma_rules_toks_chunk(rules: Seq<RawRule>, v6: bool)
    ensures
        chunk_ok(rules_toks(rules, v6)),
    decreases rules.len(),
{
    if rules.len() > 0 {
        lemma_rule_line_chunk(rules[0], v6);
        lemma_rules_toks_chunk(rules.drop_first(), v6);
        lemma_chunk_concat(rule_line_toks(rules[0], v6), rules_toks(rules.drop_first(), v6));
    }
}

/// The whole token rendering of a rule set passes through the
/// preprocessor unchanged: it holds no definitions, references or list
/// literals.
pub proof fn lemma_filter_toks_preprocess(f: Filter)
    ensures
        spec_preprocess(filter_toks(f)) == Ok::<Seq<Tok>, PreFail>(filter_toks(f)),
{
    let dl = default_line_toks(f.spec_default_action());
    assert(chunk_ok(dl)) by {
        assert(dl[0] == (if f.spec_default_action() == Action::Block {
            Tok::Block
        } else {
            Tok::Pass
        }));
        assert(dl[1] == Tok::All);
        assert(dl[2] == Tok::Nl);
    }
    lemma_rules_toks_chunk(f.spec_ipv4(), false);
    lemma_rules_toks_chunk(f.spec_ipv6(), true);
    lemma_chunk_concat(dl, rules_toks(f.spec_ipv4(), false));
    lemma_chunk_concat(
        dl + rules_toks(f.spec_ipv4(), false),
        rules_toks(f.spec_ipv6(), true),
    );
    assert(filter_toks(f) =~= (dl + rules_toks(f.spec_ipv4(), false)) + rules_toks(
        f.spec_ipv6(),
        true,
    ));
    crate::preproc::lemma_preprocess_identity(filter_toks(f));
}

/// The whole pipeline over a rendered rule set, from tokens on:
/// preprocessing leaves the rendered tokens unchanged, parsing yields
/// rules, and folding those rules rebuilds exactly the same set.
pub proof fn lemma_filter_pipeline_round_trip(f: Filter)
    requires
        rules_wf(f.spec_ipv4(), false),
        rules_wf(f.spec_ipv6(), true),
    ensures
        spec_preprocess(filter_toks(f)) == Ok::<Seq<Tok>, PreFail>(filter_toks(f)),
        spec_parse(filter_toks(f), 0) matches Ok(rs) && fold_rules(rs).0
            == f.spec_default_action() && fold_rules(rs).1 == f.spec_ipv4() && fold_rules(rs).2
            == f.spec_ipv6(),
{
    lemma_filter_toks_preprocess(f);
    lemma_filter_toks_round_trip(f);
}

} // verus!
