//! The lexer: characters to tokens.
//!
//! Keywords are matched as whole words; `=`, newline, `{` and `$` are
//! special.  Whitespace other than newline separates tokens and is
//! discarded; a run of newlines and blank space collapses into one
//! `Nl` token.  A word that is not a keyword becomes a `Def` when the
//! next non-blank character on the line is `=`, else a `Val`.
//!
//! The function `spec_lex` is the reference: `Lexer::tokenize` returns
//! exactly its result.

use vstd::prelude::*;

use crate::error::Error;
use crate::text::{chars_eq_str, is_ws, is_ws_not_nl, str_to_chars, ws, ws_not_nl};
use crate::token::{items_view, Tok, Token};

verus! {

/// The ways lexing can fail.
pub enum LexFail {
    /// A newline inside a `{ ... }` literal.
    NlInList,
    /// A `{}` with no members.
    EmptyList,
    /// The input ended inside a `{ ... }` literal.
    UnclosedList,
    /// A `$` with no word after it.
    BadIdent,
}

/// The message the lexer reports for each failure.
pub open spec fn lex_fail_msg(f: LexFail) -> Seq<char> {
    match f {
        LexFail::NlInList => "unexpected newline in list"@,
        LexFail::EmptyList => "no tokens inside list"@,
        LexFail::UnclosedList => "unexpected end of input in list"@,
        LexFail::BadIdent => "invalid token `$`"@,
    }
}

/// First position at or after `i` that is not blank (whitespace other
/// than newline).
pub open spec fn skip_wsnn(s: Seq<char>, i: int) -> int
    decreases s.len() - i,
{
    if i < 0 || i >= s.len() || !is_ws_not_nl(s[i]) {
        i
    } else {
        skip_wsnn(s, i + 1)
    }
}

pub proof fn lemma_skip_wsnn(s: Seq<char>, i: int)
    requires
        0 <= i <= s.len(),
    ensures
        i <= skip_wsnn(s, i) <= s.len(),
        skip_wsnn(s, i) < s.len() ==> !is_ws_not_nl(s[skip_wsnn(s, i)]),
    decreases s.len() - i,
{
    if i < s.len() && is_ws_not_nl(s[i]) {
        lemma_skip_wsnn(s, i + 1);
    }
}

/// First position at or after `i` that is not whitespace of any kind.
pub open spec fn skip_ws(s: Seq<char>, i: int) -> int
    decreases s.len() - i,
{
    if i < 0 || i >= s.len() || !is_ws(s[i]) {
        i
    } else {
        skip_ws(s, i + 1)
    }
}

pub proof fn lemma_skip_ws(s: Seq<char>, i: int)
    requires
        0 <= i <= s.len(),
    ensures
        i <= skip_ws(s, i) <= s.len(),
        skip_ws(s, i) < s.len() ==> !is_ws(s[skip_ws(s, i)]),
    decreases s.len() - i,
{
    if i < s.len() && is_ws(s[i]) {
        lemma_skip_ws(s, i + 1);
    }
}

/// First position at or after `i` holding whitespace, or the length:
/// the end of the word starting at `i`.
pub open spec fn word_end(s: Seq<char>, i: int) -> int
    decreases s.len() - i,
{
    if i < 0 || i >= s.len() || is_ws(s[i]) {
        i
    } else {
        word_end(s, i + 1)
    }
}

pub proof fn lemma_word_end(s: Seq<char>, i: int)
    requires
        0 <= i <= s.len(),
    ensures
        i <= word_end(s, i) <= s.len(),
        i < s.len() && !is_ws(s[i]) ==> word_end(s, i) > i,
    decreases s.len() - i,
{
    if i < s.len() && !is_ws(s[i]) {
        lemma_word_end(s, i + 1);
    }
}

/// The end of a list member starting at `i`: members also stop at `}`.
pub open spec fn item_end(s: Seq<char>, i: int) -> int
    decreases s.len() - i,
{
    if i < 0 || i >= s.len() || is_ws(s[i]) || s[i] == '}' {
        i
    } else {
        item_end(s, i + 1)
    }
}

pub proof fn lemma_item_end(s: Seq<char>, i: int)
    requires
        0 <= i <= s.len(),
    ensures
        i <= item_end(s, i) <= s.len(),
        i < s.len() && !is_ws(s[i]) && s[i] != '}' ==> item_end(s, i) > i,
    decreases s.len() - i,
{
    if i < s.len() && !is_ws(s[i]) && s[i] != '}' {
        lemma_item_end(s, i + 1);
    }
}

/// The members of a list literal from `i` (just after the `{`) to its
/// closing `}`: blank-separated words, no newline allowed.  Yields the
/// member words and the position after the `}`.
pub open spec fn spec_list_items(s: Seq<char>, i: int) -> Result<(Seq<Seq<char>>, int), LexFail>
    decreases s.len() - i,
        via spec_list_items_dec
{
    if i < 0 {
        Err(LexFail::UnclosedList)
    } else {
        let j = skip_wsnn(s, i);
        if j >= s.len() {
            Err(LexFail::UnclosedList)
        } else if s[j] == '\n' {
            Err(LexFail::NlInList)
        } else if s[j] == '}' {
            Ok((Seq::empty(), j + 1))
        } else {
            let k = item_end(s, j);
            match spec_list_items(s, k) {
                Ok((rest, e)) => Ok((seq![s.subrange(j, k)] + rest, e)),
                Err(f) => Err(f),
            }
        }
    }
}

#[via_fn]
proof fn spec_list_items_dec(s: Seq<char>, i: int) {
    if i >= 0 && i <= s.len() {
        lemma_skip_wsnn(s, i);
        let j = skip_wsnn(s, i);
        if j < s.len() && s[j] != '\n' && s[j] != '}' {
            lemma_item_end(s, j);
        }
    }
}

pub proof fn lemma_spec_list_items_end(s: Seq<char>, i: int)
    requires
        0 <= i <= s.len(),
    ensures
        spec_list_items(s, i) matches Ok((items, e)) ==> i < e <= s.len(),
        spec_list_items(s, i) matches Ok((items, e)) ==> forall|k: int|
            0 <= k < items.len() ==> (#[trigger] items[k]).len() >= 1,
    decreases s.len() - i,
{
    lemma_skip_wsnn(s, i);
    let j = skip_wsnn(s, i);
    if j < s.len() && s[j] != '\n' && s[j] != '}' {
        lemma_item_end(s, j);
        let k = item_end(s, j);
        lemma_spec_list_items_end(s, k);
        match spec_list_items(s, k) {
            Ok((rest, e)) => {
                assert(s.subrange(j, k).len() >= 1);
                let items = seq![s.subrange(j, k)] + rest;
                assert(forall|m: int|
                    1 <= m < items.len() ==> #[trigger] items[m] == rest[m - 1]);
            },
            Err(_) => {},
        }
    }
}

/// Glues one token onto the rest of a lex result.
pub open spec fn cons_tok(t: Tok, rest: Result<Seq<Tok>, LexFail>) -> Result<Seq<Tok>, LexFail> {
    match rest {
        Ok(ts) => Ok(seq![t] + ts),
        Err(f) => Err(f),
    }
}

/// The token sequence of the input from position `i` on.  This is the
/// reference lexer.
pub open spec fn spec_lex(s: Seq<char>, i: int) -> Result<Seq<Tok>, LexFail>
    decreases s.len() - i,
        via spec_lex_dec
{
    if i < 0 {
        Ok(Seq::empty())
    } else {
        let j = skip_wsnn(s, i);
        if j >= s.len() {
            Ok(Seq::empty())
        } else if s[j] == '=' {
            cons_tok(Tok::Assign, spec_lex(s, j + 1))
        } else if s[j] == '\n' {
            cons_tok(Tok::Nl, spec_lex(s, skip_ws(s, j + 1)))
        } else if s[j] == '{' {
            match spec_list_items(s, j + 1) {
                Ok((items, e)) => if items.len() == 0 {
                    Err(LexFail::EmptyList)
                } else {
                    cons_tok(Tok::List(items), spec_lex(s, e))
                },
                Err(f) => Err(f),
            }
        } else if s[j] == '$' {
            let k = skip_ws(s, j + 1);
            if k >= s.len() {
                Err(LexFail::BadIdent)
            } else {
                let e = word_end(s, k);
                cons_tok(Tok::Ident(s.subrange(k, e)), spec_lex(s, e))
            }
        } else {
            let e = word_end(s, j);
            let w = s.subrange(j, e);
            if w == "all"@ {
                cons_tok(Tok::All, spec_lex(s, e))
            } else if w == "pass"@ {
                cons_tok(Tok::Pass, spec_lex(s, e))
            } else if w == "block"@ {
                cons_tok(Tok::Block, spec_lex(s, e))
            } else if w == "on"@ {
                cons_tok(Tok::On, spec_lex(s, e))
            } else if w == "proto"@ {
                cons_tok(Tok::Proto, spec_lex(s, e))
            } else if w == "port"@ {
                cons_tok(Tok::Port, spec_lex(s, e))
            } else if w == "from"@ {
                cons_tok(Tok::From, spec_lex(s, e))
            } else if w == "to"@ {
                cons_tok(Tok::To, spec_lex(s, e))
            } else {
                let k = skip_wsnn(s, e);
                if k < s.len() && s[k] == '=' {
                    cons_tok(Tok::Def(w), spec_lex(s, k))
                } else {
                    cons_tok(Tok::Val(w), spec_lex(s, k))
                }
            }
        }
    }
}

#[via_fn]
proof fn spec_lex_dec(s: Seq<char>, i: int) {
    if i >= 0 && i <= s.len() {
        lemma_skip_wsnn(s, i);
        let j = skip_wsnn(s, i);
        if j < s.len() {
            if s[j] == '\n' {
                lemma_skip_ws(s, j + 1);
            } else if s[j] == '{' {
                lemma_spec_list_items_end(s, j + 1);
            } else if s[j] == '$' {
                lemma_skip_ws(s, j + 1);
                let k = skip_ws(s, j + 1);
                if k < s.len() {
                    lemma_word_end(s, k);
                }
            } else if s[j] != '=' {
                lemma_word_end(s, j);
                let e = word_end(s, j);
                lemma_skip_wsnn(s, e);
            }
        }
    }
}

/// A lexed token is well formed: words are nonempty, and a list has at
/// least one member, each a nonempty word.
pub open spec fn tok_wf(t: Tok) -> bool {
    match t {
        Tok::Val(w) => w.len() >= 1,
        Tok::Def(w) => w.len() >= 1,
        Tok::Ident(w) => w.len() >= 1,
        Tok::List(items) => items.len() >= 1 && forall|k: int|
            0 <= k < items.len() ==> (#[trigger] items[k]).len() >= 1,
        _ => true,
    }
}

/// Whatever the input, a successful lex yields only well-formed tokens
/// of the closed set.
pub proof fn lemma_lex_tokens_wf(s: Seq<char>, i: int)
    requires
        0 <= i <= s.len(),
    ensures
        spec_lex(s, i) matches Ok(ts) ==> forall|k: int|
            0 <= k < ts.len() ==> tok_wf(#[trigger] ts[k]),
    decreases s.len() - i,
{
    lemma_skip_wsnn(s, i);
    let j = skip_wsnn(s, i);
    if j < s.len() {
        if s[j] == '=' {
            lemma_lex_tokens_wf(s, j + 1);
            lemma_cons_wf(Tok::Assign, spec_lex(s, j + 1));
        } else if s[j] == '\n' {
            lemma_skip_ws(s, j + 1);
            lemma_lex_tokens_wf(s, skip_ws(s, j + 1));
            lemma_cons_wf(Tok::Nl, spec_lex(s, skip_ws(s, j + 1)));
        } else if s[j] == '{' {
            lemma_spec_list_items_end(s, j + 1);
            match spec_list_items(s, j + 1) {
                Ok((items, e)) => {
                    lemma_lex_tokens_wf(s, e);
                    if items.len() > 0 {
                        assert(tok_wf(Tok::List(items)));
                        lemma_cons_wf(Tok::List(items), spec_lex(s, e));
                    }
                },
                Err(_) => {},
            }
        } else if s[j] == '$' {
            lemma_skip_ws(s, j + 1);
            let k = skip_ws(s, j + 1);
            if k < s.len() {
                lemma_word_end(s, k);
                let e = word_end(s, k);
                lemma_lex_tokens_wf(s, e);
                assert(s.subrange(k, e).len() >= 1);
                lemma_cons_wf(Tok::Ident(s.subrange(k, e)), spec_lex(s, e));
            }
        } else {
            lemma_word_end(s, j);
            let e = word_end(s, j);
            let w = s.subrange(j, e);
            assert(w.len() >= 1);
            lemma_lex_tokens_wf(s, e);
            lemma_cons_wf(Tok::All, spec_lex(s, e));
            lemma_cons_wf(Tok::Pass, spec_lex(s, e));
            lemma_cons_wf(Tok::Block, spec_lex(s, e));
            lemma_cons_wf(Tok::On, spec_lex(s, e));
            lemma_cons_wf(Tok::Proto, spec_lex(s, e));
            lemma_cons_wf(Tok::Port, spec_lex(s, e));
            lemma_cons_wf(Tok::From, spec_lex(s, e));
            lemma_cons_wf(Tok::To, spec_lex(s, e));
            lemma_skip_wsnn(s, e);
            let k = skip_wsnn(s, e);
            lemma_lex_tokens_wf(s, k);
            lemma_cons_wf(Tok::Def(w), spec_lex(s, k));
            lemma_cons_wf(Tok::Val(w), spec_lex(s, k));
        }
    }
}

proof fn lemma_cons_wf(t: Tok, rest: Result<Seq<Tok>, LexFail>)
    requires
        tok_wf(t),
        rest matches Ok(ts) ==> forall|k: int| 0 <= k < ts.len() ==> tok_wf(#[trigger] ts[k]),
    ensures
        cons_tok(t, rest) matches Ok(ts) ==> forall|k: int|
            0 <= k < ts.len() ==> tok_wf(#[trigger] ts[k]),
{
    match rest {
        Ok(ts) => {
            let out = seq![t] + ts;
            assert(out[0] == t);
            assert(forall|k: int| 1 <= k < out.len() ==> #[trigger] out[k] == ts[k - 1]);
        },
        Err(_) => {},
    }
}

/// The lexer: a character buffer and a cursor.
pub struct Lexer {
    buf: Vec<char>,
    pos: usize,
}

impl Lexer {
    pub closed spec fn spec_buf(self) -> Seq<char> {
        self.buf@
    }

    pub closed spec fn spec_pos(self) -> int {
        self.pos as int
    }

    pub open spec fn wf(self) -> bool {
        0 <= self.spec_pos() <= self.spec_buf().len()
    }

    /// A lexer over the characters of `input`, at the start.
    pub fn from_str(input: String) -> (r: Lexer)
        ensures
            r.spec_buf() == input@,
            r.spec_pos() == 0,
            r.wf(),
    {
        Lexer { buf: str_to_chars(input.as_str()), pos: 0 }
    }

    fn skip_blank(&mut self)
        requires
            old(self).wf(),
        ensures
            final(self).wf(),
            final(self).spec_buf() == old(self).spec_buf(),
            final(self).spec_pos() == skip_wsnn(old(self).spec_buf(), old(self).spec_pos()),
            final(self).spec_pos() >= old(self).spec_pos(),
    {
        while self.pos < self.buf.len() && ws_not_nl(self.buf[self.pos])
            invariant
                self.wf(),
                self.buf@ == old(self).spec_buf(),
                old(self).spec_pos() <= self.pos as int,
                skip_wsnn(self.buf@, old(self).spec_pos()) == skip_wsnn(self.buf@, self.pos as int),
            decreases self.buf@.len() - self.pos,
        {
            self.pos = self.pos + 1;
        }
    }

    fn skip_all_ws(&mut self)
        requires
            old(self).wf(),
        ensures
            final(self).wf(),
            final(self).spec_buf() == old(self).spec_buf(),
            final(self).spec_pos() == skip_ws(old(self).spec_buf(), old(self).spec_pos()),
            final(self).spec_pos() >= old(self).spec_pos(),
    {
        while self.pos < self.buf.len() && ws(self.buf[self.pos])
            invariant
                self.wf(),
                self.buf@ == old(self).spec_buf(),
                old(self).spec_pos() <= self.pos as int,
                skip_ws(self.buf@, old(self).spec_pos()) == skip_ws(self.buf@, self.pos as int),
            decreases self.buf@.len() - self.pos,
        {
            self.pos = self.pos + 1;
        }
    }

    fn read_word(&mut self) -> (w: Vec<char>)
        requires
            old(self).wf(),
        ensures
            final(self).wf(),
            final(self).spec_buf() == old(self).spec_buf(),
            final(self).spec_pos() == word_end(old(self).spec_buf(), old(self).spec_pos()),
            final(self).spec_pos() >= old(self).spec_pos(),
            w@ == old(self).spec_buf().subrange(old(self).spec_pos(), final(self).spec_pos()),
    {
        let mut w: Vec<char> = Vec::new();
        while self.pos < self.buf.len() && !ws(self.buf[self.pos])
            invariant
                self.wf(),
                self.buf@ == old(self).spec_buf(),
                old(self).spec_pos() <= self.pos as int,
                word_end(self.buf@, old(self).spec_pos()) == word_end(self.buf@, self.pos as int),
                w@ =~= self.buf@.subrange(old(self).spec_pos(), self.pos as int),
            decreases self.buf@.len() - self.pos,
        {
            w.push(self.buf[self.pos]);
            proof {
                assert(w@ =~= self.buf@.subrange(old(self).spec_pos(), self.pos + 1));
            }
            self.pos = self.pos + 1;
        }
        w
    }

    fn read_item(&mut self) -> (w: Vec<char>)
        requires
            old(self).wf(),
        ensures
            final(self).wf(),
            final(self).spec_buf() == old(self).spec_buf(),
            final(self).spec_pos() == item_end(old(self).spec_buf(), old(self).spec_pos()),
            final(self).spec_pos() >= old(self).spec_pos(),
            w@ == old(self).spec_buf().subrange(old(self).spec_pos(), final(self).spec_pos()),
    {
        let mut w: Vec<char> = Vec::new();
        while self.pos < self.buf.len() && !ws(self.buf[self.pos]) && self.buf[self.pos] != '}'
            invariant
                self.wf(),
                self.buf@ == old(self).spec_buf(),
                old(self).spec_pos() <= self.pos as int,
                item_end(self.buf@, old(self).spec_pos()) == item_end(self.buf@, self.pos as int),
                w@ =~= self.buf@.subrange(old(self).spec_pos(), self.pos as int),
            decreases self.buf@.len() - self.pos,
        {
            w.push(self.buf[self.pos]);
            proof {
                assert(w@ =~= self.buf@.subrange(old(self).spec_pos(), self.pos + 1));
            }
            self.pos = self.pos + 1;
        }
        w
    }

    /// Reads the members of a list literal, the cursor standing just
    /// after the `{`.
    fn read_list_items(&mut self) -> (r: Result<Token, Error>)
        requires
            old(self).wf(),
        ensures
            final(self).wf(),
            final(self).spec_buf() == old(self).spec_buf(),
            match r {
                Ok(t) => {
                    &&& spec_list_items(old(self).spec_buf(), old(self).spec_pos()) matches Ok(
                        (items, e),
                    )
                    &&& spec_list_items(old(self).spec_buf(), old(self).spec_pos())->Ok_0.0.len()
                        >= 1
                    &&& t@ == Tok::List(
                        spec_list_items(old(self).spec_buf(), old(self).spec_pos())->Ok_0.0,
                    )
                    &&& final(self).spec_pos() == spec_list_items(
                        old(self).spec_buf(),
                        old(self).spec_pos(),
                    )->Ok_0.1
                },
                Err(e) => {
                    &&& e matches Error::Lex(m)
                    &&& match spec_list_items(old(self).spec_buf(), old(self).spec_pos()) {
                        Ok((items, end)) => items.len() == 0 && m@ == lex_fail_msg(
                            LexFail::EmptyList,
                        ),
                        Err(f) => m@ == lex_fail_msg(f),
                    }
                },
            },
    {
        let ghost s = self.buf@;
        let ghost start = self.pos as int;
        let mut items: Vec<Vec<char>> = Vec::new();
        let mut failure: Option<Error> = None;
        loop
            invariant_except_break
                failure is None,
                match spec_list_items(s, self.pos as int) {
                    Ok((rest, e)) => spec_list_items(s, start) == Ok::<_, LexFail>(
                        (items_view(items@) + rest, e),
                    ),
                    Err(f) => spec_list_items(s, start) == Err::<(Seq<Seq<char>>, int), _>(f),
                },
            invariant
                self.wf(),
                self.buf@ == s,
                s == old(self).spec_buf(),
                start == old(self).spec_pos(),
                0 <= start <= s.len(),
            ensures
                match failure {
                    None => spec_list_items(s, start) matches Ok((all, e)) && all == items_view(
                        items@,
                    ) && self.pos as int == e,
                    Some(err) => {
                        &&& spec_list_items(s, start) matches Err(f)
                        &&& err matches Error::Lex(m)
                        &&& m@ == lex_fail_msg(spec_list_items(s, start)->Err_0)
                    },
                },
            decreases s.len() - self.pos,
        {
            let ghost h = self.pos as int;
            self.skip_blank();
            proof {
                lemma_skip_wsnn(s, h);
            }
            if self.pos >= self.buf.len() {
                proof {
                    assert(spec_list_items(s, start) == Err::<(Seq<Seq<char>>, int), _>(
                        LexFail::UnclosedList,
                    ));
                }
                failure = Some(Error::Lex(String::from_str("unexpected end of input in list")));
                break ;
            }
            let c = self.buf[self.pos];
            if c == '\n' {
                proof {
                    assert(spec_list_items(s, start) == Err::<(Seq<Seq<char>>, int), _>(
                        LexFail::NlInList,
                    ));
                }
                failure = Some(Error::Lex(String::from_str("unexpected newline in list")));
                break ;
            }
            if c == '}' {
                self.pos = self.pos + 1;
                proof {
                    assert(items_view(items@) + Seq::<Seq<char>>::empty() =~= items_view(items@));
                }
                break ;
            }
            let ghost j = self.pos as int;
            let w = self.read_item();
            proof {
                lemma_item_end(s, j);
                let k = item_end(s, j);
                match spec_list_items(s, k) {
                    Ok((rest2, e2)) => {
                        assert(items_view(items@.push(w)) + rest2 =~= items_view(items@) + (seq![
                            s.subrange(j, k),
                        ] + rest2));
                    },
                    Err(_) => {},
                }
            }
            items.push(w);
        }
        if let Some(err) = failure {
            return Err(err);
        }
        if items.len() == 0 {
            return Err(Error::Lex(String::from_str("no tokens inside list")));
        }
        Ok(Token::List(items))
    }

    /// Reads an identifier reference, the cursor standing just after
    /// the `$`.
    fn read_ident(&mut self) -> (r: Result<Token, Error>)
        requires
            old(self).wf(),
        ensures
            final(self).wf(),
            final(self).spec_buf() == old(self).spec_buf(),
            ({
                let s = old(self).spec_buf();
                let k = skip_ws(s, old(self).spec_pos());
                match r {
                    Ok(t) => k < s.len() && t@ == Tok::Ident(s.subrange(k, word_end(s, k)))
                        && final(self).spec_pos() == word_end(s, k),
                    Err(e) => k >= s.len() && (e matches Error::Lex(m) && m@ == lex_fail_msg(
                        LexFail::BadIdent,
                    )),
                }
            }),
    {
        self.skip_all_ws();
        if self.pos >= self.buf.len() {
            return Err(Error::Lex(String::from_str("invalid token `$`")));
        }
        let w = self.read_word();
        Ok(Token::Ident(w))
    }

    /// Reads one token, or `None` at the end of the input.
    pub fn next_token(&mut self) -> (r: Result<Option<Token>, Error>)
        requires
            old(self).wf(),
        ensures
            final(self).wf(),
            final(self).spec_buf() == old(self).spec_buf(),
            ({
                let s = old(self).spec_buf();
                let i = old(self).spec_pos();
                match r {
                    Ok(Some(t)) => match spec_lex(s, final(self).spec_pos()) {
                        Ok(ts) => spec_lex(s, i) == Ok::<_, LexFail>(seq![t@] + ts),
                        Err(f) => spec_lex(s, i) == Err::<Seq<Tok>, _>(f),
                    },
                    Ok(None) => spec_lex(s, i) == Ok::<_, LexFail>(Seq::<Tok>::empty()),
                    Err(e) => {
                        &&& spec_lex(s, i) matches Err(f)
                        &&& e matches Error::Lex(m)
                        &&& m@ == lex_fail_msg(spec_lex(s, i)->Err_0)
                    },
                }
            }),
            r matches Ok(Some(t)) ==> final(self).spec_pos() > old(self).spec_pos(),
    {
        let ghost s = self.buf@;
        let ghost i = self.pos as int;
        self.skip_blank();
        proof {
            lemma_skip_wsnn(s, i);
        }
        if self.pos >= self.buf.len() {
            return Ok(None);
        }
        let ghost j = self.pos as int;
        let c = self.buf[self.pos];
        if c == '=' {
            self.pos = self.pos + 1;
            return Ok(Some(Token::Assign));
        }
        if c == '\n' {
            self.pos = self.pos + 1;
            proof {
                lemma_skip_ws(s, j + 1);
            }
            self.skip_all_ws();
            return Ok(Some(Token::Nl));
        }
        if c == '{' {
            self.pos = self.pos + 1;
            proof {
                lemma_spec_list_items_end(s, j + 1);
            }
            return match self.read_list_items() {
                Ok(t) => Ok(Some(t)),
                Err(e) => Err(e),
            };
        }
        if c == '$' {
            self.pos = self.pos + 1;
            proof {
                lemma_skip_ws(s, j + 1);
                let k = skip_ws(s, j + 1);
                if k < s.len() {
                    lemma_word_end(s, k);
                }
            }
            return match self.read_ident() {
                Ok(t) => Ok(Some(t)),
                Err(e) => Err(e),
            };
        }
        let w = self.read_word();
        proof {
            lemma_word_end(s, j);
            lemma_skip_wsnn(s, word_end(s, j));
        }
        if chars_eq_str(&w, "all") {
            return Ok(Some(Token::All));
        }
        if chars_eq_str(&w, "pass") {
            return Ok(Some(Token::Pass));
        }
        if chars_eq_str(&w, "block") {
            return Ok(Some(Token::Block));
        }
        if chars_eq_str(&w, "on") {
            return Ok(Some(Token::On));
        }
        if chars_eq_str(&w, "proto") {
            return Ok(Some(Token::Proto));
        }
        if chars_eq_str(&w, "port") {
            return Ok(Some(Token::Port));
        }
        if chars_eq_str(&w, "from") {
            return Ok(Some(Token::From));
        }
        if chars_eq_str(&w, "to") {
            return Ok(Some(Token::To));
        }
        // a word that is not a keyword: a definition head if the next
        // non-blank character on the line is `=`
        self.skip_blank();
        if self.pos < self.buf.len() && self.buf[self.pos] == '=' {
            Ok(Some(Token::Def(w)))
        } else {
            Ok(Some(Token::Val(w)))
        }
    }

    /// Lexes the whole input: exactly the tokens of `spec_lex`, or the
    /// first lexical error.
    pub fn tokenize(self) -> (r: Result<Vec<Token>, Error>)
        requires
            self.wf(),
        ensures
            match r {
                Ok(toks) => spec_lex(self.spec_buf(), self.spec_pos()) == Ok::<_, LexFail>(
                    toks@.map_values(|t: Token| t@),
                ),
                Err(e) => {
                    &&& spec_lex(self.spec_buf(), self.spec_pos()) matches Err(f)
                    &&& e matches Error::Lex(m)
                    &&& m@ == lex_fail_msg(spec_lex(self.spec_buf(), self.spec_pos())->Err_0)
                },
            },
    {
        let mut lx = self;
        let ghost s = lx.spec_buf();
        let ghost start = lx.spec_pos();
        let mut toks: Vec<Token> = Vec::new();
        let mut failure: Option<Error> = None;
        loop
            invariant_except_break
                failure is None,
                match spec_lex(s, lx.spec_pos()) {
                    Ok(ts) => spec_lex(s, start) == Ok::<_, LexFail>(
                        toks@.map_values(|t: Token| t@) + ts,
                    ),
                    Err(f) => spec_lex(s, start) == Err::<Seq<Tok>, _>(f),
                },
            invariant
                lx.wf(),
                lx.spec_buf() == s,
                0 <= start <= s.len(),
            ensures
                match failure {
                    None => spec_lex(s, start) == Ok::<_, LexFail>(
                        toks@.map_values(|t: Token| t@),
                    ),
                    Some(err) => {
                        &&& spec_lex(s, start) matches Err(f)
                        &&& err matches Error::Lex(m)
                        &&& m@ == lex_fail_msg(spec_lex(s, start)->Err_0)
                    },
                },
            decreases s.len() - lx.spec_pos(),
        {
            let ghost pos_before = lx.spec_pos();
            match lx.next_token() {
                Ok(Some(t)) => {
                    proof {
                        match spec_lex(s, lx.spec_pos()) {
                            Ok(ts) => {
                                assert(toks@.push(t).map_values(|x: Token| x@) + ts =~= toks@
                                    .map_values(|x: Token| x@) + (seq![t@] + ts));
                            },
                            Err(_) => {},
                        }
                    }
                    toks.push(t);
                },
                Ok(None) => {
                    proof {
                        assert(toks@.map_values(|t: Token| t@) + Seq::<Tok>::empty() =~= toks@
                            .map_values(|t: Token| t@));
                    }
                    break ;
                },
                Err(e) => {
                    failure = Some(e);
                    break ;
                },
            }
        }
        if let Some(err) = failure {
            return Err(err);
        }
        Ok(toks)
    }
}

} // verus!
