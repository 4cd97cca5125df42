//! The closed set of lexical tokens, with a mathematical model.
//!
//! `Token` is the executable token; `Tok` is its spec-level model, with
//! text as `Seq<char>`.  Contracts throughout the pipeline speak of
//! `Tok` sequences.  Lists cannot nest, and every member of a list
//! literal is a plain value, so a `List` carries its member words.

use vstd::prelude::*;

verus! {

/// The spec-level token model.
pub enum Tok {
    All,
    Assign,
    Block,
    From,
    Nl,
    On,
    Pass,
    Port,
    Proto,
    To,
    Val(Seq<char>),
    Def(Seq<char>),
    Ident(Seq<char>),
    List(Seq<Seq<char>>),
}

/// One lexical token.  Keywords are bare variants; `Val` carries a
/// whitespace-delimited word, `Def` the name on the left of an `=`,
/// `Ident` a `$name` reference, and `List` the member values of a
/// `{ ... }` literal.
#[derive(Debug, PartialEq)]
pub enum Token {
    All,
    Assign,
    Block,
    From,
    Nl,
    On,
    Pass,
    Port,
    Proto,
    To,
    Val(Vec<char>),
    Def(Vec<char>),
    Ident(Vec<char>),
    List(Vec<Vec<char>>),
}

/// The model of a token sequence.
pub open spec fn toks_view(ts: Seq<Token>) -> Seq<Tok> {
    ts.map_values(|t: Token| t@)
}

/// The model of a list literal's members.
pub open spec fn items_view(ts: Seq<Vec<char>>) -> Seq<Seq<char>> {
    ts.map_values(|w: Vec<char>| w@)
}

impl View for Token {
    type V = Tok;

    open spec fn view(&self) -> Tok {
        match self {
            Token::All => Tok::All,
            Token::Assign => Tok::Assign,
            Token::Block => Tok::Block,
            Token::From => Tok::From,
            Token::Nl => Tok::Nl,
            Token::On => Tok::On,
            Token::Pass => Tok::Pass,
            Token::Port => Tok::Port,
            Token::Proto => Tok::Proto,
            Token::To => Tok::To,
            Token::Val(w) => Tok::Val(w@),
            Token::Def(w) => Tok::Def(w@),
            Token::Ident(w) => Tok::Ident(w@),
            Token::List(ts) => Tok::List(items_view(ts@)),
        }
    }
}

impl Token {
    /// A structural copy: the duplicate has the same model.
    pub fn dup(&self) -> (r: Token)
        ensures
            r@ == self@,
    {
        match self {
            Token::All => Token::All,
            Token::Assign => Token::Assign,
            Token::Block => Token::Block,
            Token::From => Token::From,
            Token::Nl => Token::Nl,
            Token::On => Token::On,
            Token::Pass => Token::Pass,
            Token::Port => Token::Port,
            Token::Proto => Token::Proto,
            Token::To => Token::To,
            Token::Val(w) => Token::Val(copy_chars(w)),
            Token::Def(w) => Token::Def(copy_chars(w)),
            Token::Ident(w) => Token::Ident(copy_chars(w)),
            Token::List(ts) => {
                let mut out: Vec<Vec<char>> = Vec::new();
                let mut i: usize = 0;
                while i < ts.len()
                    invariant
                        i <= ts@.len(),
                        out@.len() == i,
                        forall|k: int| 0 <= k < i ==> (#[trigger] out@[k])@ == ts@[k]@,
                    decreases ts@.len() - i,
                {
                    let w = copy_chars(&ts[i]);
                    out.push(w);
                    i = i + 1;
                }
                let r = Token::List(out);
                proof {
                    assert(items_view(out@) =~= items_view(ts@));
                }
                r
            },
        }
    }
}

/// Copies a word.
pub fn copy_chars(w: &Vec<char>) -> (r: Vec<char>)
    ensures
        r@ == w@,
{
    let mut v: Vec<char> = Vec::new();
    let mut i: usize = 0;
    while i < w.len()
        invariant
            i <= w@.len(),
            v@ =~= w@.subrange(0, i as int),
        decreases w@.len() - i,
    {
        v.push(w[i]);
        proof {
            assert(v@ =~= w@.subrange(0, i + 1));
        }
        i = i + 1;
    }
    proof {
        assert(v@ =~= w@);
    }
    v
}

} // verus!
