//! The preprocessor: definition capture and substitution, and cartesian
//! list expansion.
//!
//! The token stream is split into lines at `Nl` tokens (with an implicit
//! final newline).  Within a line, `name = token` records a binding and
//! produces no output; `$name` references are replaced by their binding.
//! A line holding `k` list literals of sizes n1..nk is emitted once per
//! member combination — n1 * ... * nk times, the first list varying
//! slowest — each list literal replaced by one member, and each emission
//! terminated by a newline token.
//!
//! `spec_preprocess` is the reference: `PreProc::preprocess` returns
//! exactly its result.

use vstd::prelude::*;

use crate::error::Error;
use crate::token::{copy_chars, items_view, toks_view, Tok, Token};

verus! {

/// The ways preprocessing can fail; each carries the offending name.
pub enum PreFail {
    /// A `$name` reference with no binding.
    UnknownIdent(Seq<char>),
    /// A definition head without an `=` after it.
    MissingAssign(Seq<char>),
    /// A definition with no value token after the `=`.
    MissingValue(Seq<char>),
    /// A definition whose value is itself a definition head: such a
    /// token can never be substituted meaningfully.
    InvalidValue(Seq<char>),
}

/// First position at or after `i` holding a newline token, or the
/// length: the end of the current line.
pub open spec fn line_end(ts: Seq<Tok>, i: int) -> int
    decreases ts.len() - i,
{
    if i < 0 || i >= ts.len() || ts[i] is Nl {
        i
    } else {
        line_end(ts, i + 1)
    }
}

pub proof fn lemma_line_end(ts: Seq<Tok>, i: int)
    requires
        0 <= i <= ts.len(),
    ensures
        i <= line_end(ts, i) <= ts.len(),
        line_end(ts, i) < ts.len() ==> ts[line_end(ts, i)] is Nl,
        forall|k: int| i <= k < line_end(ts, i) ==> !((#[trigger] ts[k]) is Nl),
    decreases ts.len() - i,
{
    if i < ts.len() && !(ts[i] is Nl) {
        lemma_line_end(ts, i + 1);
    }
}

/// An environment is sound when no binding is a definition head or an
/// unresolved reference; substitution then never reintroduces one.
pub open spec fn env_ok(env: Map<Seq<char>, Tok>) -> bool {
    forall|k: Seq<char>|
        env.dom().contains(k) ==> !((#[trigger] env[k]) is Def) && !(env[k] is Ident)
}

/// Definition capture and substitution over one line, left to right:
/// `Def name, Assign, value` extends the environment (resolving a value
/// that is itself a reference) and produces nothing; `Ident name` is
/// replaced by its binding; everything else passes through.
pub open spec fn spec_macros(line: Seq<Tok>, env: Map<Seq<char>, Tok>) -> Result<
    (Seq<Tok>, Map<Seq<char>, Tok>),
    PreFail,
>
    decreases line.len(),
{
    if line.len() == 0 {
        Ok((Seq::empty(), env))
    } else {
        match line[0] {
            Tok::Ident(name) => {
                if env.dom().contains(name) {
                    match spec_macros(line.drop_first(), env) {
                        Ok((rest, env2)) => Ok((seq![env[name]] + rest, env2)),
                        Err(f) => Err(f),
                    }
                } else {
                    Err(PreFail::UnknownIdent(name))
                }
            },
            Tok::Def(name) => {
                if line.len() < 2 || !(line[1] is Assign) {
                    Err(PreFail::MissingAssign(name))
                } else if line.len() < 3 {
                    Err(PreFail::MissingValue(name))
                } else {
                    match line[2] {
                        Tok::Ident(vn) => {
                            if env.dom().contains(vn) {
                                spec_macros(line.skip(3), env.insert(name, env[vn]))
                            } else {
                                Err(PreFail::UnknownIdent(vn))
                            }
                        },
                        Tok::Def(_) => Err(PreFail::InvalidValue(name)),
                        value => spec_macros(line.skip(3), env.insert(name, value)),
                    }
                }
            },
            t => {
                match spec_macros(line.drop_first(), env) {
                    Ok((rest, env2)) => Ok((seq![t] + rest, env2)),
                    Err(f) => Err(f),
                }
            },
        }
    }
}

/// The member lists of the list literals of a line, in order.
pub open spec fn line_lists(line: Seq<Tok>) -> Seq<Seq<Seq<char>>>
    decreases line.len(),
{
    if line.len() == 0 {
        Seq::empty()
    } else {
        match line[0] {
            Tok::List(items) => seq![items] + line_lists(line.drop_first()),
            _ => line_lists(line.drop_first()),
        }
    }
}

/// Every row of `rows`, with `e` put in front.
pub open spec fn prepend_all(e: Seq<char>, rows: Seq<Seq<Seq<char>>>) -> Seq<Seq<Seq<char>>> {
    rows.map_values(|r: Seq<Seq<char>>| seq![e] + r)
}

/// The rows obtained by choosing each member of `first` in turn (in
/// order) in front of every row of `rows`.
pub open spec fn flat_product(first: Seq<Seq<char>>, rows: Seq<Seq<Seq<char>>>) -> Seq<
    Seq<Seq<char>>,
>
    decreases first.len(),
{
    if first.len() == 0 {
        Seq::empty()
    } else {
        prepend_all(first[0], rows) + flat_product(first.drop_first(), rows)
    }
}

/// The cartesian product of the member lists, in lexicographic order:
/// the first list varies slowest.
pub open spec fn cart(lists: Seq<Seq<Seq<char>>>) -> Seq<Seq<Seq<char>>>
    decreases lists.len(),
{
    if lists.len() == 0 {
        seq![Seq::empty()]
    } else {
        flat_product(lists[0], cart(lists.drop_first()))
    }
}

/// The product of the list sizes.
pub open spec fn sizes_product(lists: Seq<Seq<Seq<char>>>) -> nat
    decreases lists.len(),
{
    if lists.len() == 0 {
        1
    } else {
        lists[0].len() * sizes_product(lists.drop_first())
    }
}

/// One emission of a line: each list literal replaced by the next
/// member of the chosen row, everything else kept.
pub open spec fn subst_row(line: Seq<Tok>, row: Seq<Seq<char>>) -> Seq<Tok>
    decreases line.len(),
{
    if line.len() == 0 {
        Seq::empty()
    } else {
        match line[0] {
            Tok::List(_) => seq![Tok::Val(row[0])] + subst_row(line.drop_first(), row.drop_first()),
            t => seq![t] + subst_row(line.drop_first(), row),
        }
    }
}

/// All emissions of a line, one per row, each terminated by a newline.
pub open spec fn emit_rows(line: Seq<Tok>, rows: Seq<Seq<Seq<char>>>) -> Seq<Tok>
    decreases rows.len(),
{
    if rows.len() == 0 {
        Seq::empty()
    } else {
        subst_row(line, rows[0]) + seq![Tok::Nl] + emit_rows(line, rows.drop_first())
    }
}

/// What one processed line contributes to the output: nothing when it
/// is empty (a blank line or a pure definition line), else one emission
/// per combination of list members.
pub open spec fn expand_line(line: Seq<Tok>) -> Seq<Tok> {
    if line.len() == 0 {
        Seq::empty()
    } else {
        emit_rows(line, cart(line_lists(line)))
    }
}

/// The preprocessed form of the stream from position `i`, under the
/// bindings collected so far.
pub open spec fn spec_preprocess_from(ts: Seq<Tok>, i: int, env: Map<Seq<char>, Tok>) -> Result<
    Seq<Tok>,
    PreFail,
>
    decreases ts.len() + 1 - i,
        via spec_preprocess_from_dec
{
    if i < 0 || i >= ts.len() {
        Ok(Seq::empty())
    } else {
        let e = line_end(ts, i);
        let line = ts.subrange(i, e);
        match spec_macros(line, env) {
            Ok((pl, env2)) => match spec_preprocess_from(ts, e + 1, env2) {
                Ok(rest) => Ok(expand_line(pl) + rest),
                Err(f) => Err(f),
            },
            Err(f) => Err(f),
        }
    }
}

#[via_fn]
proof fn spec_preprocess_from_dec(ts: Seq<Tok>, i: int, env: Map<Seq<char>, Tok>) {
    if 0 <= i < ts.len() {
        lemma_line_end(ts, i);
    }
}

/// The preprocessed form of a whole token stream: all definitions
/// resolved, all list literals expanded, each statement terminated by a
/// newline.  This is the reference preprocessor.
pub open spec fn spec_preprocess(ts: Seq<Tok>) -> Result<Seq<Tok>, PreFail> {
    spec_preprocess_from(ts, 0, Map::empty())
}

// ---------------------------------------------------------------------
// Laws
// ---------------------------------------------------------------------
/// A token a preprocessed stream may hold: not a definition head, not
/// an unresolved reference, not a list literal.
pub open spec fn tok_flat(t: Tok) -> bool {
    !(t is Def) && !(t is Ident) && !(t is List)
}

proof fn lemma_macros_flat(line: Seq<Tok>, env: Map<Seq<char>, Tok>)
    requires
        env_ok(env),
    ensures
        spec_macros(line, env) matches Ok((pl, env2)) ==> env_ok(env2) && forall|k: int|
            0 <= k < pl.len() ==> !((#[trigger] pl[k]) is Def) && !(pl[k] is Ident),
    decreases line.len(),
{
    if line.len() > 0 {
        match line[0] {
            Tok::Ident(name) => {
                if env.dom().contains(name) {
                    lemma_macros_flat(line.drop_first(), env);
                    match spec_macros(line.drop_first(), env) {
                        Ok((rest, env2)) => {
                            let pl = seq![env[name]] + rest;
                            assert(forall|k: int|
                                1 <= k < pl.len() ==> #[trigger] pl[k] == rest[k - 1]);
                        },
                        Err(_) => {},
                    }
                }
            },
            Tok::Def(name) => {
                if line.len() >= 3 && line[1] is Assign {
                    match line[2] {
                        Tok::Ident(vn) => {
                            if env.dom().contains(vn) {
                                lemma_macros_flat(line.skip(3), env.insert(name, env[vn]));
                            }
                        },
                        Tok::Def(_) => {},
                        value => {
                            lemma_macros_flat(line.skip(3), env.insert(name, value));
                        },
                    }
                }
            },
            t => {
                lemma_macros_flat(line.drop_first(), env);
                match spec_macros(line.drop_first(), env) {
                    Ok((rest, env2)) => {
                        let pl = seq![t] + rest;
                        assert(forall|k: int|
                            1 <= k < pl.len() ==> #[trigger] pl[k] == rest[k - 1]);
                    },
                    Err(_) => {},
                }
            },
        }
    }
}

proof fn lemma_subst_flat(line: Seq<Tok>, row: Seq<Seq<char>>)
    requires
        forall|k: int| 0 <= k < line.len() ==> !((#[trigger] line[k]) is Def) && !(line[k] is Ident),
    ensures
        forall|k: int|
            0 <= k < subst_row(line, row).len() ==> tok_flat(#[trigger] subst_row(line, row)[k]),
    decreases line.len(),
{
    if line.len() > 0 {
        assert(forall|k: int|
            0 <= k < line.len() - 1 ==> #[trigger] line.drop_first()[k] == line[k + 1]);
        match line[0] {
            Tok::List(_) => {
                lemma_subst_flat(line.drop_first(), row.drop_first());
                let out = seq![Tok::Val(row[0])] + subst_row(line.drop_first(), row.drop_first());
                assert(forall|k: int|
                    1 <= k < out.len() ==> #[trigger] out[k] == subst_row(
                        line.drop_first(),
                        row.drop_first(),
                    )[k - 1]);
            },
            t => {
                lemma_subst_flat(line.drop_first(), row);
                let out = seq![t] + subst_row(line.drop_first(), row);
                assert(forall|k: int|
                    1 <= k < out.len() ==> #[trigger] out[k] == subst_row(
                        line.drop_first(),
                        row,
                    )[k - 1]);
            },
        }
    }
}

proof fn lemma_emit_flat(line: Seq<Tok>, rows: Seq<Seq<Seq<char>>>)
    requires
        forall|k: int| 0 <= k < line.len() ==> !((#[trigger] line[k]) is Def) && !(line[k] is Ident),
    ensures
        forall|k: int|
            0 <= k < emit_rows(line, rows).len() ==> tok_flat(#[trigger] emit_rows(line, rows)[k]),
    decreases rows.len(),
{
    if rows.len() > 0 {
        lemma_subst_flat(line, rows[0]);
        lemma_emit_flat(line, rows.drop_first());
        let head = subst_row(line, rows[0]) + seq![Tok::Nl];
        let out = head + emit_rows(line, rows.drop_first());
        assert(forall|k: int|
            0 <= k < head.len() - 1 ==> #[trigger] head[k] == subst_row(line, rows[0])[k]);
        assert(tok_flat(head[head.len() - 1]));
        assert(forall|k: int|
            0 <= k < out.len() ==> #[trigger] out[k] == if k < head.len() {
                head[k]
            } else {
                emit_rows(line, rows.drop_first())[k - head.len()]
            });
    }
}

proof fn lemma_preprocess_from_flat(ts: Seq<Tok>, i: int, env: Map<Seq<char>, Tok>)
    requires
        env_ok(env),
        0 <= i,
    ensures
        spec_preprocess_from(ts, i, env) matches Ok(out) ==> forall|k: int|
            0 <= k < out.len() ==> tok_flat(#[trigger] out[k]),
    decreases ts.len() + 1 - i,
{
    if i < ts.len() {
        lemma_line_end(ts, i);
        let e = line_end(ts, i);
        let line = ts.subrange(i, e);
        lemma_macros_flat(line, env);
        match spec_macros(line, env) {
            Ok((pl, env2)) => {
                lemma_preprocess_from_flat(ts, e + 1, env2);
                match spec_preprocess_from(ts, e + 1, env2) {
                    Ok(rest) => {
                        if pl.len() > 0 {
                            lemma_emit_flat(pl, cart(line_lists(pl)));
                        }
                        let out = expand_line(pl) + rest;
                        assert(forall|k: int|
                            0 <= k < out.len() ==> #[trigger] out[k] == if k < expand_line(
                                pl,
                            ).len() {
                                expand_line(pl)[k]
                            } else {
                                rest[k - expand_line(pl).len()]
                            });
                    },
                    Err(_) => {},
                }
            },
            Err(_) => {},
        }
    }
}

/// A preprocessed stream holds no `Def`, `Ident` or `List` token, for
/// every input stream.
pub proof fn lemma_preprocess_flat(ts: Seq<Tok>)
    ensures
        spec_preprocess(ts) matches Ok(out) ==> forall|k: int|
            0 <= k < out.len() ==> tok_flat(#[trigger] out[k]),
{
    lemma_preprocess_from_flat(ts, 0, Map::empty());
}

/// The product of `k` lists yields exactly the product of their sizes.
pub proof fn lemma_cartesian_count(lists: Seq<Seq<Seq<char>>>)
    ensures
        cart(lists).len() == sizes_product(lists),
    decreases lists.len(),
{
    if lists.len() > 0 {
        lemma_cartesian_count(lists.drop_first());
        lemma_flat_product_len(lists[0], cart(lists.drop_first()));
    }
}

proof fn lemma_flat_product_len(first: Seq<Seq<char>>, rows: Seq<Seq<Seq<char>>>)
    ensures
        flat_product(first, rows).len() == first.len() * rows.len(),
    decreases first.len(),
{
    if first.len() > 0 {
        lemma_flat_product_len(first.drop_first(), rows);
        assert(first.len() * rows.len() == rows.len() + (first.len() - 1) * rows.len())
            by (nonlinear_arith);
    }
}

/// A choice of one member per list: `c[k]` is a member of `lists[k]`.
pub open spec fn is_choice(lists: Seq<Seq<Seq<char>>>, c: Seq<Seq<char>>) -> bool {
    c.len() == lists.len() && forall|k: int|
        0 <= k < lists.len() ==> (#[trigger] lists[k]).contains(c[k])
}

/// Every emitted row chooses one member per list: the expansion is
/// sound.
pub proof fn lemma_cartesian_sound(lists: Seq<Seq<Seq<char>>>, j: int)
    requires
        0 <= j < cart(lists).len(),
    ensures
        is_choice(lists, cart(lists)[j]),
    decreases lists.len(),
{
    if lists.len() == 0 {
        assert(cart(lists)[0] =~= Seq::<Seq<char>>::empty());
    } else {
        let rows = cart(lists.drop_first());
        lemma_flat_sound(lists[0], rows, j);
        let (m, r) = flat_decomp(lists[0], rows, j);
        lemma_cartesian_sound(lists.drop_first(), r);
        let c = cart(lists)[j];
        assert(c == seq![lists[0][m]] + rows[r]);
        assert(c[0] == lists[0][m]);
        assert(lists[0].contains(c[0]));
        assert(forall|k: int|
            1 <= k < lists.len() ==> (#[trigger] lists[k]) == lists.drop_first()[k - 1]);
        assert(forall|k: int| 1 <= k < c.len() ==> (#[trigger] c[k]) == rows[r][k - 1]);
    }
}

/// Which member index and which sub-row an emitted row decomposes into.
spec fn flat_decomp(first: Seq<Seq<char>>, rows: Seq<Seq<Seq<char>>>, j: int) -> (int, int) {
    (j / rows.len() as int, j % rows.len() as int)
}

proof fn lemma_flat_sound(first: Seq<Seq<char>>, rows: Seq<Seq<Seq<char>>>, j: int)
    requires
        0 <= j < flat_product(first, rows).len(),
    ensures
        ({
            let (m, r) = flat_decomp(first, rows, j);
            &&& 0 <= m < first.len()
            &&& 0 <= r < rows.len()
            &&& flat_product(first, rows)[j] == seq![first[m]] + rows[r]
        }),
    decreases first.len(),
{
    lemma_flat_product_len(first, rows);
    assert(rows.len() > 0) by {
        if rows.len() == 0 {
            assert(first.len() * 0 == 0) by (nonlinear_arith);
        }
    }
    if j < rows.len() {
        assert(flat_product(first, rows)[j] == prepend_all(first[0], rows)[j]);
        assert(j / rows.len() as int == 0 && j % rows.len() as int == j) by (nonlinear_arith)
            requires
                0 <= j < rows.len(),
        ;
    } else {
        lemma_flat_product_len(first.drop_first(), rows);
        lemma_flat_sound(first.drop_first(), rows, j - rows.len());
        let (m2, r2) = flat_decomp(first.drop_first(), rows, j - rows.len());
        assert(flat_product(first, rows)[j] == flat_product(first.drop_first(), rows)[j
            - rows.len()]);
        assert(first.drop_first()[m2] == first[m2 + 1]);
        assert(j / rows.len() as int == m2 + 1 && j % rows.len() as int == r2)
            by (nonlinear_arith)
            requires
                rows.len() > 0,
                j >= rows.len(),
                m2 == (j - rows.len()) / rows.len() as int,
                r2 == (j - rows.len()) % rows.len() as int,
        ;
    }
}

/// Every choice of one member per list appears among the emitted rows:
/// the expansion is complete.
pub proof fn lemma_cartesian_complete(lists: Seq<Seq<Seq<char>>>, c: Seq<Seq<char>>)
    requires
        is_choice(lists, c),
    ensures
        cart(lists).contains(c),
    decreases lists.len(),
{
    if lists.len() == 0 {
        assert(c =~= Seq::<Seq<char>>::empty());
        assert(cart(lists)[0] == c);
    } else {
        let tail = c.drop_first();
        assert(forall|k: int|
            0 <= k < lists.drop_first().len() ==> (#[trigger] lists.drop_first()[k]) == lists[k
                + 1]);
        assert(forall|k: int| 0 <= k < tail.len() ==> (#[trigger] tail[k]) == c[k + 1]);
        assert(is_choice(lists.drop_first(), tail));
        lemma_cartesian_complete(lists.drop_first(), tail);
        let rows = cart(lists.drop_first());
        let r = choose|r: int| 0 <= r < rows.len() && rows[r] == tail;
        assert(lists[0].contains(c[0]));
        let m = choose|m: int| 0 <= m < lists[0].len() && lists[0][m] == c[0];
        lemma_flat_member(lists[0], rows, m, r);
        assert(seq![c[0]] + tail =~= c);
    }
}

proof fn lemma_flat_member(first: Seq<Seq<char>>, rows: Seq<Seq<Seq<char>>>, m: int, r: int)
    requires
        0 <= m < first.len(),
        0 <= r < rows.len(),
    ensures
        flat_product(first, rows).contains(seq![first[m]] + rows[r]),
    decreases first.len(),
{
    lemma_flat_product_len(first, rows);
    if m == 0 {
        assert(flat_product(first, rows)[r] == prepend_all(first[0], rows)[r]);
        assert(prepend_all(first[0], rows)[r] == seq![first[0]] + rows[r]);
    } else {
        lemma_flat_member(first.drop_first(), rows, m - 1, r);
        let sub = flat_product(first.drop_first(), rows);
        let w = choose|w: int| 0 <= w < sub.len() && sub[w] == seq![first.drop_first()[m - 1]]
            + rows[r];
        assert(flat_product(first, rows)[rows.len() + w] == sub[w]);
        assert(first.drop_first()[m - 1] == first[m]);
    }
}

// ---------------------------------------------------------------------
// Executable preprocessor
// ---------------------------------------------------------------------
/// The message the preprocessor reports for each failure.
pub open spec fn pre_fail_msg(f: PreFail) -> Seq<char> {
    match f {
        PreFail::UnknownIdent(n) => "unknown identifier "@ + n,
        PreFail::MissingAssign(n) => "expected `=` after `"@ + n + "`"@,
        PreFail::MissingValue(n) => "invalid `"@ + n + " = [no value]`"@,
        PreFail::InvalidValue(n) => "invalid value in definition of `"@ + n + "`"@,
    }
}

fn msg_around(before: &str, name: &Vec<char>, after: &str) -> (r: String)
    ensures
        r@ == before@ + name@ + after@,
{
    let mut m = String::from_str(before);
    let n = crate::text::chars_to_string(name);
    m.append(n.as_str());
    m.append(after);
    m
}

/// The bindings an association list denotes; a later pair overrides an
/// earlier one with the same name.
pub open spec fn env_view(ps: Seq<(Vec<char>, Token)>) -> Map<Seq<char>, Tok>
    decreases ps.len(),
{
    if ps.len() == 0 {
        Map::empty()
    } else {
        env_view(ps.drop_last()).insert(ps.last().0@, ps.last().1@)
    }
}

/// The most recent binding of `name`, if any.
fn env_lookup(ps: &Vec<(Vec<char>, Token)>, name: &Vec<char>) -> (r: Option<Token>)
    ensures
        match r {
            Some(t) => env_view(ps@).dom().contains(name@) && t@ == env_view(ps@)[name@],
            None => !env_view(ps@).dom().contains(name@),
        },
{
    let mut i: usize = ps.len();
    proof {
        assert(ps@.subrange(0, ps@.len() as int) =~= ps@);
    }
    while i > 0
        invariant
            i <= ps.len(),
            env_view(ps@).dom().contains(name@) ==> env_view(ps@.subrange(0, i as int)).dom()
                .contains(name@) && env_view(ps@.subrange(0, i as int))[name@] == env_view(
                ps@,
            )[name@],
            env_view(ps@.subrange(0, i as int)).dom().contains(name@) ==> env_view(ps@).dom()
                .contains(name@),
        decreases i,
    {
        let p = &ps[i - 1];
        proof {
            let pre = ps@.subrange(0, i as int);
            assert(pre.drop_last() =~= ps@.subrange(0, i - 1));
            assert(pre.last() == ps@[i - 1]);
        }
        if crate::text::chars_eq(&p.0, name) {
            return Some(p.1.dup());
        }
        i = i - 1;
    }
    proof {
        assert(ps@.subrange(0, 0) =~= Seq::<(Vec<char>, Token)>::empty());
    }
    None
}

/// Records a binding; an existing binding of the same name is
/// overridden.
fn env_insert(ps: &mut Vec<(Vec<char>, Token)>, name: Vec<char>, value: Token)
    ensures
        env_view(final(ps)@) == env_view(old(ps)@).insert(name@, value@),
{
    let ghost pre = ps@;
    ps.push((name, value));
    proof {
        assert(ps@.drop_last() =~= pre);
    }
}

/// Definition capture and substitution over one line; extends the
/// environment and returns the substituted line.
fn process_macros(line: &Vec<Token>, env: &mut Vec<(Vec<char>, Token)>) -> (r: Result<
    Vec<Token>,
    Error,
>)
    ensures
        match r {
            Ok(pl) => spec_macros(toks_view(line@), env_view(old(env)@)) == Ok::<_, PreFail>(
                (toks_view(pl@), env_view(final(env)@)),
            ),
            Err(e) => {
                &&& spec_macros(toks_view(line@), env_view(old(env)@)) matches Err(f)
                &&& e matches Error::Parse(m)
                &&& m@ == pre_fail_msg(spec_macros(toks_view(line@), env_view(old(env)@))->Err_0)
            },
        },
{
    let ghost ll = toks_view(line@);
    let ghost env0 = env_view(old(env)@);
    let mut pl: Vec<Token> = Vec::new();
    let mut k: usize = 0;
    let mut failure: Option<Error> = None;
    proof {
        assert(ll.skip(0) =~= ll);
        match spec_macros(ll, env_view(env@)) {
            Ok((rest, env2)) => {
                assert(toks_view(pl@) + rest =~= rest);
            },
            Err(_) => {},
        }
    }
    loop
        invariant_except_break
            failure is None,
            match spec_macros(ll.skip(k as int), env_view(env@)) {
                Ok((rest, env2)) => spec_macros(ll, env0) == Ok::<_, PreFail>(
                    (toks_view(pl@) + rest, env2),
                ),
                Err(f) => spec_macros(ll, env0) == Err::<(Seq<Tok>, Map<Seq<char>, Tok>), _>(f),
            },
        invariant
            k <= line.len(),
            ll == toks_view(line@),
            env0 == env_view(old(env)@),
        ensures
            match failure {
                None => k == line.len() && spec_macros(ll, env0) == Ok::<_, PreFail>(
                    (toks_view(pl@), env_view(env@)),
                ),
                Some(err) => {
                    &&& spec_macros(ll, env0) matches Err(f)
                    &&& err matches Error::Parse(m)
                    &&& m@ == pre_fail_msg(spec_macros(ll, env0)->Err_0)
                },
            },
        decreases line.len() - k,
    {
        if k == line.len() {
            proof {
                assert(ll.skip(k as int) =~= Seq::<Tok>::empty());
                assert(toks_view(pl@) + Seq::<Tok>::empty() =~= toks_view(pl@));
            }
            break ;
        }
        proof {
            assert(ll.skip(k as int)[0] == ll[k as int]);
            assert(ll.skip(k as int).drop_first() =~= ll.skip(k + 1));
        }
        match &line[k] {
            Token::Ident(name) => {
                match env_lookup(env, name) {
                    Some(t) => {
                        proof {
                            match spec_macros(ll.skip(k + 1), env_view(env@)) {
                                Ok((rest, env2)) => {
                                    assert(toks_view(pl@.push(t)) + rest =~= toks_view(pl@) + (seq![
                                        env_view(env@)[name@],
                                    ] + rest));
                                },
                                Err(_) => {},
                            }
                        }
                        pl.push(t);
                        k = k + 1;
                    },
                    None => {
                        failure = Some(
                            Error::Parse(msg_around("unknown identifier ", name, "")),
                        );
                        proof {
                            reveal_strlit("");
                            assert("unknown identifier "@ + name@ + ""@ =~= "unknown identifier "@
                                + name@);
                        }
                        break ;
                    },
                }
            },
            Token::Def(name) => {
                if k + 1 >= line.len() || !(matches!(&line[k + 1], Token::Assign)) {
                    failure = Some(Error::Parse(msg_around("expected `=` after `", name, "`")));
                    break ;
                }
                if k + 2 >= line.len() {
                    failure = Some(
                        Error::Parse(msg_around("invalid `", name, " = [no value]`")),
                    );
                    break ;
                }
                proof {
                    assert(ll.skip(k as int)[1] == ll[k + 1]);
                    assert(ll.skip(k as int)[2] == ll[k + 2]);
                    assert(ll.skip(k as int).skip(3) =~= ll.skip(k + 3));
                }
                match &line[k + 2] {
                    Token::Ident(vn) => {
                        match env_lookup(env, vn) {
                            Some(t) => {
                                env_insert(env, copy_chars(name), t);
                                k = k + 3;
                            },
                            None => {
                                failure = Some(
                                    Error::Parse(msg_around("unknown identifier ", vn, "")),
                                );
                                proof {
                                    reveal_strlit("");
                                    assert("unknown identifier "@ + vn@ + ""@
                                        =~= "unknown identifier "@ + vn@);
                                }
                                break ;
                            },
                        }
                    },
                    Token::Def(_) => {
                        failure = Some(
                            Error::Parse(
                                msg_around("invalid value in definition of `", name, "`"),
                            ),
                        );
                        break ;
                    },
                    value => {
                        let v = value.dup();
                        env_insert(env, copy_chars(name), v);
                        k = k + 3;
                    },
                }
            },
            t => {
                let d = t.dup();
                proof {
                    match spec_macros(ll.skip(k + 1), env_view(env@)) {
                        Ok((rest, env2)) => {
                            assert(toks_view(pl@.push(d)) + rest =~= toks_view(pl@) + (seq![
                                ll[k as int],
                            ] + rest));
                        },
                        Err(_) => {},
                    }
                }
                pl.push(d);
                k = k + 1;
            },
        }
    }
    if let Some(err) = failure {
        return Err(err);
    }
    Ok(pl)
}

/// The member lists an executable list-of-lists denotes.
pub open spec fn lists_view(ls: Seq<Vec<Vec<char>>>) -> Seq<Seq<Seq<char>>> {
    ls.map_values(|l: Vec<Vec<char>>| items_view(l@))
}

/// Collects the member lists of the line's list literals, in order.
fn collect_lists(pl: &Vec<Token>) -> (r: Vec<Vec<Vec<char>>>)
    ensures
        lists_view(r@) == line_lists(toks_view(pl@)),
{
    let ghost ll = toks_view(pl@);
    let mut out: Vec<Vec<Vec<char>>> = Vec::new();
    let mut k: usize = 0;
    proof {
        assert(ll.skip(0) =~= ll);
        assert(lists_view(out@) + line_lists(ll) =~= line_lists(ll));
    }
    while k < pl.len()
        invariant
            k <= pl.len(),
            ll == toks_view(pl@),
            line_lists(ll) == lists_view(out@) + line_lists(ll.skip(k as int)),
        decreases pl.len() - k,
    {
        proof {
            assert(ll.skip(k as int)[0] == ll[k as int]);
            assert(ll.skip(k as int).drop_first() =~= ll.skip(k + 1));
        }
        match &pl[k] {
            Token::List(items) => {
                let mut copy: Vec<Vec<char>> = Vec::new();
                let mut m: usize = 0;
                while m < items.len()
                    invariant
                        m <= items.len(),
                        copy@.len() == m,
                        forall|j: int| 0 <= j < m ==> (#[trigger] copy@[j])@ == items@[j]@,
                    decreases items.len() - m,
                {
                    copy.push(copy_chars(&items[m]));
                    m = m + 1;
                }
                proof {
                    assert(items_view(copy@) =~= items_view(items@));
                    assert(lists_view(out@.push(copy)) =~= lists_view(out@) + seq![
                        items_view(items@),
                    ]);
                    assert(lists_view(out@) + seq![items_view(items@)] + line_lists(
                        ll.skip(k + 1),
                    ) =~= lists_view(out@) + (seq![items_view(items@)] + line_lists(
                        ll.skip(k + 1),
                    )));
                }
                out.push(copy);
            },
            _ => {},
        }
        k = k + 1;
    }
    proof {
        assert(ll.skip(pl.len() as int) =~= Seq::<Tok>::empty());
        assert(lists_view(out@) + line_lists(ll.skip(pl.len() as int)) =~= lists_view(out@));
    }
    out
}

/// A row with `w` put in front.
fn prepend_word(w: &Vec<char>, row: &Vec<Vec<char>>) -> (r: Vec<Vec<char>>)
    ensures
        items_view(r@) == seq![w@] + items_view(row@),
{
    let mut out: Vec<Vec<char>> = Vec::new();
    out.push(copy_chars(w));
    let mut m: usize = 0;
    while m < row.len()
        invariant
            m <= row.len(),
            out@.len() == m + 1,
            (out@[0])@ == w@,
            forall|j: int| 1 <= j <= m ==> (#[trigger] out@[j])@ == row@[j - 1]@,
        decreases row.len() - m,
    {
        out.push(copy_chars(&row[m]));
        m = m + 1;
    }
    proof {
        let want = seq![w@] + items_view(row@);
        assert(forall|j: int|
            0 <= j < want.len() ==> items_view(out@)[j] == #[trigger] want[j]);
        assert(items_view(out@) =~= want);
    }
    out
}

/// Every row of `rows`, with `w` put in front.
fn prepend_to_rows(w: &Vec<char>, rows: &Vec<Vec<Vec<char>>>) -> (r: Vec<Vec<Vec<char>>>)
    ensures
        lists_view(r@) == prepend_all(w@, lists_view(rows@)),
{
    let mut out: Vec<Vec<Vec<char>>> = Vec::new();
    let mut j: usize = 0;
    while j < rows.len()
        invariant
            j <= rows.len(),
            out@.len() == j,
            forall|m: int|
                0 <= m < j ==> items_view((#[trigger] out@[m])@) == seq![w@] + items_view(
                    rows@[m]@,
                ),
        decreases rows.len() - j,
    {
        let p = prepend_word(w, &rows[j]);
        out.push(p);
        j = j + 1;
    }
    proof {
        assert(lists_view(out@) =~= prepend_all(w@, lists_view(rows@)));
    }
    out
}

/// The combinations of one member per list, from position `k` on, in
/// lexicographic order with the first list varying slowest.
fn cartesian_product(lists: &Vec<Vec<Vec<char>>>, k: usize) -> (r: Vec<Vec<Vec<char>>>)
    requires
        k <= lists.len(),
    ensures
        lists_view(r@) == cart(lists_view(lists@).skip(k as int)),
    decreases lists.len() - k,
{
    let ghost lv = lists_view(lists@);
    if k == lists.len() {
        let mut out: Vec<Vec<Vec<char>>> = Vec::new();
        out.push(Vec::new());
        proof {
            assert(lv.skip(k as int) =~= Seq::<Seq<Seq<char>>>::empty());
            assert(lists_view(out@) =~~= seq![Seq::<Seq<char>>::empty()]);
        }
        out
    } else {
        let rest = cartesian_product(lists, k + 1);
        proof {
            assert(lv.skip(k as int)[0] == lv[k as int]);
            assert(lv.skip(k as int).drop_first() =~= lv.skip(k + 1));
        }
        let first = &lists[k];
        let ghost fv = items_view(first@);
        let ghost rv = lists_view(rest@);
        let mut out: Vec<Vec<Vec<char>>> = Vec::new();
        let mut m: usize = 0;
        proof {
            assert(fv.skip(0) =~= fv);
            assert(lists_view(out@) + flat_product(fv, rv) =~= flat_product(fv, rv));
        }
        while m < first.len()
            invariant
                m <= first.len(),
                fv == items_view(first@),
                rv == lists_view(rest@),
                flat_product(fv, rv) == lists_view(out@) + flat_product(fv.skip(m as int), rv),
            decreases first.len() - m,
        {
            proof {
                assert(fv.skip(m as int)[0] == fv[m as int]);
                assert(fv.skip(m as int).drop_first() =~= fv.skip(m + 1));
            }
            let mut block = prepend_to_rows(&first[m], &rest);
            proof {
                assert(fv[m as int] == first@[m as int]@);
                assert(lists_view(out@ + block@) =~= lists_view(out@) + lists_view(block@));
                assert(lists_view(out@) + prepend_all(fv[m as int], rv) + flat_product(
                    fv.skip(m + 1),
                    rv,
                ) =~= lists_view(out@) + (prepend_all(fv[m as int], rv) + flat_product(
                    fv.skip(m + 1),
                    rv,
                )));
            }
            out.append(&mut block);
            m = m + 1;
        }
        proof {
            assert(fv.skip(first.len() as int) =~= Seq::<Seq<char>>::empty());
            assert(lists_view(out@) + flat_product(fv.skip(first.len() as int), rv) =~= lists_view(
                out@,
            ));
            assert(cart(lv.skip(k as int)) == flat_product(fv, rv));
        }
        out
    }
}

/// Appends one emission of the line, the chosen row substituted in.
fn emit_one(pl: &Vec<Token>, row: &Vec<Vec<char>>, out: &mut Vec<Token>)
    requires
        items_view(row@).len() == line_lists(toks_view(pl@)).len(),
    ensures
        toks_view(final(out)@) == toks_view(old(out)@) + subst_row(
            toks_view(pl@),
            items_view(row@),
        ) + seq![Tok::Nl],
{
    let ghost ll = toks_view(pl@);
    let ghost rv = items_view(row@);
    let ghost mut done: Seq<Tok> = Seq::empty();
    let mut k: usize = 0;
    let mut m: usize = 0;
    proof {
        assert(ll.skip(0) =~= ll);
        assert(rv.skip(0) =~= rv);
        assert(done + subst_row(ll, rv) =~= subst_row(ll, rv));
        assert(toks_view(out@) + done =~= toks_view(out@));
    }
    while k < pl.len()
        invariant
            k <= pl.len(),
            m <= row.len(),
            ll == toks_view(pl@),
            rv == items_view(row@),
            line_lists(ll.skip(k as int)).len() == rv.len() - m,
            subst_row(ll, rv) == done + subst_row(ll.skip(k as int), rv.skip(m as int)),
            toks_view(out@) == toks_view(old(out)@) + done,
        decreases pl.len() - k,
    {
        proof {
            assert(ll.skip(k as int)[0] == ll[k as int]);
            assert(ll.skip(k as int).drop_first() =~= ll.skip(k + 1));
        }
        match &pl[k] {
            Token::List(_) => {
                proof {
                    assert(rv.skip(m as int)[0] == rv[m as int]);
                    assert(rv.skip(m as int).drop_first() =~= rv.skip(m + 1));
                }
                let w = copy_chars(&row[m]);
                let t = Token::Val(w);
                proof {
                    assert(toks_view(out@.push(t)) =~= toks_view(out@) + seq![t@]);
                    assert(toks_view(old(out)@) + done + seq![Tok::Val(rv[m as int])]
                        =~= toks_view(old(out)@) + (done + seq![Tok::Val(rv[m as int])]));
                    assert(done + (seq![Tok::Val(rv[m as int])] + subst_row(
                        ll.skip(k + 1),
                        rv.skip(m + 1),
                    )) =~= (done + seq![Tok::Val(rv[m as int])]) + subst_row(
                        ll.skip(k + 1),
                        rv.skip(m + 1),
                    ));
                    done = done + seq![Tok::Val(rv[m as int])];
                }
                out.push(t);
                m = m + 1;
            },
            t => {
                let d = t.dup();
                proof {
                    assert(toks_view(out@.push(d)) =~= toks_view(out@) + seq![d@]);
                    assert(toks_view(old(out)@) + done + seq![ll[k as int]] =~= toks_view(
                        old(out)@,
                    ) + (done + seq![ll[k as int]]));
                    assert(done + (seq![ll[k as int]] + subst_row(ll.skip(k + 1), rv.skip(m as int)))
                        =~= (done + seq![ll[k as int]]) + subst_row(
                        ll.skip(k + 1),
                        rv.skip(m as int),
                    ));
                    done = done + seq![ll[k as int]];
                }
                out.push(d);
            },
        }
        k = k + 1;
    }
    out.push(Token::Nl);
    proof {
        assert(ll.skip(pl.len() as int) =~= Seq::<Tok>::empty());
        assert(rv.skip(m as int) =~= Seq::<Seq<char>>::empty());
        assert(done + Seq::<Tok>::empty() =~= done);
        assert(toks_view(final(out)@) =~= toks_view(old(out)@) + subst_row(ll, rv) + seq![
            Tok::Nl,
        ]);
    }
}

/// Appends every emission of a processed line.
fn expand_into(pl: &Vec<Token>, out: &mut Vec<Token>)
    ensures
        toks_view(final(out)@) == toks_view(old(out)@) + expand_line(toks_view(pl@)),
{
    let ghost ll = toks_view(pl@);
    if pl.len() == 0 {
        proof {
            assert(toks_view(out@) + Seq::<Tok>::empty() =~= toks_view(out@));
        }
        return ;
    }
    let lists = collect_lists(pl);
    let rows = cartesian_product(&lists, 0);
    proof {
        assert(lists_view(lists@).skip(0) =~= lists_view(lists@));
    }
    let ghost rws = lists_view(rows@);
    let mut j: usize = 0;
    while j < rows.len()
        invariant
            j <= rows.len(),
            ll == toks_view(pl@),
            ll.len() > 0,
            rws == lists_view(rows@),
            rws == cart(line_lists(ll)),
            toks_view(out@) =~= toks_view(old(out)@) + emit_rows_prefix(ll, rws, j as int),
        decreases rows.len() - j,
    {
        proof {
            lemma_cart_row_len(line_lists(ll), j as int);
            lemma_emit_rows_prefix_step(ll, rws, j as int);
        }
        emit_one(pl, &rows[j], out);
        proof {
            assert(toks_view(out@) =~= toks_view(old(out)@) + emit_rows_prefix(ll, rws, j + 1));
        }
        j = j + 1;
    }
    proof {
        lemma_emit_rows_prefix_all(ll, rws);
    }
}

/// The first `j` emissions of a line.
pub open spec fn emit_rows_prefix(line: Seq<Tok>, rows: Seq<Seq<Seq<char>>>, j: int) -> Seq<Tok>
    decreases j,
{
    if j <= 0 {
        Seq::empty()
    } else {
        emit_rows_prefix(line, rows, j - 1) + subst_row(line, rows[j - 1]) + seq![Tok::Nl]
    }
}

proof fn lemma_emit_rows_prefix_step(line: Seq<Tok>, rows: Seq<Seq<Seq<char>>>, j: int)
    requires
        0 <= j < rows.len(),
    ensures
        emit_rows_prefix(line, rows, j + 1) == emit_rows_prefix(line, rows, j) + subst_row(
            line,
            rows[j],
        ) + seq![Tok::Nl],
{
}

proof fn lemma_emit_rows_split(line: Seq<Tok>, rows: Seq<Seq<Seq<char>>>, j: int)
    requires
        0 <= j <= rows.len(),
    ensures
        emit_rows_prefix(line, rows, j) + emit_rows(line, rows.skip(j)) == emit_rows(line, rows),
    decreases j,
{
    if j == 0 {
        assert(rows.skip(0) =~= rows);
        assert(Seq::<Tok>::empty() + emit_rows(line, rows) =~= emit_rows(line, rows));
    } else {
        lemma_emit_rows_split(line, rows, j - 1);
        let tail = rows.skip(j - 1);
        assert(tail[0] == rows[j - 1]);
        assert(tail.drop_first() =~= rows.skip(j));
        assert(emit_rows(line, tail) == subst_row(line, rows[j - 1]) + seq![Tok::Nl] + emit_rows(
            line,
            rows.skip(j),
        ));
        assert(emit_rows_prefix(line, rows, j) + emit_rows(line, rows.skip(j)) =~= emit_rows_prefix(
            line,
            rows,
            j - 1,
        ) + emit_rows(line, tail));
    }
}

proof fn lemma_emit_rows_prefix_all(line: Seq<Tok>, rows: Seq<Seq<Seq<char>>>)
    ensures
        emit_rows_prefix(line, rows, rows.len() as int) == emit_rows(line, rows),
{
    lemma_emit_rows_split(line, rows, rows.len() as int);
    assert(rows.skip(rows.len() as int) =~= Seq::<Seq<Seq<char>>>::empty());
    assert(emit_rows_prefix(line, rows, rows.len() as int) + Seq::<Tok>::empty()
        =~= emit_rows_prefix(line, rows, rows.len() as int));
}

/// The preprocessor: consumes a token stream, resolves definitions and
/// expands lists.
pub struct PreProc {
    tokens: Vec<Token>,
}

impl PreProc {
    pub closed spec fn spec_tokens(self) -> Seq<Tok> {
        toks_view(self.tokens@)
    }

    pub fn new(tokens: Vec<Token>) -> (r: PreProc)
        ensures
            r.spec_tokens() == toks_view(tokens@),
    {
        PreProc { tokens }
    }

    /// Preprocesses the stream: exactly the result of
    /// `spec_preprocess`, or the first failure.
    pub fn preprocess(self) -> (r: Result<Vec<Token>, Error>)
        ensures
            match r {
                Ok(out) => spec_preprocess(self.spec_tokens()) == Ok::<_, PreFail>(
                    toks_view(out@),
                ),
                Err(e) => {
                    &&& spec_preprocess(self.spec_tokens()) matches Err(f)
                    &&& e matches Error::Parse(m)
                    &&& m@ == pre_fail_msg(spec_preprocess(self.spec_tokens())->Err_0)
                },
            },
    {
        let toks = self.tokens;
        let ghost tv = toks_view(toks@);
        let mut out: Vec<Token> = Vec::new();
        let mut env: Vec<(Vec<char>, Token)> = Vec::new();
        let mut i: usize = 0;
        let mut failure: Option<Error> = None;
        proof {
            assert(env_view(env@) =~= Map::<Seq<char>, Tok>::empty());
        }
        loop
            invariant_except_break
                failure is None,
                match spec_preprocess_from(tv, i as int, env_view(env@)) {
                    Ok(rest) => spec_preprocess(tv) == Ok::<_, PreFail>(toks_view(out@) + rest),
                    Err(f) => spec_preprocess(tv) == Err::<Seq<Tok>, _>(f),
                },
            invariant
                i <= toks.len(),
                tv == toks_view(toks@),
            ensures
                match failure {
                    None => spec_preprocess(tv) == Ok::<_, PreFail>(toks_view(out@)),
                    Some(err) => {
                        &&& spec_preprocess(tv) matches Err(f)
                        &&& err matches Error::Parse(m)
                        &&& m@ == pre_fail_msg(spec_preprocess(tv)->Err_0)
                    },
                },
            decreases toks.len() - i,
        {
            if i >= toks.len() {
                proof {
                    assert(toks_view(out@) + Seq::<Tok>::empty() =~= toks_view(out@));
                }
                break ;
            }
            // find the end of the current line
            let mut e: usize = i;
            while e < toks.len() && !(matches!(&toks[e], Token::Nl))
                invariant
                    i <= e <= toks.len(),
                    tv == toks_view(toks@),
                    line_end(tv, i as int) == line_end(tv, e as int),
                decreases toks.len() - e,
            {
                e = e + 1;
            }
            proof {
                assert(line_end(tv, i as int) == e as int);
            }
            // copy the line
            let mut line: Vec<Token> = Vec::new();
            let mut k: usize = i;
            while k < e
                invariant
                    i <= k <= e <= toks.len(),
                    tv == toks_view(toks@),
                    line@.len() == k - i,
                    forall|m: int| 0 <= m < line@.len() ==> (#[trigger] line@[m])@ == tv[i + m],
                decreases e - k,
            {
                let d = toks[k].dup();
                line.push(d);
                k = k + 1;
            }
            let ghost linev = tv.subrange(i as int, e as int);
            proof {
                assert(forall|m: int|
                    0 <= m < linev.len() ==> toks_view(line@)[m] == #[trigger] linev[m]);
                assert(toks_view(line@) =~= linev);
            }
            let ghost i0 = i as int;
            let ghost outv0 = toks_view(out@);
            let ghost envv0 = env_view(env@);
            match process_macros(&line, &mut env) {
                Ok(pl) => {
                    expand_into(&pl, &mut out);
                    proof {
                        let plv = toks_view(pl@);
                        let env2 = env_view(env@);
                        assert(spec_macros(linev, envv0) == Ok::<_, PreFail>((plv, env2)));
                        if e as int + 1 >= tv.len() {
                            assert(spec_preprocess_from(tv, e + 1, env2) == Ok::<_, PreFail>(
                                Seq::<Tok>::empty(),
                            ));
                            assert(spec_preprocess_from(tv, toks.len() as int, env2) == Ok::<
                                _,
                                PreFail,
                            >(Seq::<Tok>::empty()));
                        }
                        match spec_preprocess_from(tv, e + 1, env2) {
                            Ok(rest) => {
                                assert(spec_preprocess_from(tv, i0, envv0) == Ok::<_, PreFail>(
                                    expand_line(plv) + rest,
                                ));
                                assert(toks_view(out@) + rest =~= outv0 + (expand_line(plv)
                                    + rest));
                                if e as int + 1 >= tv.len() {
                                    assert(toks_view(out@) + Seq::<Tok>::empty() =~= toks_view(
                                        out@,
                                    ));
                                }
                            },
                            Err(_) => {},
                        }
                    }
                    if e < toks.len() {
                        i = e + 1;
                    } else {
                        i = toks.len();
                    }
                },
                Err(err) => {
                    failure = Some(err);
                    break ;
                },
            }
        }
        if let Some(err) = failure {
            return Err(err);
        }
        Ok(out)
    }
}

/// Every row of the product has one entry per list.
pub proof fn lemma_cart_row_len(lists: Seq<Seq<Seq<char>>>, j: int)
    requires
        0 <= j < cart(lists).len(),
    ensures
        cart(lists)[j].len() == lists.len(),
    decreases lists.len(),
{
    if lists.len() == 0 {
        assert(cart(lists)[0] =~= Seq::<Seq<char>>::empty());
    } else {
        let rows = cart(lists.drop_first());
        lemma_flat_sound(lists[0], rows, j);
        let (m, r) = flat_decomp(lists[0], rows, j);
        lemma_cart_row_len(lists.drop_first(), r);
    }
}


proof fn lemma_line_lists_flat(line: Seq<Tok>)
    requires
        forall|k: int| 0 <= k < line.len() ==> !((#[trigger] line[k]) is List),
    ensures
        line_lists(line) == Seq::<Seq<Seq<char>>>::empty(),
    decreases line.len(),
{
    if line.len() > 0 {
        assert(forall|k: int|
            0 <= k < line.len() - 1 ==> #[trigger] line.drop_first()[k] == line[k + 1]);
        lemma_line_lists_flat(line.drop_first());
    }
}

proof fn lemma_subst_row_flat(line: Seq<Tok>, row: Seq<Seq<char>>)
    requires
        forall|k: int| 0 <= k < line.len() ==> !((#[trigger] line[k]) is List),
    ensures
        subst_row(line, row) == line,
    decreases line.len(),
{
    if line.len() > 0 {
        assert(forall|k: int|
            0 <= k < line.len() - 1 ==> #[trigger] line.drop_first()[k] == line[k + 1]);
        lemma_subst_row_flat(line.drop_first(), row);
        assert(seq![line[0]] + line.drop_first() =~= line);
    }
}

/// A line without list literals expands to itself: the preprocessor
/// emits it once, unchanged, terminated by a newline.
pub proof fn lemma_expand_flat_line(line: Seq<Tok>)
    requires
        line.len() > 0,
        forall|k: int| 0 <= k < line.len() ==> !((#[trigger] line[k]) is List),
    ensures
        expand_line(line) == line + seq![Tok::Nl],
{
    lemma_line_lists_flat(line);
    let rows = cart(line_lists(line));
    assert(rows == seq![Seq::<Seq<char>>::empty()]);
    assert(rows.drop_first() =~= Seq::<Seq<Seq<char>>>::empty());
    lemma_subst_row_flat(line, Seq::<Seq<char>>::empty());
    assert(emit_rows(line, rows) == subst_row(line, rows[0]) + seq![Tok::Nl] + emit_rows(
        line,
        rows.drop_first(),
    ));
    assert(line + seq![Tok::Nl] + Seq::<Tok>::empty() =~= line + seq![Tok::Nl]);
}


/// Substitution leaves a line without definitions or references
/// untouched, and binds nothing.
pub proof fn lemma_macros_identity(line: Seq<Tok>, env: Map<Seq<char>, Tok>)
    requires
        forall|k: int|
            0 <= k < line.len() ==> !((#[trigger] line[k]) is Def) && !(line[k] is Ident),
    ensures
        spec_macros(line, env) == Ok::<(Seq<Tok>, Map<Seq<char>, Tok>), PreFail>((line, env)),
    decreases line.len(),
{
    if line.len() == 0 {
        assert(line =~= Seq::<Tok>::empty());
    } else {
        assert(forall|k: int|
            0 <= k < line.len() - 1 ==> #[trigger] line.drop_first()[k] == line[k + 1]);
        lemma_macros_identity(line.drop_first(), env);
        assert(seq![line[0]] + line.drop_first() =~= line);
    }
}

/// A stream that holds no definition, reference or list literal, whose
/// statements are nonempty and separated by single newlines, and which
/// ends with a newline, passes through the preprocessor unchanged.
#[verifier::rlimit(100)]
#[verifier::spinoff_prover]
pub proof fn lemma_preprocess_identity_from(ts: Seq<Tok>, i: int, env: Map<Seq<char>, Tok>)
    requires
        0 <= i <= ts.len(),
        forall|k: int| i <= k < ts.len() ==> tok_flat(#[trigger] ts[k]),
        i < ts.len() ==> !(ts[i] is Nl),
        forall|k: int|
            i <= k && k + 1 < ts.len() ==> !((#[trigger] ts[k]) is Nl && ts[k + 1] is Nl),
        i < ts.len() ==> ts[ts.len() - 1] is Nl,
    ensures
        spec_preprocess_from(ts, i, env) == Ok::<Seq<Tok>, PreFail>(ts.skip(i)),
    decreases ts.len() + 1 - i,
{
    if i >= ts.len() {
        assert(ts.skip(i) =~= Seq::<Tok>::empty());
    } else {
        lemma_line_end(ts, i);
        let e = line_end(ts, i);
        assert(e < ts.len()) by {
            if e == ts.len() {
                assert(ts[ts.len() - 1] is Nl);
            }
        }
        let line = ts.subrange(i, e);
        assert(forall|k: int| 0 <= k < line.len() ==> #[trigger] line[k] == ts[i + k]);
        lemma_macros_identity(line, env);
        assert(line.len() > 0);
        lemma_expand_flat_line(line);
        lemma_preprocess_identity_from(ts, e + 1, env);
        assert(line + seq![Tok::Nl] + ts.skip(e + 1) =~= ts.skip(i)) by {
            assert(ts[e] is Nl);
            assert(ts[e] == Tok::Nl);
            assert(forall|j: int|
                0 <= j < ts.len() - i ==> #[trigger] ts.skip(i)[j] == ts[i + j]);
        }
    }
}

/// The identity over a whole such stream.
pub proof fn lemma_preprocess_identity(ts: Seq<Tok>)
    requires
        forall|k: int| 0 <= k < ts.len() ==> tok_flat(#[trigger] ts[k]),
        ts.len() > 0 ==> !(ts[0] is Nl),
        forall|k: int|
            0 <= k && k + 1 < ts.len() ==> !((#[trigger] ts[k]) is Nl && ts[k + 1] is Nl),
        ts.len() > 0 ==> ts[ts.len() - 1] is Nl,
    ensures
        spec_preprocess(ts) == Ok::<Seq<Tok>, PreFail>(ts),
{
    lemma_preprocess_identity_from(ts, 0, Map::empty());
    assert(ts.skip(0) =~= ts);
}

} // verus!
