//! The markup grammar of `view!`: tags, fragments, attributes, text, embedded
//! expression blocks and keyed `for` blocks, read from a token stream into a
//! flat list of build events.
//!
//! Rust code inside `{ .. }` is not markup: a block reaches the parser as one
//! token carrying the number of the block, and a `{ for .. in .. { .. } }`
//! block as a `ForStart` token, the tokens of its markup body, and `ForEnd`.
use vstd::prelude::*;
use crate::view_attrs::{strip_raw_prefix, strip_raw_spec};
use crate::text::{join, push_char};

verus! {

/// One token of markup.
#[derive(Debug, PartialEq, Eq)]
pub enum MarkupTok {
    Lt,
    Gt,
    Slash,
    Minus,
    Colon,
    Eq,
    /// An identifier or keyword, as written (`r#type` keeps its prefix).
    Ident(String),
    /// The value of a string literal.
    Str(String),
    /// A `{ .. }` block of Rust code, by number.
    Block(usize),
    /// The start of a `{ for .. in .. { .. } }` block, by number; the tokens
    /// of its body follow, then `ForEnd`.
    ForStart(usize),
    ForEnd,
    /// Any other token.
    Other,
}

/// A token with its text as a character sequence.
pub enum TokV {
    Lt,
    Gt,
    Slash,
    Minus,
    Colon,
    Eq,
    Ident(Seq<char>),
    Str(Seq<char>),
    Block(usize),
    ForStart(usize),
    ForEnd,
    Other,
}

pub open spec fn tok_view(t: MarkupTok) -> TokV {
    match t {
        MarkupTok::Lt => TokV::Lt,
        MarkupTok::Gt => TokV::Gt,
        MarkupTok::Slash => TokV::Slash,
        MarkupTok::Minus => TokV::Minus,
        MarkupTok::Colon => TokV::Colon,
        MarkupTok::Eq => TokV::Eq,
        MarkupTok::Ident(s) => TokV::Ident(s@),
        MarkupTok::Str(s) => TokV::Str(s@),
        MarkupTok::Block(n) => TokV::Block(n),
        MarkupTok::ForStart(n) => TokV::ForStart(n),
        MarkupTok::ForEnd => TokV::ForEnd,
        MarkupTok::Other => TokV::Other,
    }
}

pub open spec fn toks_view(ts: Seq<MarkupTok>) -> Seq<TokV> {
    ts.map_values(|t: MarkupTok| tok_view(t))
}

/// The value of an attribute.
#[derive(Debug, PartialEq, Eq)]
pub enum AttrValue {
    /// `key={ .. }`: a block, by number.
    Expr(usize),
    /// `key="text"`.
    Text(String),
    /// A bare `key`, which stands for `key=true`.
    Flag,
}

pub enum AttrValueV {
    Expr(usize),
    Text(Seq<char>),
    Flag,
}

/// An attribute: `part-part-..` with an optional `:namespace` part, and its
/// value.
#[derive(Debug, PartialEq, Eq)]
pub struct MarkupAttr {
    pub parts: Vec<String>,
    pub namespace: Option<String>,
    pub value: AttrValue,
}

pub struct AttrV {
    pub parts: Seq<Seq<char>>,
    pub namespace: Option<Seq<char>>,
    pub value: AttrValueV,
}

pub open spec fn value_view(v: AttrValue) -> AttrValueV {
    match v {
        AttrValue::Expr(n) => AttrValueV::Expr(n),
        AttrValue::Text(s) => AttrValueV::Text(s@),
        AttrValue::Flag => AttrValueV::Flag,
    }
}

pub open spec fn opt_view(o: Option<String>) -> Option<Seq<char>> {
    match o {
        Some(s) => Some(s@),
        None => None,
    }
}

pub open spec fn parts_view(ps: Seq<String>) -> Seq<Seq<char>> {
    ps.map_values(|p: String| p@)
}

pub open spec fn attr_view(a: MarkupAttr) -> AttrV {
    AttrV { parts: parts_view(a.parts@), namespace: opt_view(a.namespace), value: value_view(a.value) }
}

pub open spec fn attrs_view(a: Seq<MarkupAttr>) -> Seq<AttrV> {
    a.map_values(|x: MarkupAttr| attr_view(x))
}

/// `-part` for each part after the first.
pub open spec fn render_more_parts(ps: Seq<Seq<char>>) -> Seq<TokV> {
    Seq::new(2 * ps.len(), |x: int| if x % 2 == 0 { TokV::Minus } else { TokV::Ident(ps[x / 2]) })
}

pub open spec fn render_ns(ns: Option<Seq<char>>) -> Seq<TokV> {
    match ns {
        Some(n) => seq![TokV::Colon, TokV::Ident(n)],
        None => Seq::empty(),
    }
}

pub open spec fn render_value(v: AttrValueV) -> Seq<TokV> {
    match v {
        AttrValueV::Expr(n) => seq![TokV::Eq, TokV::Block(n)],
        AttrValueV::Text(s) => seq![TokV::Eq, TokV::Str(s)],
        AttrValueV::Flag => Seq::empty(),
    }
}

/// The tokens an attribute is written with.
pub open spec fn render_attr(a: AttrV) -> Seq<TokV> {
    seq![TokV::Ident(a.parts[0])] + render_more_parts(a.parts.drop_first()) + render_ns(a.namespace)
        + render_value(a.value)
}

pub open spec fn render_attrs(a: Seq<AttrV>) -> Seq<TokV>
    decreases a.len(),
{
    if a.len() == 0 {
        Seq::empty()
    } else {
        render_attrs(a.drop_last()) + render_attr(a.last())
    }
}

/// Whether the tokens `r` stand in `tv` from position `i` on.
pub open spec fn fits(tv: Seq<TokV>, i: int, r: Seq<TokV>) -> bool {
    0 <= i && i + r.len() <= tv.len() && tv.subrange(i, i + r.len()) == r
}

/// A token that may follow an attribute: the next attribute's first part,
/// or the end of the opening tag.
pub open spec fn attr_follow(t: TokV) -> bool {
    t is Ident || t is Gt || t is Slash
}

/// An attribute written at `i` and followed by a token that may follow it.
pub open spec fn attr_fits(tv: Seq<TokV>, i: int, a: AttrV) -> bool {
    &&& a.parts.len() > 0
    &&& fits(tv, i, render_attr(a))
    &&& i + render_attr(a).len() < tv.len()
    &&& attr_follow(tv[i + render_attr(a).len()])
}

/// Why markup could not be read.
#[derive(Debug, PartialEq, Eq)]
pub enum MarkupError {
    /// The token at this position cannot stand there.
    Unexpected(usize),
    /// The tokens ended inside a node.
    End,
    /// The closing tag whose name stands at this position does not match
    /// the open element, whose tag is given.
    MismatchedClose { at: usize, open_tag: String },
}

/// `e` is the end of the tokens or an unexpected token among the `n`.
pub open spec fn plain_error(e: MarkupError, n: nat) -> bool {
    match e {
        MarkupError::Unexpected(p) => p < n,
        MarkupError::End => true,
        MarkupError::MismatchedClose { .. } => false,
    }
}

fn tok_is_ident(t: &MarkupTok) -> (r: Option<String>)
    ensures
        match r {
            Some(s) => tok_view(*t) == TokV::Ident(s@),
            None => !(tok_view(*t) is Ident),
        },
{
    match t {
        MarkupTok::Ident(s) => Some(s.clone()),
        _ => None,
    }
}

proof fn lemma_render_attr_shape(a: AttrV)
    requires
        a.parts.len() > 0,
    ensures
        render_attr(a).len() == 2 * a.parts.len() - 1 + render_ns(a.namespace).len() + render_value(
            a.value,
        ).len(),
        render_attr(a)[0] == TokV::Ident(a.parts[0]),
        forall|m: int|
            1 <= m < a.parts.len() ==> render_attr(a)[2 * m - 1] == TokV::Minus && render_attr(a)[2
                * m] == TokV::Ident(a.parts[m]),
        render_attr(a).subrange(2 * a.parts.len() - 1, render_attr(a).len() as int) == render_ns(
            a.namespace,
        ) + render_value(a.value),
{
    let head = seq![TokV::Ident(a.parts[0])] + render_more_parts(a.parts.drop_first());
    let r = render_attr(a);
    assert(r =~= head + (render_ns(a.namespace) + render_value(a.value)));
    assert forall|m: int| 1 <= m < a.parts.len() implies r[2 * m - 1] == TokV::Minus && r[2 * m]
        == TokV::Ident(a.parts[m]) by {
        assert(head[2 * m - 1] == render_more_parts(a.parts.drop_first())[2 * m - 2]);
        assert(head[2 * m] == render_more_parts(a.parts.drop_first())[2 * m - 1]);
        assert((2 * m - 1) / 2 == m - 1);
    }
    assert(r.subrange(2 * a.parts.len() - 1, r.len() as int) =~= render_ns(a.namespace) + render_value(
        a.value,
    ));
}

/// Where each token of an attribute written at `i` stands.
#[verifier::spinoff_prover]
#[verifier::rlimit(40)]
proof fn lemma_attr_at(tv: Seq<TokV>, i: int, a: AttrV)
    requires
        attr_fits(tv, i, a),
    ensures
        tv[i] == TokV::Ident(a.parts[0]),
        forall|m: int|
            1 <= m < a.parts.len() ==> tv[i + 2 * m - 1] == TokV::Minus && #[trigger] tv[i + 2 * m]
                == TokV::Ident(a.parts[m]),
        ({
            let b = i + 2 * a.parts.len() - 1;
            let c = b + render_ns(a.namespace).len();
            let e = c + render_value(a.value).len();
            &&& e == i + render_attr(a).len()
            &&& e < tv.len()
            &&& attr_follow(tv[e])
            &&& !(tv[b] is Minus)
            &&& (tv[b] is Colon <==> a.namespace is Some)
            &&& (a.namespace matches Some(x) ==> tv[b + 1] == TokV::Ident(x))
            &&& (tv[c] is Eq <==> !(a.value is Flag))
            &&& (a.value matches AttrValueV::Expr(k) ==> tv[c + 1] == TokV::Block(k))
            &&& (a.value matches AttrValueV::Text(x) ==> tv[c + 1] == TokV::Str(x))
        }),
{
    lemma_render_attr_shape(a);
    let r = render_attr(a);
    let n = a.parts.len() as int;
    let b = i + 2 * n - 1;
    let tail = render_ns(a.namespace) + render_value(a.value);
    assert forall|o: int| 0 <= o < r.len() implies tv[i + o] == r[o] by {
        assert(tv.subrange(i, i + r.len())[o] == tv[i + o]);
    }
    assert forall|o: int| 0 <= o < tail.len() implies tv[b + o] == tail[o] by {
        assert(r.subrange(2 * n - 1, r.len() as int)[o] == r[2 * n - 1 + o]);
    }
    assert forall|m: int| 1 <= m < a.parts.len() implies tv[i + 2 * m - 1] == TokV::Minus
        && #[trigger] tv[i + 2 * m] == TokV::Ident(a.parts[m]) by {
        assert(tv[i + (2 * m - 1)] == r[2 * m - 1]);
        assert(tv[i + 2 * m] == r[2 * m]);
    }
    assert(tv[i + 0] == r[0]);
    let c = b + render_ns(a.namespace).len();
    if a.namespace is Some {
        assert(tail[0] == TokV::Colon);
        assert(tv[b + 0] == tail[0]);
        assert(tv[b + 1] == tail[1]);
    }
    if !(a.value is Flag) {
        let o = render_ns(a.namespace).len() as int;
        assert(tail[o] == render_value(a.value)[0]);
        assert(tail[o + 1] == render_value(a.value)[1]);
        assert(tv[b + o] == tail[o]);
        assert(tv[b + (o + 1)] == tail[o + 1]);
    }
    if a.namespace is None && !(a.value is Flag) {
        assert(tail[0] == TokV::Eq);
        assert(tv[b + 0] == tail[0]);
    }
}

fn tok_is_minus(t: &MarkupTok) -> (r: bool)
    ensures
        r == (tok_view(*t) is Minus),
{
    match t {
        MarkupTok::Minus => true,
        _ => false,
    }
}

fn tok_is_colon(t: &MarkupTok) -> (r: bool)
    ensures
        r == (tok_view(*t) is Colon),
{
    match t {
        MarkupTok::Colon => true,
        _ => false,
    }
}

fn tok_is_eq(t: &MarkupTok) -> (r: bool)
    ensures
        r == (tok_view(*t) is Eq),
{
    match t {
        MarkupTok::Eq => true,
        _ => false,
    }
}

/// Reads one attribute at `i`.
#[verifier::spinoff_prover]
#[verifier::rlimit(40)]
fn read_attr(toks: &Vec<MarkupTok>, i: usize) -> (r: Result<(MarkupAttr, usize), MarkupError>)
    requires
        i < toks.len(),
    ensures
        match r {
            Ok((a, j)) => i < j <= toks.len() && attr_view(a).parts.len() > 0 && fits(
                toks_view(toks@),
                i as int,
                render_attr(attr_view(a)),
            ) && j == i + render_attr(attr_view(a)).len(),
            Err(_) => true,
        },
        forall|a2: AttrV| #[trigger]
            attr_fits(toks_view(toks@), i as int, a2) ==> (r matches Ok((a, j)) && attr_view(a) == a2),
        r matches Err(e) ==> plain_error(e, toks@.len()),
{
    let ghost tv = toks_view(toks@);
    assert(tv.len() == toks@.len());
    assert(tv[i as int] == tok_view(toks@[i as int]));
    let first = match tok_is_ident(&toks[i]) {
        Some(s) => s,
        None => {
            proof {
                assert forall|a2: AttrV| !#[trigger] attr_fits(tv, i as int, a2) by {
                    if attr_fits(tv, i as int, a2) {
                        lemma_attr_at(tv, i as int, a2);
                    }
                }
            }
            return Err(MarkupError::Unexpected(i));
        },
    };
    let mut parts: Vec<String> = Vec::new();
    parts.push(first);
    let mut j: usize = i + 1;
    proof {
        assert forall|a2: AttrV| #[trigger] attr_fits(tv, i as int, a2) implies parts_view(parts@)
            == a2.parts.take(1) by {
            lemma_attr_at(tv, i as int, a2);
            assert(parts_view(parts@) =~= a2.parts.take(1));
        }
        assert(tv.subrange(i as int, j as int) =~= seq![TokV::Ident(parts_view(parts@)[0])]
            + render_more_parts(parts_view(parts@).drop_first()));
    }
    let mut more = true;
    while more
        invariant
            tv == toks_view(toks@),
            tv.len() == toks@.len(),
            i < j <= toks.len(),
            parts.len() >= 1,
            j == i + 2 * parts.len() - 1,
            tv.subrange(i as int, j as int) == seq![TokV::Ident(parts_view(parts@)[0])]
                + render_more_parts(parts_view(parts@).drop_first()),
            forall|a2: AttrV| #[trigger]
                attr_fits(tv, i as int, a2) ==> parts.len() <= a2.parts.len() && parts_view(parts@)
                    == a2.parts.take(parts.len() as int),
            !more ==> (j == toks.len() || !(tv[j as int] is Minus)),
        decreases toks.len() - j + (if more { 1int } else { 0int }),
    {
        if j < toks.len() && tok_is_minus(&toks[j]) {
            assert(tv[j as int] == tok_view(toks@[j as int]));
            proof {
                assert forall|a2: AttrV| #[trigger] attr_fits(tv, i as int, a2) implies parts.len()
                    < a2.parts.len() by {
                    lemma_attr_at(tv, i as int, a2);
                }
            }
            if j + 1 >= toks.len() {
                proof {
                    assert forall|a2: AttrV| !#[trigger] attr_fits(tv, i as int, a2) by {
                        if attr_fits(tv, i as int, a2) {
                            lemma_attr_at(tv, i as int, a2);
                            assert(tv[i + 2 * parts.len()] == TokV::Ident(a2.parts[parts.len() as int]));
                        }
                    }
                }
                return Err(MarkupError::End);
            }
            assert(tv[j + 1] == tok_view(toks@[j + 1]));
            match tok_is_ident(&toks[j + 1]) {
                Some(p) => {
                    let ghost before = parts_view(parts@);
                    parts.push(p);
                    proof {
                        assert(parts_view(parts@) =~= before.push(p@));
                        assert forall|a2: AttrV| #[trigger] attr_fits(tv, i as int, a2) implies parts.len()
                            <= a2.parts.len() && parts_view(parts@) == a2.parts.take(
                            parts.len() as int,
                        ) by {
                            lemma_attr_at(tv, i as int, a2);
                            let m = before.len() as int;
                            assert(tv[i + 2 * m] == TokV::Ident(a2.parts[m]));
                            assert(parts_view(parts@) =~= a2.parts.take(m + 1));
                        }
                        let pv = parts_view(parts@);
                        assert(render_more_parts(pv.drop_first()) =~= render_more_parts(
                            before.drop_first(),
                        ) + seq![TokV::Minus, TokV::Ident(p@)]);
                        assert(tv.subrange(i as int, j + 2) =~= tv.subrange(i as int, j as int)
                            + seq![tv[j as int], tv[j + 1]]);
                    }
                    j = j + 2;
                },
                None => {
                    proof {
                        assert forall|a2: AttrV| !#[trigger] attr_fits(tv, i as int, a2) by {
                            if attr_fits(tv, i as int, a2) {
                                lemma_attr_at(tv, i as int, a2);
                                assert(tv[i + 2 * parts.len()] == TokV::Ident(
                                    a2.parts[parts.len() as int],
                                ));
                            }
                        }
                    }
                    return Err(MarkupError::Unexpected(j + 1));
                },
            }
        } else {
            if j < toks.len() {
                assert(tv[j as int] == tok_view(toks@[j as int]));
            }
            more = false;
        }
    }
    proof {
        assert forall|a2: AttrV| #[trigger] attr_fits(tv, i as int, a2) implies parts_view(parts@)
            == a2.parts by {
            lemma_attr_at(tv, i as int, a2);
            if parts.len() < a2.parts.len() {
                assert(tv[i + 2 * parts.len() - 1] == TokV::Minus);
            }
            assert(parts_view(parts@) =~= a2.parts);
        }
    }
    let ghost jb = j;
    let mut namespace: Option<String> = None;
    if j < toks.len() && tok_is_colon(&toks[j]) {
        assert(tv[j as int] == tok_view(toks@[j as int]));
        if j + 1 >= toks.len() {
            proof {
                assert forall|a2: AttrV| !#[trigger] attr_fits(tv, i as int, a2) by {
                    if attr_fits(tv, i as int, a2) {
                        lemma_attr_at(tv, i as int, a2);
                    }
                }
            }
            return Err(MarkupError::End);
        }
        assert(tv[j + 1] == tok_view(toks@[j + 1]));
        match tok_is_ident(&toks[j + 1]) {
            Some(x) => {
                namespace = Some(x);
                j = j + 2;
            },
            None => {
                proof {
                    assert forall|a2: AttrV| !#[trigger] attr_fits(tv, i as int, a2) by {
                        if attr_fits(tv, i as int, a2) {
                            lemma_attr_at(tv, i as int, a2);
                        }
                    }
                }
                return Err(MarkupError::Unexpected(j + 1));
            },
        }
    } else if j < toks.len() {
        assert(tv[j as int] == tok_view(toks@[j as int]));
    }
    proof {
        assert forall|a2: AttrV| #[trigger] attr_fits(tv, i as int, a2) implies opt_view(namespace)
            == a2.namespace && j == jb + render_ns(a2.namespace).len() by {
            lemma_attr_at(tv, i as int, a2);
        }
    }
    let ghost jc = j;
    let value: AttrValue;
    if j < toks.len() && tok_is_eq(&toks[j]) {
        assert(tv[j as int] == tok_view(toks@[j as int]));
        if j + 1 >= toks.len() {
            proof {
                assert forall|a2: AttrV| !#[trigger] attr_fits(tv, i as int, a2) by {
                    if attr_fits(tv, i as int, a2) {
                        lemma_attr_at(tv, i as int, a2);
                    }
                }
            }
            return Err(MarkupError::End);
        }
        assert(tv[j + 1] == tok_view(toks@[j + 1]));
        match &toks[j + 1] {
            MarkupTok::Block(k) => {
                value = AttrValue::Expr(*k);
            },
            MarkupTok::Str(x) => {
                value = AttrValue::Text(x.clone());
            },
            _ => {
                proof {
                    assert forall|a2: AttrV| !#[trigger] attr_fits(tv, i as int, a2) by {
                        if attr_fits(tv, i as int, a2) {
                            lemma_attr_at(tv, i as int, a2);
                        }
                    }
                }
                return Err(MarkupError::Unexpected(j + 1));
            },
        }
        j = j + 2;
    } else {
        if j < toks.len() {
            assert(tv[j as int] == tok_view(toks@[j as int]));
        }
        value = AttrValue::Flag;
    }
    let attr = MarkupAttr { parts, namespace, value };
    proof {
        let av = attr_view(attr);
        assert(av.parts == parts_view(parts@));
        assert forall|a2: AttrV| #[trigger] attr_fits(tv, i as int, a2) implies av == a2 by {
            lemma_attr_at(tv, i as int, a2);
            assert(av.value == a2.value);
        }
        assert(tv.subrange(jb as int, jc as int) =~= render_ns(av.namespace));
        assert(tv.subrange(jc as int, j as int) =~= render_value(av.value));
        assert(tv.subrange(i as int, j as int) =~= tv.subrange(i as int, jb as int) + tv.subrange(
            jb as int,
            jc as int,
        ) + tv.subrange(jc as int, j as int));
        assert(tv.subrange(i as int, j as int) =~= render_attr(av));
    }
    Ok((attr, j))
}

proof fn lemma_render_attrs_concat(x: Seq<AttrV>, y: Seq<AttrV>)
    ensures
        render_attrs(x + y) == render_attrs(x) + render_attrs(y),
    decreases y.len(),
{
    if y.len() == 0 {
        assert(x + y =~= x);
        assert(render_attrs(x) + render_attrs(y) =~= render_attrs(x));
    } else {
        assert((x + y).drop_last() =~= x + y.drop_last());
        assert((x + y).last() == y.last());
        lemma_render_attrs_concat(x, y.drop_last());
        assert(render_attrs(x + y) =~= render_attrs(x) + render_attrs(y));
    }
}

/// Attributes written at `i`, ending where the opening tag ends.
pub open spec fn attrs_fit(tv: Seq<TokV>, i: int, a: Seq<AttrV>) -> bool {
    &&& forall|k: int| 0 <= k < a.len() ==> (#[trigger] a[k]).parts.len() > 0
    &&& fits(tv, i, render_attrs(a))
    &&& i + render_attrs(a).len() < tv.len()
    &&& (tv[i + render_attrs(a).len()] is Gt || tv[i + render_attrs(a).len()] is Slash)
}

/// The attribute `a[m]` of attributes that fit at `i` fits on its own.
proof fn lemma_attrs_split(tv: Seq<TokV>, i: int, a: Seq<AttrV>, m: int)
    requires
        attrs_fit(tv, i, a),
        0 <= m < a.len(),
    ensures
        attr_fits(tv, i + render_attrs(a.take(m)).len(), a[m]),
        render_attrs(a.take(m + 1)) == render_attrs(a.take(m)) + render_attr(a[m]),
{
    let total = render_attrs(a);
    let pre = render_attrs(a.take(m));
    let one = render_attr(a[m]);
    let post = render_attrs(a.skip(m + 1));
    assert(a.take(m + 1).drop_last() =~= a.take(m));
    assert(a.take(m + 1) + a.skip(m + 1) =~= a);
    lemma_render_attrs_concat(a.take(m + 1), a.skip(m + 1));
    assert(total =~= pre + one + post);
    let p = i + pre.len();
    assert forall|o: int| 0 <= o < one.len() implies tv[p + o] == one[o] by {
        assert(tv.subrange(i, i + total.len())[pre.len() + o] == tv[p + o]);
        assert(total[pre.len() + o] == one[o]);
    }
    assert(tv.subrange(p, p + one.len()) =~= one);
    if m + 1 < a.len() {
        assert(a.skip(m + 1) =~= seq![a[m + 1]] + a.skip(m + 2));
        lemma_render_attrs_concat(seq![a[m + 1]], a.skip(m + 2));
        let single = seq![a[m + 1]];
        assert(single.drop_last() =~= Seq::<AttrV>::empty());
        assert(single.last() == a[m + 1]);
        assert(render_attrs(single) == render_attrs(single.drop_last()) + render_attr(single.last()));
        assert(render_attrs(single) =~= render_attr(a[m + 1]));
        lemma_render_attr_shape(a[m + 1]);
        assert(post[0] == render_attr(a[m + 1])[0]);
        assert(tv.subrange(i, i + total.len())[(pre.len() + one.len()) as int] == tv[p + one.len()]);
        assert(total[(pre.len() + one.len()) as int] == post[0]);
    } else {
        assert(a.skip(m + 1) =~= Seq::<AttrV>::empty());
    }
}

/// Reads the attributes of an opening tag, from `i` up to its `>` or `/`.
fn read_attrs(toks: &Vec<MarkupTok>, i: usize) -> (r: Result<(Vec<MarkupAttr>, usize), MarkupError>)
    requires
        i <= toks.len(),
    ensures
        match r {
            Ok((a, j)) => attrs_fit(toks_view(toks@), i as int, attrs_view(a@)) && j == i + render_attrs(
                attrs_view(a@),
            ).len(),
            Err(_) => true,
        },
        forall|a2: Seq<AttrV>| #[trigger]
            attrs_fit(toks_view(toks@), i as int, a2) ==> (r matches Ok((a, j)) && attrs_view(a@) == a2),
        r matches Err(e) ==> plain_error(e, toks@.len()),
{
    let ghost tv = toks_view(toks@);
    assert(tv.len() == toks@.len());
    let mut out: Vec<MarkupAttr> = Vec::new();
    let mut j: usize = i;
    assert(tv.subrange(i as int, j as int) =~= render_attrs(attrs_view(out@)));
    loop
        invariant
            tv == toks_view(toks@),
            tv.len() == toks@.len(),
            i <= j <= toks.len(),
            forall|k: int| 0 <= k < out@.len() ==> (#[trigger] attrs_view(out@)[k]).parts.len() > 0,
            tv.subrange(i as int, j as int) == render_attrs(attrs_view(out@)),
            j == i + render_attrs(attrs_view(out@)).len(),
            forall|a2: Seq<AttrV>| #[trigger]
                attrs_fit(tv, i as int, a2) ==> out@.len() <= a2.len() && attrs_view(out@) == a2.take(
                    out@.len() as int,
                ),
        decreases toks.len() - j,
    {
        if j >= toks.len() {
            proof {
                assert forall|a2: Seq<AttrV>| !#[trigger] attrs_fit(tv, i as int, a2) by {
                    if attrs_fit(tv, i as int, a2) {
                        if out@.len() < a2.len() {
                            lemma_attrs_split(tv, i as int, a2, out@.len() as int);
                        } else {
                            assert(attrs_view(out@) =~= a2);
                        }
                    }
                }
            }
            return Err(MarkupError::End);
        }
        assert(tv[j as int] == tok_view(toks@[j as int]));
        let stop = match &toks[j] {
            MarkupTok::Gt => true,
            MarkupTok::Slash => true,
            _ => false,
        };
        if stop {
            proof {
                assert forall|a2: Seq<AttrV>| #[trigger] attrs_fit(tv, i as int, a2) implies attrs_view(
                    out@,
                ) == a2 by {
                    if out@.len() < a2.len() {
                        lemma_attrs_split(tv, i as int, a2, out@.len() as int);
                        assert(a2.take(out@.len() as int) =~= attrs_view(out@));
                        lemma_attr_at(tv, j as int, a2[out@.len() as int]);
                    }
                    assert(attrs_view(out@) =~= a2);
                }
                assert(fits(tv, i as int, render_attrs(attrs_view(out@))));
            }
            return Ok((out, j));
        }
        let ghost before = attrs_view(out@);
        match read_attr(toks, j) {
            Ok((a, nj)) => {
                proof {
                    assert forall|a2: Seq<AttrV>| #[trigger] attrs_fit(tv, i as int, a2) implies out@.len()
                        < a2.len() && a2[out@.len() as int] == attr_view(a) by {
                        if out@.len() == a2.len() {
                            assert(attrs_view(out@) =~= a2);
                        } else {
                            lemma_attrs_split(tv, i as int, a2, out@.len() as int);
                            assert(a2.take(out@.len() as int) =~= attrs_view(out@));
                        }
                    }
                }
                out.push(a);
                proof {
                    assert(attrs_view(out@) =~= before.push(attr_view(a)));
                    assert(attrs_view(out@).drop_last() =~= before);
                    assert(tv.subrange(i as int, nj as int) =~= tv.subrange(i as int, j as int)
                        + tv.subrange(j as int, nj as int));
                    assert forall|a2: Seq<AttrV>| #[trigger] attrs_fit(tv, i as int, a2) implies out@.len()
                        <= a2.len() && attrs_view(out@) == a2.take(out@.len() as int) by {
                        assert(attrs_view(out@) =~= a2.take(out@.len() as int));
                    }
                }
                j = nj;
            },
            Err(e) => {
                proof {
                    assert forall|a2: Seq<AttrV>| !#[trigger] attrs_fit(tv, i as int, a2) by {
                        if attrs_fit(tv, i as int, a2) {
                            if out@.len() == a2.len() {
                                assert(attrs_view(out@) =~= a2);
                            } else {
                                lemma_attrs_split(tv, i as int, a2, out@.len() as int);
                                assert(a2.take(out@.len() as int) =~= attrs_view(out@));
                            }
                        }
                    }
                }
                return Err(e);
            },
        }
    }
}

/// One step of building the view, in the order the markup is written.
#[derive(Debug, PartialEq, Eq)]
pub enum MarkupEvent {
    /// A static text node.
    Text(String),
    /// A reactive expression block, by number.
    Expr(usize),
    /// The start of a keyed `for` block, by number; its body follows.
    ForStart(usize),
    /// The end of the innermost `for` block.
    ForEnd,
    /// `<>`: a fragment opens.
    FragmentStart,
    /// `</>`: the innermost fragment closes.
    FragmentEnd,
    /// An opening tag (`self_closing` for `<tag .. />`, which needs no end).
    ElementStart { tag: String, attrs: Vec<MarkupAttr>, self_closing: bool },
    /// `</tag>`: the innermost element closes (its tag as written here).
    ElementEnd(String),
}

pub enum EventV {
    Text(Seq<char>),
    Expr(usize),
    ForStart(usize),
    ForEnd,
    FragmentStart,
    FragmentEnd,
    ElementStart { tag: Seq<char>, attrs: Seq<AttrV>, self_closing: bool },
    ElementEnd(Seq<char>),
}

pub open spec fn event_view(e: MarkupEvent) -> EventV {
    match e {
        MarkupEvent::Text(s) => EventV::Text(s@),
        MarkupEvent::Expr(n) => EventV::Expr(n),
        MarkupEvent::ForStart(n) => EventV::ForStart(n),
        MarkupEvent::ForEnd => EventV::ForEnd,
        MarkupEvent::FragmentStart => EventV::FragmentStart,
        MarkupEvent::FragmentEnd => EventV::FragmentEnd,
        MarkupEvent::ElementStart { tag, attrs, self_closing } => EventV::ElementStart {
            tag: tag@,
            attrs: attrs_view(attrs@),
            self_closing,
        },
        MarkupEvent::ElementEnd(t) => EventV::ElementEnd(t@),
    }
}

pub open spec fn events_view(e: Seq<MarkupEvent>) -> Seq<EventV> {
    e.map_values(|x: MarkupEvent| event_view(x))
}

/// The tokens an event is written with.
pub open spec fn render_event(e: EventV) -> Seq<TokV> {
    match e {
        EventV::Text(s) => seq![TokV::Str(s)],
        EventV::Expr(n) => seq![TokV::Block(n)],
        EventV::ForStart(n) => seq![TokV::ForStart(n)],
        EventV::ForEnd => seq![TokV::ForEnd],
        EventV::FragmentStart => seq![TokV::Lt, TokV::Gt],
        EventV::FragmentEnd => seq![TokV::Lt, TokV::Slash, TokV::Gt],
        EventV::ElementStart { tag, attrs, self_closing } => seq![TokV::Lt, TokV::Ident(tag)]
            + render_attrs(attrs) + if self_closing {
            seq![TokV::Slash, TokV::Gt]
        } else {
            seq![TokV::Gt]
        },
        EventV::ElementEnd(t) => seq![TokV::Lt, TokV::Slash, TokV::Ident(t), TokV::Gt],
    }
}

pub open spec fn render_all(e: Seq<EventV>) -> Seq<TokV>
    decreases e.len(),
{
    if e.len() == 0 {
        Seq::empty()
    } else {
        render_all(e.drop_last()) + render_event(e.last())
    }
}

/// A node that is open while its children are read.
pub enum OpenFrame {
    Element(String),
    Fragment,
    Loop,
}

pub enum FrameV {
    Element(Seq<char>),
    Fragment,
    Loop,
}

pub open spec fn frame_view(f: OpenFrame) -> FrameV {
    match f {
        OpenFrame::Element(t) => FrameV::Element(t@),
        OpenFrame::Fragment => FrameV::Fragment,
        OpenFrame::Loop => FrameV::Loop,
    }
}

pub open spec fn frames_view(f: Seq<OpenFrame>) -> Seq<FrameV> {
    f.map_values(|x: OpenFrame| frame_view(x))
}

/// The open nodes after event `e`, or `None` when `e` cannot come next: an
/// end must close the innermost open node of its kind (an element by the
/// same tag, raw prefixes aside), and every attribute has a first part.
pub open spec fn step(stack: Seq<FrameV>, e: EventV) -> Option<Seq<FrameV>> {
    match e {
        EventV::Text(_) => Some(stack),
        EventV::Expr(_) => Some(stack),
        EventV::ForStart(_) => Some(stack.push(FrameV::Loop)),
        EventV::ForEnd => if stack.len() > 0 && stack.last() is Loop {
            Some(stack.drop_last())
        } else {
            None
        },
        EventV::FragmentStart => Some(stack.push(FrameV::Fragment)),
        EventV::FragmentEnd => if stack.len() > 0 && stack.last() is Fragment {
            Some(stack.drop_last())
        } else {
            None
        },
        EventV::ElementStart { tag, attrs, self_closing } => if forall|k: int|
            0 <= k < attrs.len() ==> (#[trigger] attrs[k]).parts.len() > 0 {
            if self_closing {
                Some(stack)
            } else {
                Some(stack.push(FrameV::Element(tag)))
            }
        } else {
            None
        },
        EventV::ElementEnd(t) => if stack.len() > 0 && (stack.last() matches FrameV::Element(o)
            && strip_raw_spec(o) == strip_raw_spec(t)) {
            Some(stack.drop_last())
        } else {
            None
        },
    }
}

/// The open nodes after a sequence of events, if each could come next.
pub open spec fn run(e: Seq<EventV>) -> Option<Seq<FrameV>>
    decreases e.len(),
{
    if e.len() == 0 {
        Some(Seq::empty())
    } else {
        match run(e.drop_last()) {
            Some(s) => step(s, e.last()),
            None => None,
        }
    }
}

/// The events of exactly one node: every end closes what it should, and
/// nothing is open at the end and only there.
pub open spec fn events_wf(e: Seq<EventV>) -> bool {
    &&& e.len() > 0
    &&& run(e) == Some(Seq::<FrameV>::empty())
    &&& forall|k: int| 0 < k < e.len() ==> (#[trigger] run(e.take(k)) matches Some(s) && s.len() > 0)
}

/// `e` is the markup written by the tokens `tv`.
pub open spec fn markup_of(tv: Seq<TokV>, e: Seq<EventV>) -> bool {
    events_wf(e) && render_all(e) == tv
}

proof fn lemma_render_all_concat(x: Seq<EventV>, y: Seq<EventV>)
    ensures
        render_all(x + y) == render_all(x) + render_all(y),
    decreases y.len(),
{
    if y.len() == 0 {
        assert(x + y =~= x);
        assert(render_all(x) + render_all(y) =~= render_all(x));
    } else {
        assert((x + y).drop_last() =~= x + y.drop_last());
        assert((x + y).last() == y.last());
        lemma_render_all_concat(x, y.drop_last());
        assert(render_all(x + y) =~= render_all(x) + render_all(y));
    }
}

/// Where the tokens of an event written at `i` stand.
#[verifier::spinoff_prover]
proof fn lemma_event_at(tv: Seq<TokV>, i: int, e: EventV)
    requires
        fits(tv, i, render_event(e)),
    ensures
        render_event(e).len() >= 1,
        i < tv.len(),
        match e {
            EventV::Text(s) => tv[i] == TokV::Str(s),
            EventV::Expr(n) => tv[i] == TokV::Block(n),
            EventV::ForStart(n) => tv[i] == TokV::ForStart(n),
            EventV::ForEnd => tv[i] == TokV::ForEnd,
            EventV::FragmentStart => tv[i] == TokV::Lt && tv[i + 1] == TokV::Gt,
            EventV::FragmentEnd => tv[i] == TokV::Lt && tv[i + 1] == TokV::Slash && tv[i + 2]
                == TokV::Gt,
            EventV::ElementEnd(t) => tv[i] == TokV::Lt && tv[i + 1] == TokV::Slash && tv[i + 2]
                == TokV::Ident(t) && tv[i + 3] == TokV::Gt,
            EventV::ElementStart { tag, attrs, self_closing } => {
                let j = i + 2 + render_attrs(attrs).len();
                &&& tv[i] == TokV::Lt
                &&& tv[i + 1] == TokV::Ident(tag)
                &&& fits(tv, i + 2, render_attrs(attrs))
                &&& j < tv.len()
                &&& (self_closing ==> tv[j] == TokV::Slash && j + 1 < tv.len() && tv[j + 1] == TokV::Gt)
                &&& (!self_closing ==> tv[j] == TokV::Gt)
                &&& render_event(e).len() == j - i + if self_closing { 2int } else { 1int }
            },
        },
{
    let r = render_event(e);
    assert forall|o: int| 0 <= o < r.len() implies tv[i + o] == r[o] by {
        assert(tv.subrange(i, i + r.len())[o] == tv[i + o]);
    }
    assert(tv[i + 0] == r[0]);
    match e {
        EventV::ElementStart { tag, attrs, self_closing } => {
            let ra = render_attrs(attrs);
            let tail = if self_closing {
                seq![TokV::Slash, TokV::Gt]
            } else {
                seq![TokV::Gt]
            };
            assert(r =~= seq![TokV::Lt, TokV::Ident(tag)] + ra + tail);
            assert(tv[i + 1] == r[1]);
            assert forall|o: int| 0 <= o < ra.len() implies tv[i + 2 + o] == ra[o] by {
                assert(tv[i + (2 + o)] == r[2 + o]);
            }
            assert(tv.subrange(i + 2, i + 2 + ra.len()) =~= ra);
            assert(tv[i + (2 + ra.len())] == r[(2 + ra.len()) as int]);
            if self_closing {
                assert(tv[i + (3 + ra.len())] == r[(3 + ra.len()) as int]);
            }
        },
        EventV::FragmentStart => {
            assert(tv[i + 1] == r[1]);
        },
        EventV::FragmentEnd => {
            assert(tv[i + 1] == r[1]);
            assert(tv[i + 2] == r[2]);
        },
        EventV::ElementEnd(t) => {
            assert(tv[i + 1] == r[1]);
            assert(tv[i + 2] == r[2]);
            assert(tv[i + 3] == r[3]);
        },
        _ => {},
    }
}

/// At `i` the tokens close an element (`</b>`) while the innermost open
/// node is the element `a`, and `b` names another element.
pub open spec fn mismatch_at(tv: Seq<TokV>, i: int, sv: Seq<FrameV>, a: Seq<char>) -> bool {
    &&& 0 <= i
    &&& i + 2 < tv.len()
    &&& sv.len() > 0
    &&& sv.last() == FrameV::Element(a)
    &&& tv[i] == TokV::Lt
    &&& tv[i + 1] == TokV::Slash
    &&& tv[i + 2] matches TokV::Ident(b) && strip_raw_spec(a) != strip_raw_spec(b)
}

/// Whether `e` fits at `i` and may come next after the open nodes `sv`.
pub open spec fn event_fits(tv: Seq<TokV>, i: int, sv: Seq<FrameV>, e: EventV) -> bool {
    step(sv, e) is Some && fits(tv, i, render_event(e))
}

fn top_frame(stack: &Vec<OpenFrame>) -> (r: Option<&OpenFrame>)
    ensures
        match r {
            Some(f) => stack@.len() > 0 && frames_view(stack@).last() == frame_view(*f),
            None => stack@.len() == 0,
        },
{
    if stack.len() > 0 {
        Some(&stack[stack.len() - 1])
    } else {
        None
    }
}

/// Reads the event written at `i`, given the open nodes.
#[verifier::spinoff_prover]
#[verifier::rlimit(60)]
fn read_event(toks: &Vec<MarkupTok>, i: usize, stack: &Vec<OpenFrame>) -> (r: Result<
    (MarkupEvent, usize),
    MarkupError,
>)
    requires
        i < toks.len(),
    ensures
        match r {
            Ok((e, j)) => fits(toks_view(toks@), i as int, render_event(event_view(e))) && j == i
                + render_event(event_view(e)).len() && step(frames_view(stack@), event_view(e)) is Some,
            Err(MarkupError::MismatchedClose { at, open_tag }) => at == i + 2 && mismatch_at(
                toks_view(toks@),
                i as int,
                frames_view(stack@),
                open_tag@,
            ),
            Err(e) => plain_error(e, toks@.len()),
        },
        forall|a: Seq<char>| #[trigger]
            mismatch_at(toks_view(toks@), i as int, frames_view(stack@), a) ==> (r matches Err(
                MarkupError::MismatchedClose { at, open_tag },
            ) && at == i + 2 && open_tag@ == a),
        forall|e2: EventV| #[trigger]
            event_fits(toks_view(toks@), i as int, frames_view(stack@), e2) ==> (r matches Ok((e, j))
                && event_view(e) == e2),
{
    let ghost tv = toks_view(toks@);
    let ghost sv = frames_view(stack@);
    assert(tv.len() == toks@.len());
    assert(tv[i as int] == tok_view(toks@[i as int]));
    match &toks[i] {
        MarkupTok::Str(x) => {
            let e = MarkupEvent::Text(x.clone());
            proof {
                assert(tv.subrange(i as int, i + 1) =~= render_event(event_view(e)));
                assert forall|e2: EventV| #[trigger] event_fits(tv, i as int, sv, e2) implies event_view(e)
                    == e2 by {
                    lemma_event_at(tv, i as int, e2);
                }
            }
            Ok((e, i + 1))
        },
        MarkupTok::Block(n) => {
            let e = MarkupEvent::Expr(*n);
            proof {
                assert(tv.subrange(i as int, i + 1) =~= render_event(event_view(e)));
                assert forall|e2: EventV| #[trigger] event_fits(tv, i as int, sv, e2) implies event_view(e)
                    == e2 by {
                    lemma_event_at(tv, i as int, e2);
                }
            }
            Ok((e, i + 1))
        },
        MarkupTok::ForStart(n) => {
            let e = MarkupEvent::ForStart(*n);
            proof {
                assert(tv.subrange(i as int, i + 1) =~= render_event(event_view(e)));
                assert forall|e2: EventV| #[trigger] event_fits(tv, i as int, sv, e2) implies event_view(e)
                    == e2 by {
                    lemma_event_at(tv, i as int, e2);
                }
            }
            Ok((e, i + 1))
        },
        MarkupTok::ForEnd => {
            let in_loop = match top_frame(stack) {
                Some(OpenFrame::Loop) => true,
                _ => false,
            };
            if in_loop {
                let e = MarkupEvent::ForEnd;
                proof {
                    assert(tv.subrange(i as int, i + 1) =~= render_event(event_view(e)));
                    assert forall|e2: EventV| #[trigger] event_fits(tv, i as int, sv, e2) implies event_view(
                        e,
                    ) == e2 by {
                        lemma_event_at(tv, i as int, e2);
                    }
                }
                Ok((e, i + 1))
            } else {
                proof {
                    assert forall|e2: EventV| !#[trigger] event_fits(tv, i as int, sv, e2) by {
                        if event_fits(tv, i as int, sv, e2) {
                            lemma_event_at(tv, i as int, e2);
                        }
                    }
                }
                Err(MarkupError::Unexpected(i))
            }
        },
        MarkupTok::Lt => {
            if i + 1 >= toks.len() {
                proof {
                    assert forall|e2: EventV| !#[trigger] event_fits(tv, i as int, sv, e2) by {
                        if event_fits(tv, i as int, sv, e2) {
                            lemma_event_at(tv, i as int, e2);
                        }
                    }
                }
                return Err(MarkupError::End);
            }
            assert(tv[i + 1] == tok_view(toks@[i + 1]));
            match &toks[i + 1] {
                MarkupTok::Gt => {
                    let e = MarkupEvent::FragmentStart;
                    proof {
                        assert(tv.subrange(i as int, i + 2) =~= render_event(event_view(e)));
                        assert forall|e2: EventV| #[trigger] event_fits(tv, i as int, sv, e2) implies event_view(
                            e,
                        ) == e2 by {
                            lemma_event_at(tv, i as int, e2);
                        }
                    }
                    Ok((e, i + 2))
                },
                MarkupTok::Slash => read_close(toks, i, stack),
                MarkupTok::Ident(tag) => read_open(toks, i, stack, tag),
                _ => {
                    proof {
                        assert forall|e2: EventV| !#[trigger] event_fits(tv, i as int, sv, e2) by {
                            if event_fits(tv, i as int, sv, e2) {
                                lemma_event_at(tv, i as int, e2);
                            }
                        }
                    }
                    Err(MarkupError::Unexpected(i + 1))
                },
            }
        },
        _ => {
            proof {
                assert forall|e2: EventV| !#[trigger] event_fits(tv, i as int, sv, e2) by {
                    if event_fits(tv, i as int, sv, e2) {
                        lemma_event_at(tv, i as int, e2);
                    }
                }
            }
            Err(MarkupError::Unexpected(i))
        },
    }
}

/// Reads a closing `</>` or `</tag>` at `i`.
#[verifier::spinoff_prover]
#[verifier::rlimit(60)]
fn read_close(toks: &Vec<MarkupTok>, i: usize, stack: &Vec<OpenFrame>) -> (r: Result<
    (MarkupEvent, usize),
    MarkupError,
>)
    requires
        i + 1 < toks.len(),
        toks_view(toks@)[i as int] == TokV::Lt,
        toks_view(toks@)[i + 1] == TokV::Slash,
    ensures
        match r {
            Ok((e, j)) => fits(toks_view(toks@), i as int, render_event(event_view(e))) && j == i
                + render_event(event_view(e)).len() && step(frames_view(stack@), event_view(e)) is Some,
            Err(MarkupError::MismatchedClose { at, open_tag }) => at == i + 2 && mismatch_at(
                toks_view(toks@),
                i as int,
                frames_view(stack@),
                open_tag@,
            ),
            Err(e) => plain_error(e, toks@.len()),
        },
        forall|a: Seq<char>| #[trigger]
            mismatch_at(toks_view(toks@), i as int, frames_view(stack@), a) ==> (r matches Err(
                MarkupError::MismatchedClose { at, open_tag },
            ) && at == i + 2 && open_tag@ == a),
        forall|e2: EventV| #[trigger]
            event_fits(toks_view(toks@), i as int, frames_view(stack@), e2) ==> (r matches Ok((e, j))
                && event_view(e) == e2),
{
    let ghost tv = toks_view(toks@);
    let ghost sv = frames_view(stack@);
    assert(tv.len() == toks@.len());
    match top_frame(stack) {
        Some(OpenFrame::Fragment) => {
            if i + 2 < toks.len() {
                assert(tv[i + 2] == tok_view(toks@[i + 2]));
                match &toks[i + 2] {
                    MarkupTok::Gt => {
                        let e = MarkupEvent::FragmentEnd;
                        proof {
                            assert(tv.subrange(i as int, i + 3) =~= render_event(event_view(e)));
                            assert forall|e2: EventV| #[trigger] event_fits(tv, i as int, sv, e2) implies event_view(
                                e,
                            ) == e2 by {
                                lemma_event_at(tv, i as int, e2);
                            }
                        }
                        return Ok((e, i + 3));
                    },
                    _ => {},
                }
            }
            proof {
                assert forall|e2: EventV| !#[trigger] event_fits(tv, i as int, sv, e2) by {
                    if event_fits(tv, i as int, sv, e2) {
                        lemma_event_at(tv, i as int, e2);
                    }
                }
            }
            if i + 2 < toks.len() {
                Err(MarkupError::Unexpected(i + 2))
            } else {
                Err(MarkupError::End)
            }
        },
        Some(OpenFrame::Element(open)) => {
            if i + 2 >= toks.len() {
                proof {
                    assert forall|e2: EventV| !#[trigger] event_fits(tv, i as int, sv, e2) by {
                        if event_fits(tv, i as int, sv, e2) {
                            lemma_event_at(tv, i as int, e2);
                        }
                    }
                }
                return Err(MarkupError::End);
            }
            assert(tv[i + 2] == tok_view(toks@[i + 2]));
            let close = match tok_is_ident(&toks[i + 2]) {
                Some(t) => t,
                None => {
                    proof {
                        assert forall|e2: EventV| !#[trigger] event_fits(tv, i as int, sv, e2) by {
                            if event_fits(tv, i as int, sv, e2) {
                                lemma_event_at(tv, i as int, e2);
                            }
                        }
                    }
                    return Err(MarkupError::Unexpected(i + 2));
                },
            };
            let a = strip_raw_prefix(open.as_str());
            let b = strip_raw_prefix(close.as_str());
            if a != b {
                proof {
                    assert forall|e2: EventV| !#[trigger] event_fits(tv, i as int, sv, e2) by {
                        if event_fits(tv, i as int, sv, e2) {
                            lemma_event_at(tv, i as int, e2);
                        }
                    }
                }
                return Err(MarkupError::MismatchedClose { at: i + 2, open_tag: open.clone() });
            }
            if i + 3 < toks.len() {
                assert(tv[i + 3] == tok_view(toks@[i + 3]));
                match &toks[i + 3] {
                    MarkupTok::Gt => {
                        let e = MarkupEvent::ElementEnd(close);
                        proof {
                            assert(tv.subrange(i as int, i + 4) =~= render_event(event_view(e)));
                            assert forall|e2: EventV| #[trigger] event_fits(tv, i as int, sv, e2) implies event_view(
                                e,
                            ) == e2 by {
                                lemma_event_at(tv, i as int, e2);
                            }
                        }
                        return Ok((e, i + 4));
                    },
                    _ => {},
                }
            }
            proof {
                assert forall|e2: EventV| !#[trigger] event_fits(tv, i as int, sv, e2) by {
                    if event_fits(tv, i as int, sv, e2) {
                        lemma_event_at(tv, i as int, e2);
                    }
                }
            }
            if i + 3 < toks.len() {
                Err(MarkupError::Unexpected(i + 3))
            } else {
                Err(MarkupError::End)
            }
        },
        _ => {
            proof {
                assert forall|e2: EventV| !#[trigger] event_fits(tv, i as int, sv, e2) by {
                    if event_fits(tv, i as int, sv, e2) {
                        lemma_event_at(tv, i as int, e2);
                    }
                }
            }
            Err(MarkupError::Unexpected(i + 1))
        },
    }
}

/// Reads an opening tag `<tag attrs..>` or `<tag attrs.. />` at `i`.
#[verifier::spinoff_prover]
#[verifier::rlimit(60)]
fn read_open(toks: &Vec<MarkupTok>, i: usize, stack: &Vec<OpenFrame>, tag: &String) -> (r: Result<
    (MarkupEvent, usize),
    MarkupError,
>)
    requires
        i + 1 < toks.len(),
        toks_view(toks@)[i as int] == TokV::Lt,
        toks_view(toks@)[i + 1] == TokV::Ident(tag@),
    ensures
        match r {
            Ok((e, j)) => fits(toks_view(toks@), i as int, render_event(event_view(e))) && j == i
                + render_event(event_view(e)).len() && step(frames_view(stack@), event_view(e)) is Some,
            Err(e) => plain_error(e, toks@.len()),
        },
        forall|e2: EventV| #[trigger]
            event_fits(toks_view(toks@), i as int, frames_view(stack@), e2) ==> (r matches Ok((e, j))
                && event_view(e) == e2),
{
    let ghost tv = toks_view(toks@);
    let ghost sv = frames_view(stack@);
    assert(tv.len() == toks@.len());
    proof {
        assert forall|e2: EventV| #[trigger] event_fits(tv, i as int, sv, e2) implies (e2 matches EventV::ElementStart {
            tag: t2,
            attrs: a2,
            self_closing: _,
        } && t2 == tag@ && attrs_fit(tv, i + 2, a2)) by {
            lemma_event_at(tv, i as int, e2);
        }
    }
    match read_attrs(toks, i + 2) {
        Ok((attrs, j)) => {
            let ghost av = attrs_view(attrs@);
            assert(tv[j as int] == tok_view(toks@[j as int]));
            let closes_now = match &toks[j] {
                MarkupTok::Slash => true,
                _ => false,
            };
            if closes_now {
                if j + 1 < toks.len() {
                    assert(tv[j + 1] == tok_view(toks@[j + 1]));
                    match &toks[j + 1] {
                        MarkupTok::Gt => {
                            let e = MarkupEvent::ElementStart {
                                tag: tag.clone(),
                                attrs,
                                self_closing: true,
                            };
                            proof {
                                assert(render_event(event_view(e)) =~= seq![TokV::Lt, TokV::Ident(tag@)]
                                    + render_attrs(av) + seq![TokV::Slash, TokV::Gt]);
                                assert(tv.subrange(i as int, j + 2) =~= render_event(event_view(e)));
                                assert forall|e2: EventV| #[trigger] event_fits(tv, i as int, sv, e2) implies event_view(
                                    e,
                                ) == e2 by {
                                    lemma_event_at(tv, i as int, e2);
                                }
                            }
                            return Ok((e, j + 2));
                        },
                        _ => {},
                    }
                }
                proof {
                    assert forall|e2: EventV| !#[trigger] event_fits(tv, i as int, sv, e2) by {
                        if event_fits(tv, i as int, sv, e2) {
                            lemma_event_at(tv, i as int, e2);
                        }
                    }
                }
                if j + 1 < toks.len() {
                    Err(MarkupError::Unexpected(j + 1))
                } else {
                    Err(MarkupError::End)
                }
            } else {
                let e = MarkupEvent::ElementStart { tag: tag.clone(), attrs, self_closing: false };
                proof {
                    assert(tv[j as int] is Gt);
                    assert(render_event(event_view(e)) =~= seq![TokV::Lt, TokV::Ident(tag@)]
                        + render_attrs(av) + seq![TokV::Gt]);
                    assert(tv.subrange(i as int, j + 1) =~= render_event(event_view(e)));
                    assert forall|e2: EventV| #[trigger] event_fits(tv, i as int, sv, e2) implies event_view(
                        e,
                    ) == e2 by {
                        lemma_event_at(tv, i as int, e2);
                    }
                }
                Ok((e, j + 1))
            }
        },
        Err(err) => Err(err),
    }
}

fn apply_event(stack: &mut Vec<OpenFrame>, e: &MarkupEvent)
    requires
        step(frames_view(old(stack)@), event_view(*e)) is Some,
    ensures
        step(frames_view(old(stack)@), event_view(*e)) == Some(frames_view(final(stack)@)),
{
    let ghost before = frames_view(stack@);
    match e {
        MarkupEvent::ForStart(_) => {
            stack.push(OpenFrame::Loop);
            assert(frames_view(stack@) =~= before.push(FrameV::Loop));
        },
        MarkupEvent::FragmentStart => {
            stack.push(OpenFrame::Fragment);
            assert(frames_view(stack@) =~= before.push(FrameV::Fragment));
        },
        MarkupEvent::ElementStart { tag, attrs: _, self_closing } => {
            if !*self_closing {
                stack.push(OpenFrame::Element(tag.clone()));
                assert(frames_view(stack@) =~= before.push(FrameV::Element(tag@)));
            }
        },
        MarkupEvent::ForEnd | MarkupEvent::FragmentEnd | MarkupEvent::ElementEnd(_) => {
            stack.pop();
            assert(frames_view(stack@) =~= before.drop_last());
        },
        _ => {},
    }
}

proof fn lemma_run_take(e: Seq<EventV>, k: int)
    requires
        0 <= k < e.len(),
    ensures
        run(e.take(k + 1)) == match run(e.take(k)) {
            Some(s) => step(s, e[k]),
            None => None,
        },
        render_all(e.take(k + 1)) == render_all(e.take(k)) + render_event(e[k]),
{
    assert(e.take(k + 1).drop_last() =~= e.take(k));
    assert(e.take(k + 1).last() == e[k]);
}

/// A candidate's next event stands at the position the events before it
/// end at, and may come next.
proof fn lemma_candidate_next(tv: Seq<TokV>, e2: Seq<EventV>, k: int, sv: Seq<FrameV>)
    requires
        markup_of(tv, e2),
        0 <= k < e2.len(),
        run(e2.take(k)) == Some(sv),
    ensures
        event_fits(tv, render_all(e2.take(k)).len() as int, sv, e2[k]),
{
    lemma_run_take(e2, k);
    if k + 1 < e2.len() {
        assert(run(e2.take(k + 1)) is Some);
    } else {
        assert(e2.take(k + 1) =~= e2);
    }
    assert(e2.take(k + 1) + e2.skip(k + 1) =~= e2);
    lemma_render_all_concat(e2.take(k + 1), e2.skip(k + 1));
    let pre = render_all(e2.take(k));
    let one = render_event(e2[k]);
    assert(tv =~= pre + one + render_all(e2.skip(k + 1)));
    assert(tv.subrange(pre.len() as int, (pre.len() + one.len()) as int) =~= one);
}

/// The tokens begin with the events `ev` of a node that is still open, the
/// innermost open node being the element `a`; right after them a closing
/// tag `</b>` names another element.
pub open spec fn mismatched_close(tv: Seq<TokV>, ev: Seq<EventV>, a: Seq<char>) -> bool {
    &&& ev.len() > 0
    &&& forall|k: int| 0 < k <= ev.len() ==> (#[trigger] run(ev.take(k)) matches Some(s) && s.len() > 0)
    &&& render_all(ev).len() <= tv.len()
    &&& tv.subrange(0, render_all(ev).len() as int) == render_all(ev)
    &&& run(ev) matches Some(s) && mismatch_at(tv, render_all(ev).len() as int, s, a)
}

/// The next event of such a prefix stands where the events before it end,
/// and may come next.
proof fn lemma_prefix_next(tv: Seq<TokV>, ev: Seq<EventV>, a: Seq<char>, k: int, sv: Seq<FrameV>)
    requires
        mismatched_close(tv, ev, a),
        0 <= k < ev.len(),
        run(ev.take(k)) == Some(sv),
    ensures
        event_fits(tv, render_all(ev.take(k)).len() as int, sv, ev[k]),
{
    lemma_run_take(ev, k);
    assert(run(ev.take(k + 1)) is Some);
    assert(ev.take(k + 1) + ev.skip(k + 1) =~= ev);
    lemma_render_all_concat(ev.take(k + 1), ev.skip(k + 1));
    let pre = render_all(ev.take(k));
    let one = render_event(ev[k]);
    let n = render_all(ev).len() as int;
    assert(render_all(ev) =~= pre + one + render_all(ev.skip(k + 1)));
    assert(tv.subrange(pre.len() as int, (pre.len() + one.len()) as int) =~= one) by {
        assert forall|o: int| 0 <= o < one.len() implies tv.subrange(
            pre.len() as int,
            (pre.len() + one.len()) as int,
        )[o] == one[o] by {
            assert(tv.subrange(0, n)[pre.len() + o] == tv[pre.len() + o]);
            assert(render_all(ev)[pre.len() + o] == one[o]);
        }
    }
}

/// Reads the markup of one node written by `toks`: the events that build
/// it, in order. The tokens are read as written: an end that does not close
/// the innermost open node of its kind, tokens left after the node, or a
/// node cut short, make it fail. A closing tag that names another element
/// than the innermost open one is reported at that name with the open tag
/// (`MismatchedClose`); any other failure is `Unexpected` at a token or
/// `End` when the tokens run out.
#[verifier::spinoff_prover]
#[verifier::rlimit(80)]
pub fn parse_markup(toks: &Vec<MarkupTok>) -> (r: Result<Vec<MarkupEvent>, MarkupError>)
    ensures
        r matches Ok(ev) ==> markup_of(toks_view(toks@), events_view(ev@)),
        forall|e2: Seq<EventV>| #[trigger]
            markup_of(toks_view(toks@), e2) ==> (r matches Ok(ev) && events_view(ev@) == e2),
        forall|e2: Seq<EventV>, a: Seq<char>| #[trigger]
            mismatched_close(toks_view(toks@), e2, a) ==> (r matches Err(
                MarkupError::MismatchedClose { at, open_tag },
            ) && at == render_all(e2).len() + 2 && open_tag@ == a),
        r matches Err(MarkupError::MismatchedClose { at, open_tag }) ==> exists|e2: Seq<EventV>| #[trigger]
            mismatched_close(toks_view(toks@), e2, open_tag@) && at == render_all(e2).len() + 2,
        r matches Err(MarkupError::MismatchedClose { at, open_tag }) ==> {
            &&& 2 <= at < toks@.len()
            &&& toks_view(toks@)[at - 2] == TokV::Lt
            &&& toks_view(toks@)[at - 1] == TokV::Slash
            &&& toks_view(toks@)[at as int] is Ident
        },
        r matches Err(MarkupError::Unexpected(p)) ==> p < toks@.len(),
{
    let ghost tv = toks_view(toks@);
    assert(tv.len() == toks@.len());
    let mut out: Vec<MarkupEvent> = Vec::new();
    let mut stack: Vec<OpenFrame> = Vec::new();
    let mut i: usize = 0;
    proof {
        assert(tv.subrange(0, 0) =~= render_all(events_view(out@)));
        assert(frames_view(stack@) =~= Seq::<FrameV>::empty());
        assert forall|e2: Seq<EventV>| #[trigger] markup_of(tv, e2) implies 0 < e2.len() && events_view(
            out@,
        ) == e2.take(0) by {
            assert(events_view(out@) =~= e2.take(0));
        }
        assert forall|e2: Seq<EventV>, a: Seq<char>| #[trigger] mismatched_close(tv, e2, a) implies events_view(
            out@,
        ) == e2.take(0) by {
            assert(events_view(out@) =~= e2.take(0));
        }
    }
    loop
        invariant
            tv == toks_view(toks@),
            tv.len() == toks@.len(),
            i <= toks.len(),
            tv.subrange(0, i as int) == render_all(events_view(out@)),
            run(events_view(out@)) == Some(frames_view(stack@)),
            out@.len() > 0 ==> stack@.len() > 0,
            forall|k: int|
                0 < k < out@.len() ==> (#[trigger] run(events_view(out@).take(k)) matches Some(s)
                    && s.len() > 0),
            forall|e2: Seq<EventV>| #[trigger]
                markup_of(tv, e2) ==> out@.len() < e2.len() && events_view(out@) == e2.take(
                    out@.len() as int,
                ),
            forall|e2: Seq<EventV>, a: Seq<char>| #[trigger]
                mismatched_close(tv, e2, a) ==> out@.len() <= e2.len() && events_view(out@) == e2.take(
                    out@.len() as int,
                ),
        decreases toks.len() - i,
    {
        let ghost ov = events_view(out@);
        let ghost sv = frames_view(stack@);
        if i >= toks.len() {
            proof {
                assert forall|e2: Seq<EventV>| !#[trigger] markup_of(tv, e2) by {
                    if markup_of(tv, e2) {
                        lemma_candidate_next(tv, e2, ov.len() as int, sv);
                        lemma_event_at(tv, i as int, e2[ov.len() as int]);
                    }
                }
                assert forall|e2: Seq<EventV>, a: Seq<char>| !#[trigger] mismatched_close(tv, e2, a) by {
                    if mismatched_close(tv, e2, a) {
                        if ov.len() < e2.len() {
                            lemma_prefix_next(tv, e2, a, ov.len() as int, sv);
                            lemma_event_at(tv, i as int, e2[ov.len() as int]);
                        } else {
                            assert(ov =~= e2);
                        }
                    }
                }
            }
            return Err(MarkupError::End);
        }
        match read_event(toks, i, &stack) {
            Ok((e, j)) => {
                proof {
                    assert forall|e2: Seq<EventV>| #[trigger] markup_of(tv, e2) implies e2[ov.len() as int]
                        == event_view(e) by {
                        lemma_candidate_next(tv, e2, ov.len() as int, sv);
                    }
                    assert forall|e2: Seq<EventV>, a: Seq<char>| #[trigger] mismatched_close(tv, e2, a) implies ov.len()
                        < e2.len() && e2[ov.len() as int] == event_view(e) by {
                        if ov.len() == e2.len() {
                            assert(ov =~= e2);
                            assert(mismatch_at(tv, i as int, sv, a));
                        }
                        lemma_prefix_next(tv, e2, a, ov.len() as int, sv);
                    }
                }
                apply_event(&mut stack, &e);
                out.push(e);
                proof {
                    let nv = events_view(out@);
                    assert(nv =~= ov.push(event_view(e)));
                    assert(nv.drop_last() =~= ov);
                    assert(nv.last() == event_view(e));
                    assert(tv.subrange(0, j as int) =~= tv.subrange(0, i as int) + tv.subrange(
                        i as int,
                        j as int,
                    ));
                    assert forall|k: int| 0 < k < nv.len() implies (#[trigger] run(nv.take(k)) matches Some(
                        s,
                    ) && s.len() > 0) by {
                        if k < ov.len() {
                            assert(nv.take(k) =~= ov.take(k));
                        } else {
                            assert(nv.take(k) =~= ov);
                        }
                    }
                    assert forall|e2: Seq<EventV>| #[trigger] markup_of(tv, e2) implies nv == e2.take(
                        nv.len() as int,
                    ) by {
                        assert(nv =~= e2.take(nv.len() as int));
                    }
                    assert forall|e2: Seq<EventV>, a: Seq<char>| #[trigger] mismatched_close(tv, e2, a) implies nv
                        == e2.take(nv.len() as int) && nv.len() <= e2.len() && stack@.len() > 0 by {
                        assert(nv =~= e2.take(nv.len() as int));
                        assert(run(e2.take(nv.len() as int)) matches Some(s) && s.len() > 0);
                    }
                }
                i = j;
                if stack.len() == 0 {
                    let ghost nv = events_view(out@);
                    proof {
                        assert forall|e2: Seq<EventV>| #[trigger] markup_of(tv, e2) implies nv == e2 by {
                            if nv.len() < e2.len() {
                                assert(run(e2.take(nv.len() as int)) matches Some(s) && s.len() > 0);
                            }
                            assert(nv =~= e2);
                        }
                    }
                    if i < toks.len() {
                        proof {
                            assert forall|e2: Seq<EventV>| !#[trigger] markup_of(tv, e2) by {
                                if markup_of(tv, e2) {
                                    assert(nv == e2);
                                }
                            }
                        }
                        return Err(MarkupError::Unexpected(i));
                    }
                    proof {
                        assert(tv.subrange(0, i as int) =~= tv);
                        assert(frames_view(stack@) =~= Seq::<FrameV>::empty());
                    }
                    return Ok(out);
                }
                proof {
                    assert forall|e2: Seq<EventV>| #[trigger] markup_of(tv, e2) implies out@.len()
                        < e2.len() by {
                        if out@.len() == e2.len() {
                            assert(events_view(out@) =~= e2);
                        }
                    }
                }
            },
            Err(err) => {
                proof {
                    assert forall|e2: Seq<EventV>| !#[trigger] markup_of(tv, e2) by {
                        if markup_of(tv, e2) {
                            lemma_candidate_next(tv, e2, ov.len() as int, sv);
                        }
                    }
                    assert forall|e2: Seq<EventV>, a: Seq<char>| #[trigger] mismatched_close(tv, e2, a) implies (err matches MarkupError::MismatchedClose { at, open_tag } && at
                        == render_all(e2).len() + 2 && open_tag@ == a) by {
                        if ov.len() < e2.len() {
                            lemma_prefix_next(tv, e2, a, ov.len() as int, sv);
                        } else {
                            assert(ov =~= e2);
                            assert(mismatch_at(tv, i as int, sv, a));
                        }
                    }
                    if err is MismatchedClose {
                        let open_tag = err->open_tag;
                        assert(ov.take(ov.len() as int) =~= ov);
                        assert(mismatched_close(tv, ov, open_tag@));
                    }
                }
                return Err(err);
            },
        }
    }
}

/// The key an attribute is looked up by: its parts joined by `-`, then
/// `:namespace` (`on:click`, `stroke-linecap`, `class:active`).
pub open spec fn key_spec(a: AttrV) -> Seq<char> {
    join(a.parts, seq!['-']) + match a.namespace {
        Some(n) => seq![':'] + n,
        None => Seq::<char>::empty(),
    }
}

/// The key of an attribute as the `view!` macro matches on it.
pub fn attr_key(a: &MarkupAttr) -> (r: String)
    ensures
        r@ == key_spec(attr_view(*a)),
{
    let ghost pv = parts_view(a.parts@);
    let mut out = String::new();
    let mut k: usize = 0;
    while k < a.parts.len()
        invariant
            k <= a.parts.len(),
            pv == parts_view(a.parts@),
            out@ == join(pv.take(k as int), seq!['-']),
        decreases a.parts.len() - k,
    {
        let ghost sub = pv.take(k as int + 1);
        assert(sub.drop_last() =~= pv.take(k as int));
        assert(sub.last() == a.parts@[k as int]@);
        if k > 0 {
            push_char(&mut out, '-');
        }
        out.append(a.parts[k].as_str());
        proof {
            if k > 0 {
                assert(out@ =~= join(sub.drop_last(), seq!['-']) + seq!['-'] + sub.last());
            } else {
                assert(out@ =~= sub[0]);
            }
        }
        k = k + 1;
    }
    assert(pv.take(a.parts.len() as int) =~= pv);
    let ghost joined = out@;
    match &a.namespace {
        Some(n) => {
            push_char(&mut out, ':');
            out.append(n.as_str());
            assert(out@ =~= joined + (seq![':'] + n@));
        },
        None => {
            assert(out@ =~= joined + Seq::<char>::empty());
        },
    }
    out
}

} // verus!
