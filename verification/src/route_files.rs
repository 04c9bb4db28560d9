//! File-based routing: how the files under `src/app/` become routes, typed
//! path helpers, layout chains and per-segment boundaries.
use vstd::prelude::*;
use crate::text::{
    ascii_lower, ascii_lower_exec, chars_eq, chars_of, concat_chars, copy_chars, is_ascii_alnum,
    is_ascii_alnum_exec, is_ascii_digit, join, join_prefix, split_chars, split_spec, string_of,
    views, upper_chars, ascii_upper, keep_nonempty, path_segments, segments,
};

verus! {

/// What a file under `src/app/` is, by its file name.
#[derive(PartialEq, Eq, Structural, Clone, Copy, Debug)]
pub enum AppFileKind {
    Page,
    Layout,
    NotFound,
    Other,
}

/// A `.rs` file under `src/app/`, by its `/`-separated path relative to it.
pub struct AppFile {
    pub rel: String,
    pub kind: AppFileKind,
}

pub open spec fn page_rs() -> Seq<char> {
    seq!['p', 'a', 'g', 'e', '.', 'r', 's']
}

pub open spec fn layout_rs() -> Seq<char> {
    seq!['l', 'a', 'y', 'o', 'u', 't', '.', 'r', 's']
}

pub open spec fn not_found_rs() -> Seq<char> {
    seq!['n', 'o', 't', '-', 'f', 'o', 'u', 'n', 'd', '.', 'r', 's']
}

pub open spec fn kind_of_name(name: Seq<char>) -> AppFileKind {
    if name == page_rs() {
        AppFileKind::Page
    } else if name == layout_rs() {
        AppFileKind::Layout
    } else if name == not_found_rs() {
        AppFileKind::NotFound
    } else {
        AppFileKind::Other
    }
}

fn seq_is(v: &Vec<char>, lit: &Vec<char>) -> (r: bool)
    ensures
        r == (v@ == lit@),
{
    crate::text::chars_eq(v, lit)
}

/// Classifies an `src/app/` file by its name: `page.rs`, `layout.rs`,
/// `not-found.rs`, or anything else.
pub fn classify_app_file(name: &str) -> (r: AppFileKind)
    ensures
        r == kind_of_name(name@),
{
    let n = chars_of(name);
    let page = vec!['p', 'a', 'g', 'e', '.', 'r', 's'];
    let layout = vec!['l', 'a', 'y', 'o', 'u', 't', '.', 'r', 's'];
    let nf = vec!['n', 'o', 't', '-', 'f', 'o', 'u', 'n', 'd', '.', 'r', 's'];
    assert(page@ =~= page_rs());
    assert(layout@ =~= layout_rs());
    assert(nf@ =~= not_found_rs());
    if seq_is(&n, &page) {
        AppFileKind::Page
    } else if seq_is(&n, &layout) {
        AppFileKind::Layout
    } else if seq_is(&n, &nf) {
        AppFileKind::NotFound
    } else {
        AppFileKind::Other
    }
}

/// Dot-files and dot-directories are skipped when scanning `src/app/`.
pub fn is_hidden_name(name: &str) -> (r: bool)
    ensures
        r == (name@.len() > 0 && name@[0] == '.'),
{
    let n = chars_of(name);
    n.len() > 0 && n[0] == '.'
}

/// Relative path of a scanned file with `\` separators turned into `/`.
pub open spec fn normalize_sep(rel: Seq<char>) -> Seq<char> {
    rel.map_values(|c: char| if c == '\\' { '/' } else { c })
}

pub fn normalize_rel(rel: &str) -> (r: String)
    ensures
        r@ == normalize_sep(rel@),
{
    let cs = chars_of(rel);
    let mut out: Vec<char> = Vec::new();
    let mut i: usize = 0;
    while i < cs.len()
        invariant
            i <= cs.len(),
            cs@ == rel@,
            out@ == normalize_sep(rel@.subrange(0, i as int)),
        decreases cs.len() - i,
    {
        let c = cs[i];
        out.push(if c == '\\' { '/' } else { c });
        assert(out@ =~= normalize_sep(rel@.subrange(0, i as int + 1)));
        i = i + 1;
    }
    assert(rel@.subrange(0, cs.len() as int) =~= rel@);
    string_of(&out)
}

pub open spec fn sanitize_char(c: char) -> char {
    if is_ascii_alnum(c) {
        ascii_lower(c)
    } else {
        '_'
    }
}

/// An identifier-safe version of `s`: ASCII letters and digits lower-cased,
/// every other character replaced by `_`, and a leading `p` added when the
/// result is empty or starts with a digit.
pub open spec fn sanitize_spec(s: Seq<char>) -> Seq<char> {
    let m = s.map_values(|c: char| sanitize_char(c));
    if m.len() == 0 || is_ascii_digit(m[0]) {
        seq!['p'] + m
    } else {
        m
    }
}

fn sanitize_chars(s: &Vec<char>) -> (r: Vec<char>)
    ensures
        r@ == sanitize_spec(s@),
{
    let mut out: Vec<char> = Vec::new();
    let mut i: usize = 0;
    while i < s.len()
        invariant
            i <= s.len(),
            out@ == s@.subrange(0, i as int).map_values(|c: char| sanitize_char(c)),
        decreases s.len() - i,
    {
        let c = s[i];
        let mapped = if is_ascii_alnum_exec(c) {
            ascii_lower_exec(c)
        } else {
            '_'
        };
        out.push(mapped);
        assert(out@ =~= s@.subrange(0, i as int + 1).map_values(|c: char| sanitize_char(c)));
        i = i + 1;
    }
    assert(s@.subrange(0, s.len() as int) =~= s@);
    if out.len() == 0 || ('0' <= out[0] && out[0] <= '9') {
        let mut r: Vec<char> = Vec::new();
        r.push('p');
        let mut j: usize = 0;
        while j < out.len()
            invariant
                j <= out.len(),
                r@ == seq!['p'] + out@.subrange(0, j as int),
            decreases out.len() - j,
        {
            r.push(out[j]);
            assert(r@ =~= seq!['p'] + out@.subrange(0, j as int + 1));
            j = j + 1;
        }
        assert(out@.subrange(0, out.len() as int) =~= out@);
        r
    } else {
        out
    }
}

/// Identifier-safe form of a path segment or parameter name.
pub fn sanitize_ident(s: &str) -> (r: String)
    ensures
        r@ == sanitize_spec(s@),
{
    let cs = chars_of(s);
    let out = sanitize_chars(&cs);
    string_of(&out)
}

pub open spec fn dot_rs() -> Seq<char> {
    seq!['.', 'r', 's']
}

/// `rel` without a trailing `.rs`.
pub open spec fn stem_spec(rel: Seq<char>) -> Seq<char> {
    if crate::text::ends_with(rel, dot_rs()) {
        rel.subrange(0, rel.len() - 3)
    } else {
        rel
    }
}

fn stem_chars(rel: &Vec<char>) -> (r: Vec<char>)
    ensures
        r@ == stem_spec(rel@),
{
    let suffix = vec!['.', 'r', 's'];
    assert(suffix@ =~= dot_rs());
    if crate::text::has_suffix(rel, &suffix) {
        crate::text::slice_chars(rel, 0, rel.len() - 3)
    } else {
        copy_chars(rel)
    }
}

/// Deterministic module name for a relative `src/app/` file path: the path
/// without `.rs`, made identifier-safe.
pub fn module_ident(rel: &str) -> (r: String)
    ensures
        r@ == sanitize_spec(stem_spec(rel@)),
{
    let cs = chars_of(rel);
    let stem = stem_chars(&cs);
    let out = sanitize_chars(&stem);
    string_of(&out)
}


/// The route a page file defines, as mathematical values.
pub struct RouteDataView {
    pub path: Seq<char>,
    pub params: Seq<Seq<char>>,
    pub fmt: Seq<char>,
    pub static_segs: Seq<Seq<char>>,
}

/// Route information derived from a page file's path.
pub struct RouteData {
    /// Route path, e.g. `/blog/:slug` or `/docs/**`.
    pub path: String,
    /// Raw param keys, in route order (`[x]` -> `x`).
    pub params: Vec<String>,
    /// `format!(..)` template with `{}` slots in param order.
    pub fmt: String,
    /// Static segment idents (for const names), in order.
    pub static_segs: Vec<String>,
}

pub open spec fn string_views(v: Seq<String>) -> Seq<Seq<char>> {
    v.map_values(|s: String| s@)
}

impl View for RouteData {
    type V = RouteDataView;

    open spec fn view(&self) -> RouteDataView {
        RouteDataView {
            path: self.path@,
            params: string_views(self.params@),
            fmt: self.fmt@,
            static_segs: string_views(self.static_segs@),
        }
    }
}

/// `[...name]` names a catch-all parameter.
pub open spec fn catch_all_inner(seg: Seq<char>) -> Option<Seq<char>> {
    if seg.len() >= 5 && seg[0] == '[' && seg[1] == '.' && seg[2] == '.' && seg[3] == '.'
        && seg.last() == ']' {
        Some(seg.subrange(4, seg.len() - 1))
    } else {
        None
    }
}

/// `[name]` names a single-segment parameter.
pub open spec fn param_inner(seg: Seq<char>) -> Option<Seq<char>> {
    if seg.len() >= 2 && seg[0] == '[' && seg.last() == ']' {
        Some(seg.subrange(1, seg.len() - 1))
    } else {
        None
    }
}

pub open spec fn braces() -> Seq<char> {
    seq!['{', '}']
}

/// One directory segment folded into the route being built; the flag says
/// the segment was a catch-all, which ends the route.
pub open spec fn rd_apply(st: RouteDataView, seg: Seq<char>) -> (RouteDataView, bool) {
    if let Some(inner) = catch_all_inner(seg) {
        (
            RouteDataView {
                path: st.path + seq!['*', '*'],
                params: st.params.push(inner),
                fmt: st.fmt + braces(),
                static_segs: st.static_segs,
            },
            true,
        )
    } else if let Some(inner) = param_inner(seg) {
        (
            RouteDataView {
                path: st.path + seq![':'] + inner + seq!['/'],
                params: st.params.push(inner),
                fmt: st.fmt + braces() + seq!['/'],
                static_segs: st.static_segs,
            },
            false,
        )
    } else {
        (
            RouteDataView {
                path: st.path + seg + seq!['/'],
                params: st.params,
                fmt: st.fmt + seg + seq!['/'],
                static_segs: st.static_segs.push(sanitize_spec(seg)),
            },
            false,
        )
    }
}

pub open spec fn rd_init() -> RouteDataView {
    RouteDataView {
        path: seq!['/'],
        params: Seq::empty(),
        fmt: seq!['/'],
        static_segs: Seq::empty(),
    }
}

/// The route after folding in `segs` left to right, stopping after the
/// first catch-all.
pub open spec fn rd_fold(segs: Seq<Seq<char>>) -> (RouteDataView, bool)
    decreases segs.len(),
{
    if segs.len() == 0 {
        (rd_init(), false)
    } else {
        let (st, done) = rd_fold(segs.drop_last());
        if done {
            (st, true)
        } else {
            rd_apply(st, segs.last())
        }
    }
}

pub open spec fn ends_double_star(s: Seq<char>) -> bool {
    crate::text::ends_with(s, seq!['*', '*'])
}

/// Drops the trailing `/` of a built path or template (anything longer than
/// `/` that does not end in `**`).
pub open spec fn trim_tail(s: Seq<char>) -> Seq<char> {
    if s.len() > 1 && !ends_double_star(s) {
        s.drop_last()
    } else {
        s
    }
}

/// The directory segments of a page file: its path without `.rs`, split at
/// `/`, minus the file name.
pub open spec fn page_dirs(rel: Seq<char>) -> Seq<Seq<char>> {
    split_spec(stem_spec(rel), '/').drop_last()
}

/// The route a page file defines: `page.rs` -> `/`, `blog/page.rs` ->
/// `/blog`, `blog/[slug]/page.rs` -> `/blog/:slug`, `blog/[...rest]/page.rs`
/// -> `/blog/**`. The template of a catch-all route ends in its `{}` slot
/// (`/blog/{}`); the others lose their trailing `/`.
pub open spec fn route_data_spec(rel: Seq<char>) -> RouteDataView {
    let (st, catch_all) = rd_fold(page_dirs(rel));
    RouteDataView {
        path: trim_tail(st.path),
        params: st.params,
        fmt: if catch_all { st.fmt } else { trim_tail(st.fmt) },
        static_segs: st.static_segs,
    }
}

/// The parameter a directory segment names: `[...x]` and `[x]` name `x`.
pub open spec fn seg_param_name(seg: Seq<char>) -> Option<Seq<char>> {
    if catch_all_inner(seg) is Some {
        catch_all_inner(seg)
    } else {
        param_inner(seg)
    }
}

/// The parameters of a route read from its directory segments left to
/// right: the name of each `[x]` segment in order, up to and including the
/// first `[...x]`, after which nothing more is read.
pub open spec fn route_params(segs: Seq<Seq<char>>) -> Seq<Seq<char>>
    decreases segs.len(),
{
    if segs.len() == 0 {
        Seq::empty()
    } else if catch_all_inner(segs[0]) is Some {
        seq![catch_all_inner(segs[0])->0]
    } else if param_inner(segs[0]) is Some {
        seq![param_inner(segs[0])->0] + route_params(segs.drop_first())
    } else {
        route_params(segs.drop_first())
    }
}

pub open spec fn has_catch_all(segs: Seq<Seq<char>>) -> bool {
    exists|k: int| 0 <= k < segs.len() && catch_all_inner(#[trigger] segs[k]) is Some
}

pub open spec fn opt_seq(o: Option<Seq<char>>) -> Seq<Seq<char>> {
    match o {
        Some(n) => seq![n],
        None => Seq::empty(),
    }
}

proof fn lemma_route_params_push(s: Seq<Seq<char>>, x: Seq<char>)
    ensures
        route_params(s.push(x)) == if has_catch_all(s) {
            route_params(s)
        } else {
            route_params(s) + opt_seq(seg_param_name(x))
        },
    decreases s.len(),
{
    let sx = s.push(x);
    assert(sx[0] == if s.len() == 0 { x } else { s[0] });
    if s.len() == 0 {
        assert(sx.drop_first() =~= Seq::<Seq<char>>::empty());
        assert(route_params(sx.drop_first()) =~= Seq::<Seq<char>>::empty());
        assert(sx[0] == x);
        assert(route_params(s) =~= Seq::<Seq<char>>::empty());
        assert(!has_catch_all(s));
        assert(route_params(sx) =~= route_params(s) + opt_seq(seg_param_name(x)));
    } else {
        let h = s[0];
        assert(sx.drop_first() =~= s.drop_first().push(x));
        lemma_route_params_push(s.drop_first(), x);
        if catch_all_inner(h) is Some {
            assert(has_catch_all(s));
        } else {
            assert(has_catch_all(s) == has_catch_all(s.drop_first())) by {
                if has_catch_all(s) {
                    let k = choose|k: int| 0 <= k < s.len() && catch_all_inner(#[trigger] s[k]) is Some;
                    assert(s.drop_first()[k - 1] == s[k]);
                }
                if has_catch_all(s.drop_first()) {
                    let k = choose|k: int|
                        0 <= k < s.drop_first().len() && catch_all_inner(#[trigger] s.drop_first()[k]) is Some;
                    assert(s[k + 1] == s.drop_first()[k]);
                }
            }
            if param_inner(h) is Some {
                assert(route_params(sx) == seq![param_inner(h)->0] + route_params(s.drop_first().push(x)));
                assert(route_params(s) == seq![param_inner(h)->0] + route_params(s.drop_first()));
                if !has_catch_all(s) {
                    assert(route_params(sx) =~= route_params(s) + opt_seq(seg_param_name(x)));
                }
            }
        }
    }
}

proof fn lemma_rd_fold_params(segs: Seq<Seq<char>>)
    ensures
        rd_fold(segs).1 == has_catch_all(segs),
        rd_fold(segs).0.params == route_params(segs),
    decreases segs.len(),
{
    if segs.len() == 0 {
        assert(route_params(segs) =~= Seq::<Seq<char>>::empty());
    } else {
        let s = segs.drop_last();
        let x = segs.last();
        lemma_rd_fold_params(s);
        assert(s.push(x) =~= segs);
        lemma_route_params_push(s, x);
        assert(has_catch_all(segs) == (has_catch_all(s) || catch_all_inner(x) is Some)) by {
            if has_catch_all(segs) {
                let k = choose|k: int| 0 <= k < segs.len() && catch_all_inner(#[trigger] segs[k]) is Some;
                if k < segs.len() - 1 {
                    assert(s[k] == segs[k]);
                }
            }
            if has_catch_all(s) {
                let k = choose|k: int| 0 <= k < s.len() && catch_all_inner(#[trigger] s[k]) is Some;
                assert(segs[k] == s[k]);
            }
            if catch_all_inner(x) is Some {
                assert(segs[segs.len() - 1] == x);
            }
        }
        if !has_catch_all(s) {
            assert(rd_fold(s).0.params.push(x) == rd_fold(s).0.params + seq![x]);
            assert(route_params(segs) =~= rd_fold(s).0.params + opt_seq(seg_param_name(x)));
            if catch_all_inner(x) is Some {
                assert(rd_fold(segs).0.params =~= rd_fold(s).0.params + seq![catch_all_inner(x)->0]);
            } else if param_inner(x) is Some {
                assert(rd_fold(segs).0.params =~= rd_fold(s).0.params + seq![param_inner(x)->0]);
            } else {
                assert(rd_fold(segs).0.params =~= rd_fold(s).0.params + Seq::<Seq<char>>::empty());
            }
        }
    }
}

/// The directory segments a route is built from: all of them, up to and
/// including the first `[...x]` catch-all.
pub open spec fn upto_catch_all(segs: Seq<Seq<char>>) -> Seq<Seq<char>>
    decreases segs.len(),
{
    if segs.len() == 0 {
        Seq::empty()
    } else if catch_all_inner(segs[0]) is Some {
        seq![segs[0]]
    } else {
        seq![segs[0]] + upto_catch_all(segs.drop_first())
    }
}

/// How a directory segment reads in a route path: `[...x]` as `**`, `[x]`
/// as `:x`, any other as itself.
pub open spec fn path_piece(seg: Seq<char>) -> Seq<char> {
    if catch_all_inner(seg) is Some {
        seq!['*', '*']
    } else if param_inner(seg) is Some {
        seq![':'] + param_inner(seg)->0
    } else {
        seg
    }
}

/// How a directory segment reads in a path template: a parameter as `{}`.
pub open spec fn fmt_piece(seg: Seq<char>) -> Seq<char> {
    if catch_all_inner(seg) is Some || param_inner(seg) is Some {
        braces()
    } else {
        seg
    }
}

/// `/` then each piece followed by `/`.
spec fn slash_each(ps: Seq<Seq<char>>) -> Seq<char>
    decreases ps.len(),
{
    if ps.len() == 0 {
        seq!['/']
    } else {
        slash_each(ps.drop_last()) + ps.last() + seq!['/']
    }
}

proof fn lemma_slash_each_join(ps: Seq<Seq<char>>)
    ensures
        ps.len() > 0 ==> slash_each(ps) == seq!['/'] + join(ps, seq!['/']) + seq!['/'],
    decreases ps.len(),
{
    if ps.len() > 1 {
        lemma_slash_each_join(ps.drop_last());
        assert(slash_each(ps) =~= seq!['/'] + join(ps, seq!['/']) + seq!['/']);
    } else if ps.len() == 1 {
        assert(ps.drop_last() =~= Seq::<Seq<char>>::empty());
        assert(slash_each(ps.drop_last()) == seq!['/']);
        assert(ps.last() == ps[0]);
        assert(join(ps, seq!['/']) == ps[0]);
        assert(slash_each(ps) =~= seq!['/'] + join(ps, seq!['/']) + seq!['/']);
    }
}

proof fn lemma_upto_push(s: Seq<Seq<char>>, x: Seq<char>)
    ensures
        upto_catch_all(s.push(x)) == if has_catch_all(s) {
            upto_catch_all(s)
        } else {
            upto_catch_all(s).push(x)
        },
    decreases s.len(),
{
    let sx = s.push(x);
    if s.len() == 0 {
        assert(sx.drop_first() =~= Seq::<Seq<char>>::empty());
        assert(upto_catch_all(sx.drop_first()) =~= Seq::<Seq<char>>::empty());
        assert(sx[0] == x);
        assert(!has_catch_all(s));
        assert(upto_catch_all(sx) =~= upto_catch_all(s).push(x));
    } else {
        let h = s[0];
        assert(sx[0] == h);
        assert(sx.drop_first() =~= s.drop_first().push(x));
        lemma_upto_push(s.drop_first(), x);
        if catch_all_inner(h) is Some {
            assert(has_catch_all(s));
        } else {
            assert(has_catch_all(s) == has_catch_all(s.drop_first())) by {
                if has_catch_all(s) {
                    let k = choose|k: int| 0 <= k < s.len() && catch_all_inner(#[trigger] s[k]) is Some;
                    assert(s.drop_first()[k - 1] == s[k]);
                }
                if has_catch_all(s.drop_first()) {
                    let k = choose|k: int|
                        0 <= k < s.drop_first().len() && catch_all_inner(#[trigger] s.drop_first()[k]) is Some;
                    assert(s[k + 1] == s.drop_first()[k]);
                }
            }
            if !has_catch_all(s) {
                assert(upto_catch_all(sx) =~= upto_catch_all(s).push(x));
            }
        }
    }
}

proof fn lemma_rd_fold_text(segs: Seq<Seq<char>>)
    ensures
        ({
            let st = rd_fold(segs).0;
            let u = upto_catch_all(segs);
            &&& !has_catch_all(segs) ==> st.path == slash_each(u.map_values(|g: Seq<char>| path_piece(g)))
                && st.fmt == slash_each(u.map_values(|g: Seq<char>| fmt_piece(g)))
            &&& has_catch_all(segs) ==> u.len() > 0 && catch_all_inner(u.last()) is Some && st.path
                == slash_each(u.drop_last().map_values(|g: Seq<char>| path_piece(g))) + seq!['*', '*']
                && st.fmt == slash_each(u.drop_last().map_values(|g: Seq<char>| fmt_piece(g))) + braces()
        }),
    decreases segs.len(),
{
    if segs.len() == 0 {
        assert(upto_catch_all(segs) =~= Seq::<Seq<char>>::empty());
        assert(!has_catch_all(segs));
    } else {
        let s = segs.drop_last();
        let x = segs.last();
        assert(s.push(x) =~= segs);
        lemma_rd_fold_text(s);
        lemma_rd_fold_params(s);
        lemma_rd_fold_params(segs);
        lemma_upto_push(s, x);
        let u = upto_catch_all(s);
        if !has_catch_all(s) {
            let ux = u.push(x);
            assert(ux.drop_last() =~= u);
            assert(ux.last() == x);
            let pp = |g: Seq<char>| path_piece(g);
            let fp = |g: Seq<char>| fmt_piece(g);
            assert(ux.map_values(pp) =~= u.map_values(pp).push(path_piece(x)));
            assert(ux.map_values(fp) =~= u.map_values(fp).push(fmt_piece(x)));
            assert(u.map_values(pp).push(path_piece(x)).drop_last() =~= u.map_values(pp));
            assert(u.map_values(fp).push(fmt_piece(x)).drop_last() =~= u.map_values(fp));
            if catch_all_inner(x) is Some {
                assert(has_catch_all(segs)) by {
                    assert(segs[segs.len() - 1] == x);
                }
            } else {
                assert(!has_catch_all(segs));
                if param_inner(x) is Some {
                    assert(rd_fold(segs).0.path =~= slash_each(ux.map_values(pp)));
                    assert(rd_fold(segs).0.fmt =~= slash_each(ux.map_values(fp)));
                } else {
                    assert(rd_fold(segs).0.path =~= slash_each(ux.map_values(pp)));
                    assert(rd_fold(segs).0.fmt =~= slash_each(ux.map_values(fp)));
                }
            }
        }
    }
}

proof fn lemma_ends_double_star(a: Seq<char>)
    ensures
        ends_double_star(a + seq!['*', '*']),
{
    let b = a + seq!['*', '*'];
    assert(b.subrange(b.len() - 2, b.len() as int) =~= seq!['*', '*']);
}

/// The route path and template of a page are its directory segments up to
/// the first catch-all, joined by `/` after a leading `/`: in the path a
/// `[x]` segment reads `:x` and a `[...x]` one `**`; in the template both
/// read `{}`; every other segment reads as itself.
pub proof fn lemma_route_data_text(rel: Seq<char>)
    ensures
        ({
            let u = upto_catch_all(page_dirs(rel));
            &&& route_data_spec(rel).path == seq!['/'] + join(
                u.map_values(|g: Seq<char>| path_piece(g)),
                seq!['/'],
            )
            &&& route_data_spec(rel).fmt == seq!['/'] + join(
                u.map_values(|g: Seq<char>| fmt_piece(g)),
                seq!['/'],
            )
        }),
{
    let segs = page_dirs(rel);
    lemma_rd_fold_text(segs);
    lemma_rd_fold_params(segs);
    let u = upto_catch_all(segs);
    let pp = |g: Seq<char>| path_piece(g);
    let fp = |g: Seq<char>| fmt_piece(g);
    let st = rd_fold(segs).0;
    if !has_catch_all(segs) {
        let ps = u.map_values(pp);
        let fs = u.map_values(fp);
        lemma_slash_each_join(ps);
        lemma_slash_each_join(fs);
        if ps.len() == 0 {
            assert(join(ps, seq!['/']) =~= Seq::<char>::empty());
            assert(join(fs, seq!['/']) =~= Seq::<char>::empty());
            assert(seq!['/'] + join(ps, seq!['/']) =~= seq!['/']);
            assert(seq!['/'] + join(fs, seq!['/']) =~= seq!['/']);
        } else {
            let a = seq!['/'] + join(ps, seq!['/']);
            let b = seq!['/'] + join(fs, seq!['/']);
            assert((a + seq!['/']).drop_last() =~= a);
            assert((b + seq!['/']).drop_last() =~= b);
            assert(!ends_double_star(a + seq!['/'])) by {
                let t = a + seq!['/'];
                assert(t.subrange(t.len() - 2, t.len() as int)[1] == '/');
            }
            assert(!ends_double_star(b + seq!['/'])) by {
                let t = b + seq!['/'];
                assert(t.subrange(t.len() - 2, t.len() as int)[1] == '/');
            }
        }
    } else {
        let v = u.drop_last();
        assert(u =~= v.push(u.last()));
        let ps = v.map_values(pp);
        let fs = v.map_values(fp);
        assert(u.map_values(pp) =~= ps.push(seq!['*', '*']));
        assert(u.map_values(fp) =~= fs.push(braces()));
        lemma_slash_each_join(ps);
        lemma_slash_each_join(fs);
        let pj = ps.push(seq!['*', '*']);
        let fj = fs.push(braces());
        assert(pj.drop_last() =~= ps);
        assert(fj.drop_last() =~= fs);
        if ps.len() == 0 {
            assert(slash_each(ps) =~= seq!['/']);
            assert(slash_each(fs) =~= seq!['/']);
            assert(join(pj, seq!['/']) == seq!['*', '*']);
            assert(join(fj, seq!['/']) == braces());
        } else {
            assert(join(pj, seq!['/']) == join(ps, seq!['/']) + seq!['/'] + seq!['*', '*']);
            assert(join(fj, seq!['/']) == join(fs, seq!['/']) + seq!['/'] + braces());
        }
        assert(st.path =~= seq!['/'] + join(pj, seq!['/']));
        assert(st.fmt =~= seq!['/'] + join(fj, seq!['/']));
        lemma_ends_double_star(slash_each(ps));
        assert(trim_tail(st.path) == st.path);
    }
}

/// The static segments of a route read from its directory segments left
/// to right, as identifiers: every segment that is neither `[x]` nor
/// `[...x]`, up to the first `[...x]`.
pub open spec fn route_statics(segs: Seq<Seq<char>>) -> Seq<Seq<char>>
    decreases segs.len(),
{
    if segs.len() == 0 {
        Seq::empty()
    } else if catch_all_inner(segs[0]) is Some {
        Seq::empty()
    } else if param_inner(segs[0]) is Some {
        route_statics(segs.drop_first())
    } else {
        seq![sanitize_spec(segs[0])] + route_statics(segs.drop_first())
    }
}

pub open spec fn static_piece(seg: Seq<char>) -> Seq<Seq<char>> {
    if catch_all_inner(seg) is Some || param_inner(seg) is Some {
        Seq::empty()
    } else {
        seq![sanitize_spec(seg)]
    }
}

proof fn lemma_route_statics_push(s: Seq<Seq<char>>, x: Seq<char>)
    ensures
        route_statics(s.push(x)) == if has_catch_all(s) {
            route_statics(s)
        } else {
            route_statics(s) + static_piece(x)
        },
    decreases s.len(),
{
    let sx = s.push(x);
    if s.len() == 0 {
        assert(sx.drop_first() =~= Seq::<Seq<char>>::empty());
        assert(route_statics(sx.drop_first()) =~= Seq::<Seq<char>>::empty());
        assert(sx[0] == x);
        assert(route_statics(s) =~= Seq::<Seq<char>>::empty());
        assert(!has_catch_all(s));
        assert(route_statics(sx) =~= route_statics(s) + static_piece(x));
    } else {
        let h = s[0];
        assert(sx[0] == h);
        assert(sx.drop_first() =~= s.drop_first().push(x));
        lemma_route_statics_push(s.drop_first(), x);
        if catch_all_inner(h) is Some {
            assert(has_catch_all(s));
        } else {
            assert(has_catch_all(s) == has_catch_all(s.drop_first())) by {
                if has_catch_all(s) {
                    let k = choose|k: int| 0 <= k < s.len() && catch_all_inner(#[trigger] s[k]) is Some;
                    assert(s.drop_first()[k - 1] == s[k]);
                }
                if has_catch_all(s.drop_first()) {
                    let k = choose|k: int|
                        0 <= k < s.drop_first().len() && catch_all_inner(#[trigger] s.drop_first()[k]) is Some;
                    assert(s[k + 1] == s.drop_first()[k]);
                }
            }
            if !has_catch_all(s) {
                assert(route_statics(sx) =~= route_statics(s) + static_piece(x));
            }
        }
    }
}

proof fn lemma_rd_fold_statics(segs: Seq<Seq<char>>)
    ensures
        rd_fold(segs).0.static_segs == route_statics(segs),
    decreases segs.len(),
{
    if segs.len() == 0 {
        assert(route_statics(segs) =~= Seq::<Seq<char>>::empty());
    } else {
        let s = segs.drop_last();
        let x = segs.last();
        assert(s.push(x) =~= segs);
        lemma_rd_fold_statics(s);
        lemma_rd_fold_params(s);
        lemma_route_statics_push(s, x);
        if !has_catch_all(s) {
            if catch_all_inner(x) is Some || param_inner(x) is Some {
                assert(rd_fold(segs).0.static_segs =~= route_statics(s) + static_piece(x));
            } else {
                assert(rd_fold(segs).0.static_segs =~= route_statics(s) + static_piece(x));
            }
        }
    }
}

/// The static segment names of a page's route are its plain directory
/// segments (neither `[x]` nor `[...x]`) before any catch-all, in order,
/// each made an identifier.
pub proof fn lemma_route_data_statics(rel: Seq<char>)
    ensures
        route_data_spec(rel).static_segs == route_statics(page_dirs(rel)),
{
    lemma_rd_fold_statics(page_dirs(rel));
}

/// The parameters of a page's route are exactly the names of its `[x]`
/// directory segments, in order, up to and including the first `[...x]`
/// catch-all (which ends the route); the route is a catch-all route
/// exactly when some directory segment is one.
pub proof fn lemma_route_data_params(rel: Seq<char>)
    ensures
        route_data_spec(rel).params == route_params(page_dirs(rel)),
        rd_fold(page_dirs(rel)).1 == has_catch_all(page_dirs(rel)),
{
    lemma_rd_fold_params(page_dirs(rel));
}

fn catch_all_inner_exec(seg: &Vec<char>) -> (r: Option<Vec<char>>)
    ensures
        match r {
            Some(v) => catch_all_inner(seg@) == Some(v@),
            None => catch_all_inner(seg@) is None,
        },
{
    let n = seg.len();
    if n >= 5 && seg[0] == '[' && seg[1] == '.' && seg[2] == '.' && seg[3] == '.' && seg[n - 1]
        == ']' {
        Some(crate::text::slice_chars(seg, 4, n - 1))
    } else {
        None
    }
}

fn param_inner_exec(seg: &Vec<char>) -> (r: Option<Vec<char>>)
    ensures
        match r {
            Some(v) => param_inner(seg@) == Some(v@),
            None => param_inner(seg@) is None,
        },
{
    let n = seg.len();
    if n >= 2 && seg[0] == '[' && seg[n - 1] == ']' {
        Some(crate::text::slice_chars(seg, 1, n - 1))
    } else {
        None
    }
}

fn append_chars(dst: &mut Vec<char>, src: &Vec<char>)
    ensures
        final(dst)@ == old(dst)@ + src@,
{
    let ghost start = dst@;
    let mut i: usize = 0;
    while i < src.len()
        invariant
            i <= src.len(),
            dst@ == start + src@.subrange(0, i as int),
        decreases src.len() - i,
    {
        dst.push(src[i]);
        assert(start + src@.subrange(0, i as int + 1) =~= (start + src@.subrange(0, i as int)).push(
            src@[i as int],
        ));
        i = i + 1;
    }
    assert(src@.subrange(0, src.len() as int) =~= src@);
}

fn strings_of(v: &Vec<Vec<char>>) -> (r: Vec<String>)
    ensures
        string_views(r@) == views(v@),
{
    let mut out: Vec<String> = Vec::new();
    let mut i: usize = 0;
    while i < v.len()
        invariant
            i <= v.len(),
            string_views(out@) == views(v@).subrange(0, i as int),
        decreases v.len() - i,
    {
        let s = string_of(&v[i]);
        let ghost before = out@;
        out.push(s);
        assert(views(v@)[i as int] == v@[i as int]@);
        assert(string_views(out@) =~= string_views(before).push(s@));
        assert(string_views(out@) =~= views(v@).subrange(0, i as int + 1));
        i = i + 1;
    }
    assert(views(v@).subrange(0, v.len() as int) =~= views(v@));
    out
}

fn trim_tail_chars(s: &mut Vec<char>)
    ensures
        final(s)@ == trim_tail(old(s)@),
{
    let n = s.len();
    let ends = n >= 2 && s[n - 2] == '*' && s[n - 1] == '*';
    assert(ends == ends_double_star(s@)) by {
        if n >= 2 {
            let t = s@.subrange(n - 2, n as int);
            if ends {
                assert(t =~= seq!['*', '*']);
            }
            if ends_double_star(s@) {
                assert(t[0] == s@[n - 2] && t[1] == s@[n - 1]);
            }
        }
    }
    if n > 1 && !ends {
        s.pop();
    }
}

/// Route path, parameters, path-format template and static segment names of
/// a page file (see `route_data_spec`).
pub fn route_data(rel: &str) -> (r: RouteData)
    ensures
        r@ == route_data_spec(rel@),
{
    let cs = chars_of(rel);
    let stem = stem_chars(&cs);
    let mut segs = split_chars(&stem, '/');
    proof {
        crate::text::lemma_split_nonempty(stem@, '/');
    }
    segs.pop();
    let ghost dirs = views(segs@);
    assert(dirs =~= page_dirs(rel@));
    let mut path: Vec<char> = vec!['/'];
    let mut fmt: Vec<char> = vec!['/'];
    let mut params: Vec<Vec<char>> = Vec::new();
    let mut statics: Vec<Vec<char>> = Vec::new();
    let mut i: usize = 0;
    let mut done = false;
    while i < segs.len() && !done
        invariant
            i <= segs.len(),
            dirs == views(segs@),
            rd_fold(dirs.subrange(0, i as int)).1 == done,
            rd_fold(dirs.subrange(0, i as int)).0.path == path@,
            rd_fold(dirs.subrange(0, i as int)).0.params == views(params@),
            rd_fold(dirs.subrange(0, i as int)).0.fmt == fmt@,
            rd_fold(dirs.subrange(0, i as int)).0.static_segs == views(statics@),
        decreases segs.len() - i,
    {
        let seg = &segs[i];
        let ghost st = rd_fold(dirs.subrange(0, i as int)).0;
        assert(dirs[i as int] == seg@);
        assert(dirs.subrange(0, i as int + 1).drop_last() =~= dirs.subrange(0, i as int));
        assert(dirs.subrange(0, i as int + 1).last() == seg@);
        if let Some(inner) = catch_all_inner_exec(seg) {
            let ghost iv = inner@;
            params.push(inner);
            fmt.push('{');
            fmt.push('}');
            path.push('*');
            path.push('*');
            assert(views(params@) =~= st.params.push(iv));
            assert(fmt@ =~= st.fmt + braces());
            assert(path@ =~= st.path + seq!['*', '*']);
            done = true;
        } else if let Some(inner) = param_inner_exec(seg) {
            path.push(':');
            append_chars(&mut path, &inner);
            path.push('/');
            fmt.push('{');
            fmt.push('}');
            fmt.push('/');
            let ghost iv = inner@;
            params.push(inner);
            assert(views(params@) =~= st.params.push(iv));
            assert(fmt@ =~= st.fmt + braces() + seq!['/']);
            assert(path@ =~= st.path + seq![':'] + iv + seq!['/']);
        } else {
            append_chars(&mut path, seg);
            path.push('/');
            append_chars(&mut fmt, seg);
            fmt.push('/');
            let name = sanitize_chars(seg);
            statics.push(name);
            assert(views(statics@) =~= st.static_segs.push(sanitize_spec(seg@)));
            assert(fmt@ =~= st.fmt + seg@ + seq!['/']);
            assert(path@ =~= st.path + seg@ + seq!['/']);
        }
        i = i + 1;
    }
    proof {
        if done {
            lemma_fold_done_stays(dirs, i as int);
        } else {
            assert(dirs.subrange(0, i as int) =~= dirs);
        }
    }
    trim_tail_chars(&mut path);
    if !done {
        trim_tail_chars(&mut fmt);
    }
    RouteData {
        path: string_of(&path),
        params: strings_of(&params),
        fmt: string_of(&fmt),
        static_segs: strings_of(&statics),
    }
}

proof fn lemma_fold_done_stays(dirs: Seq<Seq<char>>, k: int)
    requires
        0 <= k <= dirs.len(),
        rd_fold(dirs.subrange(0, k)).1,
    ensures
        rd_fold(dirs) == rd_fold(dirs.subrange(0, k)),
    decreases dirs.len() - k,
{
    if k < dirs.len() {
        assert(dirs.subrange(0, k + 1).drop_last() =~= dirs.subrange(0, k));
        lemma_fold_done_stays(dirs, k + 1);
    } else {
        assert(dirs.subrange(0, k) =~= dirs);
    }
}


/// Some file in `files` has relative path `rel`.
pub open spec fn has_file(files: Seq<AppFile>, rel: Seq<char>) -> bool {
    exists|i: int| 0 <= i < files.len() && (#[trigger] files[i]).rel@ == rel
}

/// Some layout file in `files` has relative path `rel`.
pub open spec fn has_layout(files: Seq<AppFile>, rel: Seq<char>) -> bool {
    exists|i: int|
        0 <= i < files.len() && (#[trigger] files[i]).rel@ == rel && files[i].kind
            == AppFileKind::Layout
}

fn find_file(files: &Vec<AppFile>, rel: &Vec<char>, layout_only: bool) -> (r: bool)
    ensures
        r == (if layout_only {
            has_layout(files@, rel@)
        } else {
            has_file(files@, rel@)
        }),
{
    let mut i: usize = 0;
    while i < files.len()
        invariant
            i <= files.len(),
            forall|j: int|
                0 <= j < i ==> !((#[trigger] files@[j]).rel@ == rel@ && (!layout_only
                    || files@[j].kind == AppFileKind::Layout)),
        decreases files.len() - i,
    {
        let name = chars_of(files[i].rel.as_str());
        if chars_eq(&name, rel) && (!layout_only || files[i].kind == AppFileKind::Layout) {
            return true;
        }
        i = i + 1;
    }
    false
}

/// The part of `rel` before its last `/` (empty when there is none).
pub open spec fn dir_of(rel: Seq<char>) -> Seq<char>
    decreases rel.len(),
{
    if rel.len() == 0 {
        Seq::empty()
    } else if rel.last() == '/' {
        rel.drop_last()
    } else {
        dir_of(rel.drop_last())
    }
}

proof fn lemma_dir_of_scan(rel: Seq<char>, j: int)
    requires
        0 <= j <= rel.len(),
        forall|k: int| j <= k < rel.len() ==> rel[k] != '/',
    ensures
        dir_of(rel) == dir_of(rel.subrange(0, j)),
    decreases rel.len() - j,
{
    if j < rel.len() {
        assert(rel.drop_last().subrange(0, j) =~= rel.subrange(0, j));
        lemma_dir_of_scan(rel.drop_last(), j);
    } else {
        assert(rel.subrange(0, j) =~= rel);
    }
}

fn dir_of_exec(rel: &Vec<char>) -> (r: Vec<char>)
    ensures
        r@ == dir_of(rel@),
{
    let mut j: usize = rel.len();
    while j > 0
        invariant
            j <= rel.len(),
            forall|k: int| j <= k < rel.len() ==> rel@[k] != '/',
        decreases j,
    {
        if rel[j - 1] == '/' {
            proof {
                lemma_dir_of_scan(rel@, j as int);
                assert(rel@.subrange(0, j as int).drop_last() =~= rel@.subrange(0, j - 1));
            }
            return crate::text::slice_chars(rel, 0, j - 1);
        }
        j = j - 1;
    }
    proof {
        lemma_dir_of_scan(rel@, 0);
    }
    Vec::new()
}

/// The directory chain of `parts`: `a`, `a/b`, `a/b/c`, ...
pub open spec fn dir_prefixes(parts: Seq<Seq<char>>) -> Seq<Seq<char>> {
    Seq::new(parts.len(), |k: int| join(parts.subrange(0, k + 1), seq!['/']))
}

/// The directories enclosing file `rel`, outermost first.
pub open spec fn enclosing_dirs(rel: Seq<char>) -> Seq<Seq<char>> {
    let d = dir_of(rel);
    if d.len() == 0 {
        Seq::empty()
    } else {
        dir_prefixes(split_spec(d, '/'))
    }
}

/// Where the layout of directory `d` lives.
pub open spec fn layout_rel_of(d: Seq<char>) -> Seq<char> {
    if d.len() == 0 {
        layout_rs()
    } else {
        d + seq!['/'] + layout_rs()
    }
}

/// Layouts of `dirs` that exist, innermost directory first.
pub open spec fn chain_rev(dirs: Seq<Seq<char>>, files: Seq<AppFile>) -> Seq<Seq<char>>
    decreases dirs.len(),
{
    if dirs.len() == 0 {
        Seq::empty()
    } else {
        let c = layout_rel_of(dirs.last());
        let rest = chain_rev(dirs.drop_last(), files);
        if has_layout(files, c) {
            seq![c] + rest
        } else {
            rest
        }
    }
}

/// Layout chain of file `rel`: the layouts of its enclosing directories,
/// nearest first, then the root `layout.rs` when there is one.
pub open spec fn layout_chain_spec(rel: Seq<char>, files: Seq<AppFile>) -> Seq<Seq<char>> {
    chain_rev(enclosing_dirs(rel), files) + if has_layout(files, layout_rs()) {
        seq![layout_rs()]
    } else {
        Seq::empty()
    }
}

proof fn lemma_layout_rel_len(d: Seq<char>)
    ensures
        layout_rel_of(d).len() == if d.len() == 0 {
            9
        } else {
            d.len() + 10
        },
        layout_rel_of(d).len() == 9 ==> layout_rel_of(d) == layout_rs(),
{
}

proof fn lemma_dir_prefixes_grow(parts: Seq<Seq<char>>, i: int, j: int)
    requires
        0 <= i < j < parts.len(),
    ensures
        dir_prefixes(parts)[i].len() < dir_prefixes(parts)[j].len(),
    decreases j - i,
{
    let a = parts.subrange(0, j + 1);
    assert(a.drop_last() =~= parts.subrange(0, j));
    assert(a.last() == parts[j]);
    assert(join(a, seq!['/']) == join(parts.subrange(0, j), seq!['/']) + seq!['/'] + parts[j]);
    if i < j - 1 {
        lemma_dir_prefixes_grow(parts, i, j - 1);
    }
}

proof fn lemma_chain_rev_order(dirs: Seq<Seq<char>>, files: Seq<AppFile>)
    requires
        forall|i: int, j: int| 0 <= i < j < dirs.len() ==> dirs[i].len() < dirs[j].len(),
    ensures
        forall|a: int, b: int|
            0 <= a < b < chain_rev(dirs, files).len() ==> chain_rev(dirs, files)[a].len() > chain_rev(
                dirs,
                files,
            )[b].len(),
        forall|a: int|
            0 <= a < chain_rev(dirs, files).len() ==> has_layout(files, #[trigger] chain_rev(dirs, files)[a])
                && exists|k: int| 0 <= k < dirs.len() && chain_rev(dirs, files)[a] == layout_rel_of(dirs[k]),
        forall|k: int|
            0 <= k < dirs.len() && has_layout(files, layout_rel_of(#[trigger] dirs[k])) ==> chain_rev(
                dirs,
                files,
            ).contains(layout_rel_of(dirs[k])),
    decreases dirs.len(),
{
    if dirs.len() > 0 {
        let s = dirs.drop_last();
        let x = dirs.last();
        assert(forall|i: int, j: int| 0 <= i < j < s.len() ==> s[i].len() < s[j].len()) by {
            assert forall|i: int, j: int| 0 <= i < j < s.len() implies s[i].len() < s[j].len() by {
                assert(s[i] == dirs[i] && s[j] == dirs[j]);
            }
        }
        lemma_chain_rev_order(s, files);
        let rest = chain_rev(s, files);
        let c = layout_rel_of(x);
        lemma_layout_rel_len(x);
        assert forall|a: int| 0 <= a < rest.len() implies #[trigger] rest[a].len() < c.len() by {
            let k = choose|k: int| 0 <= k < s.len() && rest[a] == layout_rel_of(s[k]);
            assert(s[k] == dirs[k]);
            assert(dirs[k].len() < x.len());
            lemma_layout_rel_len(s[k]);
        }
        let all = chain_rev(dirs, files);
        assert forall|k: int| 0 <= k < dirs.len() && has_layout(files, layout_rel_of(#[trigger] dirs[k]))
            implies all.contains(layout_rel_of(dirs[k])) by {
            if k < s.len() {
                assert(s[k] == dirs[k]);
                assert(rest.contains(layout_rel_of(s[k])));
                let a = choose|a: int| 0 <= a < rest.len() && rest[a] == layout_rel_of(s[k]);
                if has_layout(files, c) {
                    assert(all[a + 1] == rest[a]);
                } else {
                    assert(all[a] == rest[a]);
                }
            } else {
                assert(dirs[k] == x);
                assert(all[0] == c);
            }
        }
        if has_layout(files, c) {
            assert forall|a: int| 0 <= a < all.len() implies has_layout(files, #[trigger] all[a])
                && exists|k: int| 0 <= k < dirs.len() && all[a] == layout_rel_of(dirs[k]) by {
                if a == 0 {
                    assert(all[0] == layout_rel_of(dirs[dirs.len() - 1]));
                } else {
                    assert(all[a] == rest[a - 1]);
                    let k = choose|k: int| 0 <= k < s.len() && rest[a - 1] == layout_rel_of(s[k]);
                    assert(s[k] == dirs[k]);
                }
            }
            assert forall|a: int, b: int| 0 <= a < b < all.len() implies all[a].len() > all[b].len() by {
                assert(all[b] == rest[b - 1]);
                if a > 0 {
                    assert(all[a] == rest[a - 1]);
                }
            }
        } else {
            assert forall|a: int| 0 <= a < all.len() implies has_layout(files, #[trigger] all[a])
                && exists|k: int| 0 <= k < dirs.len() && all[a] == layout_rel_of(dirs[k]) by {
                let k = choose|k: int| 0 <= k < s.len() && rest[a] == layout_rel_of(s[k]);
                assert(s[k] == dirs[k]);
            }
        }
    }
}

proof fn lemma_join_split(s: Seq<char>, sep: char)
    ensures
        join(split_spec(s, sep), seq![sep]) == s,
    decreases s.len(),
{
    if s.len() > 0 {
        let r = split_spec(s.drop_last(), sep);
        lemma_join_split(s.drop_last(), sep);
        crate::text::lemma_split_nonempty(s.drop_last(), sep);
        let sp = split_spec(s, sep);
        if s.last() == sep {
            assert(sp.drop_last() =~= r);
            assert(join(sp, seq![sep]) =~= s);
        } else {
            assert(sp.len() == r.len());
            if r.len() == 1 {
                assert(join(sp, seq![sep]) =~= s);
            } else {
                assert(sp.drop_last() =~= r.drop_last());
                assert(sp.last() == r.last().push(s.last()));
                assert(join(r, seq![sep]) == join(r.drop_last(), seq![sep]) + seq![sep] + r.last());
                assert(join(sp, seq![sep]) == join(r.drop_last(), seq![sep]) + seq![sep] + sp.last());
                assert(s =~= s.drop_last().push(s.last()));
                assert(join(r.drop_last(), seq![sep]) + seq![sep] + r.last().push(s.last()) =~= (join(
                    r.drop_last(),
                    seq![sep],
                ) + seq![sep] + r.last()).push(s.last()));
                assert(join(sp, seq![sep]) =~= s);
            }
        }
    }
}

/// Joining a longer run of pieces extends the shorter run's join by the
/// separator.
proof fn lemma_join_prefix(parts: Seq<Seq<char>>, k: int, n: int, sep: Seq<char>)
    requires
        1 <= k < n <= parts.len(),
    ensures
        join(parts.take(k), sep).len() + sep.len() <= join(parts.take(n), sep).len(),
        join(parts.take(n), sep).subrange(0, (join(parts.take(k), sep).len() + sep.len()) as int) == join(
            parts.take(k),
            sep,
        ) + sep,
    decreases n - k,
{
    let a = parts.take(n);
    assert(a.drop_last() =~= parts.take(n - 1));
    assert(a.last() == parts[n - 1]);
    let jn = join(a, sep);
    let jm = join(parts.take(n - 1), sep);
    assert(jn == jm + sep + parts[n - 1]);
    if k == n - 1 {
        assert(jn.subrange(0, (jm.len() + sep.len()) as int) =~= jm + sep);
    } else {
        lemma_join_prefix(parts, k, n - 1, sep);
        let jk = join(parts.take(k), sep);
        assert(jn.subrange(0, (jk.len() + sep.len()) as int) =~= jm.subrange(0, (jk.len() + sep.len()) as int));
    }
}

proof fn lemma_dir_of_prefix(rel: Seq<char>)
    ensures
        dir_of(rel).len() < rel.len() ==> rel.subrange(0, dir_of(rel).len() + 1int) == dir_of(rel) + seq![
            '/',
        ] || dir_of(rel).len() == 0,
        dir_of(rel).len() <= rel.len(),
    decreases rel.len(),
{
    if rel.len() > 0 {
        if rel.last() == '/' {
            assert(rel.subrange(0, rel.len() as int) =~= rel.drop_last() + seq!['/']);
        } else {
            lemma_dir_of_prefix(rel.drop_last());
            lemma_dir_of_short(rel.drop_last());
            let d = dir_of(rel.drop_last());
            if d.len() > 0 && d.len() < rel.drop_last().len() {
                assert(rel.subrange(0, d.len() + 1int) =~= rel.drop_last().subrange(0, d.len() + 1int));
            }
        }
    }
}

/// Every directory enclosing a page, followed by `/`, starts the page's
/// path (or is empty, for a path that begins with `/`).
proof fn lemma_enclosing_prefix(rel: Seq<char>, k: int)
    requires
        0 <= k < enclosing_dirs(rel).len(),
    ensures
        enclosing_dirs(rel)[k].len() == 0 || (enclosing_dirs(rel)[k].len() + 1 <= rel.len()
            && rel.subrange(0, enclosing_dirs(rel)[k].len() + 1int) == enclosing_dirs(rel)[k] + seq!['/']),
{
    let d = dir_of(rel);
    let parts = split_spec(d, '/');
    lemma_join_split(d, '/');
    lemma_dir_of_prefix(rel);
    assert(parts.take(parts.len() as int) =~= parts);
    let e = enclosing_dirs(rel)[k];
    assert(e == join(parts.subrange(0, k + 1), seq!['/']));
    assert(parts.subrange(0, k + 1) =~= parts.take(k + 1));
    if d.len() == rel.len() {
        // dir_of keeps only what stands before a `/`, so it is shorter
        lemma_dir_of_short(rel);
    }
    if e.len() > 0 {
        if k + 1 < parts.len() {
            lemma_join_prefix(parts, k + 1, parts.len() as int, seq!['/']);
            assert(rel.subrange(0, e.len() + 1int) =~= d.subrange(0, e.len() + 1int));
        } else {
            assert(e == d);
        }
    }
}

proof fn lemma_dir_of_short(rel: Seq<char>)
    ensures
        rel.len() > 0 ==> dir_of(rel).len() < rel.len(),
        rel.len() == 0 ==> dir_of(rel).len() == 0,
    decreases rel.len(),
{
    if rel.len() > 0 && rel.last() != '/' {
        lemma_dir_of_short(rel.drop_last());
    }
}

/// A page's layout chain runs from the nearest layout out to the root: its
/// entries are layout files of the set, each the `layout.rs` of a
/// directory enclosing the page or of the app root; a deeper directory's
/// layout comes before an enclosing one's (each entry is a longer path than
/// every later one, the root `layout.rs` aside), the root's layout comes
/// last, and no enclosing directory's layout is left out.
pub proof fn lemma_layout_chain_nearest_first(rel: Seq<char>, files: Seq<AppFile>)
    ensures
        ({
            let r = layout_chain_spec(rel, files);
            let ds = enclosing_dirs(rel);
            &&& forall|a: int, b: int|
                0 <= a < b < r.len() ==> r[a].len() > r[b].len() || (r[a] == layout_rs() && r[b]
                    == layout_rs())
            &&& forall|a: int|
                0 <= a < r.len() ==> has_layout(files, #[trigger] r[a]) && (r[a] == layout_rs()
                    || exists|k: int| 0 <= k < ds.len() && r[a] == layout_rel_of(ds[k]))
            &&& has_layout(files, layout_rs()) ==> r.len() > 0 && r.last() == layout_rs()
            &&& forall|k: int|
                0 <= k < ds.len() && has_layout(files, layout_rel_of(#[trigger] ds[k])) ==> r.contains(
                    layout_rel_of(ds[k]),
                )
            &&& forall|a: int|
                0 <= a < r.len() ==> #[trigger] r[a] == layout_rs() || exists|n: int|
                    0 < n < rel.len() && rel[n] == '/' && r[a] == rel.subrange(0, n + 1) + layout_rs()
        }),
{
    let ds = enclosing_dirs(rel);
    let d = dir_of(rel);
    if d.len() > 0 {
        let parts = split_spec(d, '/');
        assert forall|i: int, j: int| 0 <= i < j < ds.len() implies ds[i].len() < ds[j].len() by {
            lemma_dir_prefixes_grow(parts, i, j);
        }
    }
    lemma_chain_rev_order(ds, files);
    let c = chain_rev(ds, files);
    let tail = if has_layout(files, layout_rs()) {
        seq![layout_rs()]
    } else {
        Seq::<Seq<char>>::empty()
    };
    let r = layout_chain_spec(rel, files);
    assert(r == c + tail);
    assert forall|a: int| 0 <= a < c.len() implies #[trigger] c[a].len() >= 9 && (c[a].len() == 9 ==> c[a]
        == layout_rs()) by {
        let k = choose|k: int| 0 <= k < ds.len() && c[a] == layout_rel_of(ds[k]);
        lemma_layout_rel_len(ds[k]);
    }
    assert forall|a: int, b: int| 0 <= a < b < r.len() implies r[a].len() > r[b].len() || (r[a]
        == layout_rs() && r[b] == layout_rs()) by {
        assert(r[a] == c[a]);
        if b < c.len() {
            assert(r[b] == c[b]);
        } else {
            assert(r[b] == layout_rs());
        }
    }
    assert forall|a: int| 0 <= a < r.len() implies has_layout(files, #[trigger] r[a]) && (r[a]
        == layout_rs() || exists|k: int| 0 <= k < ds.len() && r[a] == layout_rel_of(ds[k])) by {
        if a < c.len() {
            assert(r[a] == c[a]);
        }
    }
    assert forall|k: int| 0 <= k < ds.len() && has_layout(files, layout_rel_of(#[trigger] ds[k])) implies r.contains(
        layout_rel_of(ds[k]),
    ) by {
        let a = choose|a: int| 0 <= a < c.len() && c[a] == layout_rel_of(ds[k]);
        assert(r[a] == c[a]);
    }
    assert forall|a: int| 0 <= a < r.len() implies #[trigger] r[a] == layout_rs() || exists|n: int|
        0 < n < rel.len() && rel[n] == '/' && r[a] == rel.subrange(0, n + 1) + layout_rs() by {
        if r[a] != layout_rs() {
            let k = choose|k: int| 0 <= k < ds.len() && r[a] == layout_rel_of(ds[k]);
            lemma_enclosing_prefix(rel, k);
            let e = ds[k];
            let n = e.len() as int;
            assert(rel.subrange(0, n + 1)[n] == rel[n]);
            assert(r[a] =~= rel.subrange(0, n + 1) + layout_rs());
        }
    }
}

fn layout_rel_exec(d: &Vec<char>) -> (r: Vec<char>)
    ensures
        r@ == layout_rel_of(d@),
{
    let lay = vec!['l', 'a', 'y', 'o', 'u', 't', '.', 'r', 's'];
    assert(lay@ =~= layout_rs());
    if d.len() == 0 {
        lay
    } else {
        let mut x = copy_chars(d);
        x.push('/');
        let r = concat_chars(&x, &lay);
        assert(r@ =~= d@ + seq!['/'] + layout_rs());
        r
    }
}

/// Layout chain (nearest segment layout -> ... -> root layout) for a file.
pub fn layout_chain(rel: &str, files: &Vec<AppFile>) -> (r: Vec<String>)
    ensures
        string_views(r@) == layout_chain_spec(rel@, files@),
{
    let cs = chars_of(rel);
    let dir = dir_of_exec(&cs);
    let mut dirs: Vec<Vec<char>> = Vec::new();
    if dir.len() > 0 {
        let parts = split_chars(&dir, '/');
        let sep = vec!['/'];
        let mut k: usize = 0;
        while k < parts.len()
            invariant
                k <= parts.len(),
                sep@ == seq!['/'],
                views(dirs@) == dir_prefixes(views(parts@)).subrange(0, k as int),
            decreases parts.len() - k,
        {
            let d = join_prefix(&parts, k + 1, &sep);
            let ghost before = dirs@;
            dirs.push(d);
            assert(views(dirs@) =~= views(before).push(d@));
            assert(views(dirs@) =~= dir_prefixes(views(parts@)).subrange(0, k as int + 1));
            k = k + 1;
        }
        assert(views(dirs@) =~= enclosing_dirs(rel@));
    } else {
        assert(views(dirs@) =~= enclosing_dirs(rel@));
    }
    let ghost all = views(dirs@);
    let mut out: Vec<String> = Vec::new();
    let mut n: usize = dirs.len();
    while n > 0
        invariant
            n <= dirs.len(),
            all == views(dirs@),
            chain_rev(all, files@) == string_views(out@) + chain_rev(all.subrange(0, n as int), files@),
        decreases n,
    {
        let c = layout_rel_exec(&dirs[n - 1]);
        let ghost sub = all.subrange(0, n as int);
        assert(sub.drop_last() =~= all.subrange(0, n - 1));
        assert(sub.last() == dirs@[n - 1]@);
        if find_file(files, &c, true) {
            let ghost before = out@;
            out.push(string_of(&c));
            assert(string_views(out@) =~= string_views(before).push(c@));
            assert(string_views(out@) + chain_rev(all.subrange(0, n - 1), files@) =~= string_views(
                before,
            ) + (seq![c@] + chain_rev(all.subrange(0, n - 1), files@)));
        }
        n = n - 1;
    }
    assert(all.subrange(0, 0) =~= Seq::<Seq<char>>::empty());
    let lay = vec!['l', 'a', 'y', 'o', 'u', 't', '.', 'r', 's'];
    assert(lay@ =~= layout_rs());
    if find_file(files, &lay, true) {
        let ghost before = out@;
        out.push(string_of(&lay));
        assert(string_views(out@) =~= string_views(before).push(layout_rs()));
    }
    assert(string_views(out@) =~= layout_chain_spec(rel@, files@));
    out
}

/// Nearest file named `fname` in the directory chain `segs`: innermost
/// directory first, walking up, then the app root.
pub open spec fn seg_search(segs: Seq<Seq<char>>, files: Seq<AppFile>, fname: Seq<char>, n: nat) -> Option<
    Seq<char>,
>
    decreases n,
{
    if n == 0 {
        if has_file(files, fname) {
            Some(fname)
        } else {
            None
        }
    } else {
        let cand = join(segs.subrange(0, n as int), seq!['/']) + seq!['/'] + fname;
        if has_file(files, cand) {
            Some(cand)
        } else {
            seg_search(segs, files, fname, (n - 1) as nat)
        }
    }
}

/// Nearest `error.rs` / `loading.rs` for page `rel` (see `seg_search`).
pub open spec fn find_segment_file_spec(rel: Seq<char>, files: Seq<AppFile>, fname: Seq<char>) -> Option<
    Seq<char>,
> {
    let segs = page_dirs(rel);
    seg_search(segs, files, fname, segs.len())
}

/// The file named `fname` in the directory made of the first `k` segments.
pub open spec fn file_in_dir(segs: Seq<Seq<char>>, k: int, fname: Seq<char>) -> Seq<char> {
    join(segs.take(k), seq!['/']) + seq!['/'] + fname
}

proof fn lemma_seg_search_nearest(segs: Seq<Seq<char>>, files: Seq<AppFile>, fname: Seq<char>, n: nat)
    requires
        n <= segs.len(),
    ensures
        match seg_search(segs, files, fname, n) {
            Some(c) => has_file(files, c) && ((exists|k: int|
                1 <= k <= n && c == file_in_dir(segs, k, fname) && forall|k2: int|
                    k < k2 <= n ==> !has_file(files, #[trigger] file_in_dir(segs, k2, fname))) || (c
                == fname && forall|k2: int|
                1 <= k2 <= n ==> !has_file(files, #[trigger] file_in_dir(segs, k2, fname)))),
            None => !has_file(files, fname) && forall|k2: int|
                1 <= k2 <= n ==> !has_file(files, #[trigger] file_in_dir(segs, k2, fname)),
        },
    decreases n,
{
    if n > 0 {
        assert(segs.subrange(0, n as int) =~= segs.take(n as int));
        lemma_seg_search_nearest(segs, files, fname, (n - 1) as nat);
        let c = file_in_dir(segs, n as int, fname);
        if has_file(files, c) {
            assert(seg_search(segs, files, fname, n) == Some(c));
        } else {
            match seg_search(segs, files, fname, (n - 1) as nat) {
                Some(c1) => {
                    if c1 != fname || !(forall|k2: int|
                        1 <= k2 <= n - 1 ==> !has_file(files, #[trigger] file_in_dir(segs, k2, fname))) {
                        let k = choose|k: int|
                            1 <= k <= n - 1 && c1 == file_in_dir(segs, k, fname) && forall|k2: int|
                                k < k2 <= n - 1 ==> !has_file(files, #[trigger] file_in_dir(segs, k2, fname));
                        assert(forall|k2: int|
                            k < k2 <= n ==> !has_file(files, #[trigger] file_in_dir(segs, k2, fname)));
                    }
                },
                None => {},
            }
        }
    }
}

/// The boundary file found for a page is the nearest one: it is a file of
/// the set, and either it lies in one of the page's directories and no
/// deeper directory of the page holds a file of that name, or it is the
/// app root's and no directory of the page holds one. When nothing is
/// found, neither the page's directories nor the root hold the file.
pub proof fn lemma_segment_file_nearest(rel: Seq<char>, files: Seq<AppFile>, fname: Seq<char>)
    ensures
        ({
            let segs = page_dirs(rel);
            match find_segment_file_spec(rel, files, fname) {
                Some(c) => has_file(files, c) && ((exists|k: int|
                    1 <= k <= segs.len() && c == file_in_dir(segs, k, fname) && forall|k2: int|
                        k < k2 <= segs.len() ==> !has_file(files, #[trigger] file_in_dir(segs, k2, fname)))
                    || (c == fname && forall|k2: int|
                    1 <= k2 <= segs.len() ==> !has_file(files, #[trigger] file_in_dir(segs, k2, fname)))),
                None => !has_file(files, fname) && forall|k2: int|
                    1 <= k2 <= segs.len() ==> !has_file(files, #[trigger] file_in_dir(segs, k2, fname)),
            }
        }),
{
    let segs = page_dirs(rel);
    lemma_seg_search_nearest(segs, files, fname, segs.len());
}

pub fn find_segment_file(rel: &str, files: &Vec<AppFile>, fname: &str) -> (r: Option<String>)
    ensures
        match r {
            Some(s) => find_segment_file_spec(rel@, files@, fname@) == Some(s@),
            None => find_segment_file_spec(rel@, files@, fname@) is None,
        },
{
    let cs = chars_of(rel);
    let stem = stem_chars(&cs);
    let mut segs = split_chars(&stem, '/');
    proof {
        crate::text::lemma_split_nonempty(stem@, '/');
    }
    segs.pop();
    assert(views(segs@) =~= page_dirs(rel@));
    let fc = chars_of(fname);
    let sep = vec!['/'];
    let mut n: usize = segs.len();
    while n > 0
        invariant
            n <= segs.len(),
            sep@ == seq!['/'],
            fc@ == fname@,
            views(segs@) == page_dirs(rel@),
            find_segment_file_spec(rel@, files@, fname@) == seg_search(
                views(segs@),
                files@,
                fname@,
                n as nat,
            ),
        decreases n,
    {
        let dir = join_prefix(&segs, n, &sep);
        let mut cand = dir;
        cand.push('/');
        let cand = concat_chars(&cand, &fc);
        assert(cand@ =~= join(views(segs@).subrange(0, n as int), seq!['/']) + seq!['/'] + fname@);
        if find_file(files, &cand, false) {
            return Some(string_of(&cand));
        }
        n = n - 1;
    }
    if find_file(files, &fc, false) {
        return Some(string_of(&fc));
    }
    None
}


/// A typed `paths` entry for a page: a `const` holding the path for a
/// static route, or a path-building `fn` taking one `&str` per parameter.
pub struct PathHelper {
    /// Name of the const (upper case) or fn (lower case).
    pub name: String,
    /// `true` for a `const`, `false` for a path-building `fn`.
    pub is_const: bool,
    /// The route path (the const's value).
    pub path: String,
    /// Parameter names of the fn, in route order.
    pub args: Vec<String>,
    /// The `format!` template the fn fills in.
    pub fmt: String,
}

pub open spec fn index_name() -> Seq<char> {
    seq!['I', 'N', 'D', 'E', 'X']
}

pub open spec fn upper_spec(s: Seq<char>) -> Seq<char> {
    s.map_values(|c: char| ascii_upper(c))
}

pub open spec fn upper_all(ss: Seq<Seq<char>>) -> Seq<Seq<char>> {
    ss.map_values(|s: Seq<char>| upper_spec(s))
}

pub open spec fn sanitize_all(ss: Seq<Seq<char>>) -> Seq<Seq<char>> {
    ss.map_values(|p: Seq<char>| sanitize_spec(p))
}

/// Name of the `paths` entry: `INDEX` for the root, the upper-cased static
/// segments joined by `_` for other static routes, and for routes with
/// parameters the static segments then the sanitized parameter names, joined
/// by `_`.
pub open spec fn helper_name_spec(d: RouteDataView) -> Seq<char> {
    if d.params.len() == 0 {
        if d.static_segs.len() == 0 {
            index_name()
        } else {
            join(upper_all(d.static_segs), seq!['_'])
        }
    } else {
        join(d.static_segs + sanitize_all(d.params), seq!['_'])
    }
}

fn copy_string_views(v: &Vec<String>) -> (r: Vec<Vec<char>>)
    ensures
        views(r@) == string_views(v@),
{
    let mut out: Vec<Vec<char>> = Vec::new();
    let mut i: usize = 0;
    while i < v.len()
        invariant
            i <= v.len(),
            views(out@) == string_views(v@).subrange(0, i as int),
        decreases v.len() - i,
    {
        let c = chars_of(v[i].as_str());
        let ghost before = out@;
        out.push(c);
        assert(views(out@) =~= views(before).push(v@[i as int]@));
        assert(views(out@) =~= string_views(v@).subrange(0, i as int + 1));
        i = i + 1;
    }
    assert(string_views(v@).subrange(0, v.len() as int) =~= string_views(v@));
    out
}

/// Emits the typed `paths` entry for a page (see `helper_name_spec`).
pub fn path_helper(data: &RouteData) -> (r: PathHelper)
    ensures
        r.name@ == helper_name_spec(data@),
        r.is_const == (data@.params.len() == 0),
        r.path@ == data@.path,
        string_views(r.args@) == sanitize_all(data@.params),
        r.fmt@ == data@.fmt,
{
    let statics = copy_string_views(&data.static_segs);
    let params = copy_string_views(&data.params);
    let mut sane: Vec<Vec<char>> = Vec::new();
    let mut i: usize = 0;
    while i < params.len()
        invariant
            i <= params.len(),
            views(params@) == data@.params,
            views(sane@) == sanitize_all(data@.params.subrange(0, i as int)),
        decreases params.len() - i,
    {
        let x = sanitize_chars(&params[i]);
        let ghost before = sane@;
        sane.push(x);
        assert(views(sane@) =~= views(before).push(sanitize_spec(params@[i as int]@)));
        assert(views(sane@) =~= sanitize_all(data@.params.subrange(0, i as int + 1)));
        i = i + 1;
    }
    assert(data@.params.subrange(0, params.len() as int) =~= data@.params);
    assert(views(sane@) == sanitize_all(data@.params));
    let sep = vec!['_'];
    assert(sep@ =~= seq!['_']);
    let name: Vec<char>;
    if params.len() == 0 {
        if statics.len() == 0 {
            name = vec!['I', 'N', 'D', 'E', 'X'];
            assert(name@ =~= index_name());
        } else {
            let mut ups: Vec<Vec<char>> = Vec::new();
            let mut j: usize = 0;
            while j < statics.len()
                invariant
                    j <= statics.len(),
                    views(statics@) == data@.static_segs,
                    views(ups@) == upper_all(data@.static_segs.subrange(0, j as int)),
                decreases statics.len() - j,
            {
                let u = upper_chars(&statics[j]);
                let ghost before = ups@;
                ups.push(u);
                assert(views(ups@) =~= views(before).push(upper_spec(statics@[j as int]@)));
                assert(views(ups@) =~= upper_all(data@.static_segs.subrange(0, j as int + 1)));
                j = j + 1;
            }
            assert(data@.static_segs.subrange(0, statics.len() as int) =~= data@.static_segs);
            name = join_prefix(&ups, ups.len(), &sep);
            assert(views(ups@).subrange(0, ups.len() as int) =~= views(ups@));
            assert(views(ups@) == upper_all(data@.static_segs));
            assert(name@ == helper_name_spec(data@));
        }
    } else {
        let mut parts = statics;
        let mut j: usize = 0;
        let ghost base = views(parts@);
        while j < sane.len()
            invariant
                j <= sane.len(),
                base == data@.static_segs,
                views(parts@) == base + views(sane@).subrange(0, j as int),
            decreases sane.len() - j,
        {
            let x = copy_chars(&sane[j]);
            let ghost before = parts@;
            parts.push(x);
            assert(views(parts@) =~= views(before).push(sane@[j as int]@));
            assert(views(parts@) =~= base + views(sane@).subrange(0, j as int + 1));
            j = j + 1;
        }
        assert(views(sane@).subrange(0, sane.len() as int) =~= views(sane@));
        name = join_prefix(&parts, parts.len(), &sep);
        assert(views(parts@).subrange(0, parts.len() as int) =~= views(parts@));
        assert(views(parts@) == data@.static_segs + sanitize_all(data@.params));
        assert(name@ == helper_name_spec(data@));
    }
    PathHelper {
        name: string_of(&name),
        is_const: params.len() == 0,
        path: string_of(&chars_of(data.path.as_str())),
        args: strings_of(&sane),
        fmt: string_of(&chars_of(data.fmt.as_str())),
    }
}

/// The page files among `files`, in order.
pub open spec fn pages(files: Seq<AppFile>) -> Seq<AppFile>
    decreases files.len(),
{
    if files.len() == 0 {
        Seq::empty()
    } else if files.last().kind == AppFileKind::Page {
        pages(files.drop_last()).push(files.last())
    } else {
        pages(files.drop_last())
    }
}

/// The route paths of the page files, in file order.
pub open spec fn page_paths(files: Seq<AppFile>) -> Seq<Seq<char>> {
    pages(files).map_values(|f: AppFile| route_data_spec(f.rel@).path)
}

/// Compile-time route registry: the path and pattern of every declared
/// page route (the implicit not-found fallback is left out).
pub fn discover_route_patterns(files: &Vec<AppFile>) -> (r: Vec<(String, Vec<crate::route_match::RouteSeg>)>)
    ensures
        r@.len() == page_paths(files@).len(),
        forall|i: int|
            0 <= i < r@.len() ==> (#[trigger] r@[i]).0@ == page_paths(files@)[i]
                && crate::route_match::pat_views(r@[i].1@) == crate::route_match::pattern_spec(
                page_paths(files@)[i],
            ),
{
    let mut out: Vec<(String, Vec<crate::route_match::RouteSeg>)> = Vec::new();
    let mut i: usize = 0;
    while i < files.len()
        invariant
            i <= files.len(),
            out@.len() == page_paths(files@.subrange(0, i as int)).len(),
            forall|k: int|
                0 <= k < out@.len() ==> (#[trigger] out@[k]).0@ == page_paths(
                    files@.subrange(0, i as int),
                )[k] && crate::route_match::pat_views(out@[k].1@)
                    == crate::route_match::pattern_spec(page_paths(files@.subrange(0, i as int))[k]),
        decreases files.len() - i,
    {
        let ghost sub = files@.subrange(0, i as int + 1);
        assert(sub.drop_last() =~= files@.subrange(0, i as int));
        assert(sub.last() == files@[i as int]);
        if files[i].kind == AppFileKind::Page {
            let data = route_data(files[i].rel.as_str());
            let pat = crate::route_match::route_pattern(data.path.as_str());
            out.push((data.path, pat));
            assert(pages(sub) == pages(files@.subrange(0, i as int)).push(files@[i as int]));
        } else {
            assert(pages(sub) == pages(files@.subrange(0, i as int)));
        }
        i = i + 1;
    }
    assert(files@.subrange(0, files.len() as int) =~= files@);
    out
}

/// Is concrete URL `input` accepted by the page routes of `files`? The root
/// URL (`/` or empty) is accepted by a `/` route; any URL is accepted by a
/// route whose pattern it matches.
pub open spec fn route_accepts(input: Seq<char>, files: Seq<AppFile>) -> bool {
    let root = input == seq!['/'] || input.len() == 0;
    exists|i: int|
        0 <= i < page_paths(files).len() && ((root && #[trigger] page_paths(files)[i] == seq![
            '/',
        ]) || crate::route_match::pat_match(
            crate::route_match::pattern_spec(page_paths(files)[i]),
            segments(input),
        ))
}

pub open spec fn listing_spec(paths: Seq<Seq<char>>) -> Seq<char> {
    join(paths.map_values(|p: Seq<char>| "      - "@ + p), "\n"@)
}

/// The message for a URL no route accepts, listing the available routes.
pub open spec fn validate_error_spec(input: Seq<char>, paths: Seq<Seq<char>>) -> Seq<char> {
    "no route in `src/app/` matches \""@ + input + "\"\navailable routes:\n"@ + if paths.len() == 0 {
        "      (no `page.rs` files found under src/app/)"@
    } else {
        listing_spec(paths)
    }
}


fn validate_error_message(
    input: &str,
    patterns: &Vec<(String, Vec<crate::route_match::RouteSeg>)>,
    Ghost(paths): Ghost<Seq<Seq<char>>>,
) -> (msg: String)
    requires
        patterns@.len() == paths.len(),
        forall|j: int| 0 <= j < patterns@.len() ==> (#[trigger] patterns@[j]).0@ == paths[j],
    ensures
        msg@ == validate_error_spec(input@, paths),
{
    let mut msg = String::from_str("no route in `src/app/` matches \"");
    msg.append(input);
    msg.append("\"\navailable routes:\n");
    if patterns.len() == 0 {
        msg.append("      (no `page.rs` files found under src/app/)");
    } else {
        let mut k: usize = 0;
        let ghost items = paths.map_values(|p: Seq<char>| "      - "@ + p);
        let ghost head = msg@;
        while k < patterns.len()
            invariant
                k <= patterns.len(),
                patterns@.len() == paths.len(),
                patterns@.len() > 0,
                items == paths.map_values(|p: Seq<char>| "      - "@ + p),
                forall|j: int| 0 <= j < patterns@.len() ==> (#[trigger] patterns@[j]).0@ == paths[j],
                msg@ == head + join(items.subrange(0, k as int), "\n"@),
            decreases patterns.len() - k,
        {
            let ghost sub = items.subrange(0, k as int + 1);
            assert(sub.drop_last() =~= items.subrange(0, k as int));
            assert(sub.last() == "      - "@ + patterns@[k as int].0@);
            if k > 0 {
                msg.append("\n");
            }
            msg.append("      - ");
            msg.append(patterns[k].0.as_str());
            assert(msg@ =~= head + join(sub, "\n"@));
            k = k + 1;
        }
        assert(items.subrange(0, patterns.len() as int) =~= items);
    }
    msg
}

/// Validates a concrete URL literal against the page routes of `files`,
/// returning a message listing the available routes on failure.
pub fn validate_route_literal(input: &str, files: &Vec<AppFile>) -> (r: Result<(), String>)
    ensures
        match r {
            Ok(()) => route_accepts(input@, files@),
            Err(msg) => !route_accepts(input@, files@) && msg@ == validate_error_spec(
                input@,
                page_paths(files@),
            ),
        },
{
    let patterns = discover_route_patterns(files);
    let ic = chars_of(input);
    let input_segs = path_segments(&ic);
    let root_matches = (ic.len() == 1 && ic[0] == '/') || ic.len() == 0;
    assert(root_matches == (input@ == seq!['/'] || input@.len() == 0)) by {
        if input@ == seq!['/'] {
            assert(input@[0] == '/');
        }
        if ic.len() == 1 && ic[0] == '/' {
            assert(input@ =~= seq!['/']);
        }
    }
    let ghost paths = page_paths(files@);
    let mut i: usize = 0;
    while i < patterns.len()
        invariant
            i <= patterns.len(),
            patterns@.len() == paths.len(),
            paths == page_paths(files@),
            views(input_segs@) == segments(input@),
            root_matches == (input@ == seq!['/'] || input@.len() == 0),
            forall|k: int|
                0 <= k < patterns@.len() ==> (#[trigger] patterns@[k]).0@ == paths[k]
                    && crate::route_match::pat_views(patterns@[k].1@)
                    == crate::route_match::pattern_spec(paths[k]),
            forall|k: int|
                0 <= k < i ==> !((root_matches && #[trigger] paths[k] == seq!['/'])
                    || crate::route_match::pat_match(
                    crate::route_match::pattern_spec(paths[k]),
                    segments(input@),
                )),
        decreases patterns.len() - i,
    {
        let pc = chars_of(patterns[i].0.as_str());
        let is_root = pc.len() == 1 && pc[0] == '/';
        assert(is_root == (paths[i as int] == seq!['/'])) by {
            if paths[i as int] == seq!['/'] {
                assert(pc@[0] == '/');
            }
            if is_root {
                assert(pc@ =~= seq!['/']);
            }
        }
        if root_matches && is_root {
            return Ok(());
        }
        if crate::route_match::pattern_matches(&patterns[i].1, &input_segs) {
            return Ok(());
        }
        i = i + 1;
    }
    let msg = validate_error_message(input, &patterns, Ghost(paths));
    Err(msg)
}


/// Module name of an `src/app/` file (see `module_ident`).
pub open spec fn module_spec(rel: Seq<char>) -> Seq<char> {
    sanitize_spec(stem_spec(rel))
}

pub open spec fn modules_of(rels: Seq<Seq<char>>) -> Seq<Seq<char>> {
    rels.map_values(|r: Seq<char>| module_spec(r))
}

pub open spec fn opt_module(o: Option<Seq<char>>) -> Option<Seq<char>> {
    match o {
        Some(r) => Some(module_spec(r)),
        None => None,
    }
}

pub open spec fn opt_view(o: Option<String>) -> Option<Seq<char>> {
    match o {
        Some(s) => Some(s@),
        None => None,
    }
}

pub open spec fn render_suffix() -> Seq<char> {
    seq!['_', '_', 'r', 'e', 'n', 'd', 'e', 'r']
}

/// One generated route of `velo::app!`.
pub struct RoutePlan {
    /// The route path (`/**` for the not-found page).
    pub path: String,
    /// Module holding the page (or not-found) file.
    pub module: String,
    /// Name of the generated render function, `<module>__render`.
    pub render_fn: String,
    /// Modules of the layout chain, nearest first.
    pub layouts: Vec<String>,
    /// Module of the nearest `error.rs` (pages only).
    pub error_module: Option<String>,
    /// Module of the nearest `loading.rs` (pages only).
    pub loading_module: Option<String>,
    /// `true` for the route of a `not-found.rs` file.
    pub is_not_found: bool,
}

/// What `velo::app!` generates for an `src/app/` tree.
pub struct AppPlan {
    /// `(module name, relative path)` of every file, in file order.
    pub modules: Vec<(String, String)>,
    /// Routes: every page in file order, then every not-found file.
    pub routes: Vec<RoutePlan>,
    /// One typed `paths` entry per page, in page order.
    pub helpers: Vec<PathHelper>,
}

/// Why `velo::app!` cannot generate routes.
#[derive(PartialEq, Eq, Structural, Clone, Copy, Debug)]
pub enum AppPlanError {
    /// No `page.rs` files under `src/app/`.
    NoPages,
}

pub open spec fn error_rs() -> Seq<char> {
    seq!['e', 'r', 'r', 'o', 'r', '.', 'r', 's']
}

pub open spec fn loading_rs() -> Seq<char> {
    seq!['l', 'o', 'a', 'd', 'i', 'n', 'g', '.', 'r', 's']
}

/// The route of page file `rel`.
pub open spec fn page_plan_ok(p: RoutePlan, rel: Seq<char>, files: Seq<AppFile>) -> bool {
    &&& p.path@ == route_data_spec(rel).path
    &&& p.module@ == module_spec(rel)
    &&& p.render_fn@ == module_spec(rel) + render_suffix()
    &&& string_views(p.layouts@) == modules_of(layout_chain_spec(rel, files))
    &&& opt_view(p.error_module) == opt_module(find_segment_file_spec(rel, files, error_rs()))
    &&& opt_view(p.loading_module) == opt_module(find_segment_file_spec(rel, files, loading_rs()))
    &&& !p.is_not_found
}

/// The route of not-found file `rel`.
pub open spec fn not_found_plan_ok(p: RoutePlan, rel: Seq<char>, files: Seq<AppFile>) -> bool {
    &&& p.path@ == crate::route_match::slash_double_star()
    &&& p.module@ == module_spec(rel)
    &&& p.render_fn@ == module_spec(rel) + render_suffix()
    &&& string_views(p.layouts@) == modules_of(layout_chain_spec(rel, files))
    &&& p.error_module is None
    &&& p.loading_module is None
    &&& p.is_not_found
}

/// The not-found files among `files`, in order.
pub open spec fn not_founds(files: Seq<AppFile>) -> Seq<AppFile>
    decreases files.len(),
{
    if files.len() == 0 {
        Seq::empty()
    } else if files.last().kind == AppFileKind::NotFound {
        not_founds(files.drop_last()).push(files.last())
    } else {
        not_founds(files.drop_last())
    }
}

fn module_chars(rel: &Vec<char>) -> (r: Vec<char>)
    ensures
        r@ == module_spec(rel@),
{
    let stem = stem_chars(rel);
    sanitize_chars(&stem)
}

fn modules_of_strings(rels: &Vec<String>) -> (r: Vec<String>)
    ensures
        string_views(r@) == modules_of(string_views(rels@)),
{
    let mut out: Vec<String> = Vec::new();
    let mut i: usize = 0;
    while i < rels.len()
        invariant
            i <= rels.len(),
            string_views(out@) == modules_of(string_views(rels@).subrange(0, i as int)),
        decreases rels.len() - i,
    {
        let m = module_chars(&chars_of(rels[i].as_str()));
        let ghost before = out@;
        out.push(string_of(&m));
        assert(string_views(out@) =~= string_views(before).push(module_spec(rels@[i as int]@)));
        assert(string_views(out@) =~= modules_of(string_views(rels@).subrange(0, i as int + 1)));
        i = i + 1;
    }
    assert(string_views(rels@).subrange(0, rels.len() as int) =~= string_views(rels@));
    out
}

fn opt_module_exec(o: Option<String>) -> (r: Option<String>)
    ensures
        opt_view(r) == opt_module(opt_view(o)),
{
    match o {
        Some(s) => {
            let m = module_chars(&chars_of(s.as_str()));
            Some(string_of(&m))
        },
        None => None,
    }
}

fn route_plan_for(rel: &String, files: &Vec<AppFile>, not_found: bool) -> (p: RoutePlan)
    ensures
        not_found ==> not_found_plan_ok(p, rel@, files@),
        !not_found ==> page_plan_ok(p, rel@, files@),
{
    let rc = chars_of(rel.as_str());
    let module = module_chars(&rc);
    let suffix = vec!['_', '_', 'r', 'e', 'n', 'd', 'e', 'r'];
    assert(suffix@ =~= render_suffix());
    let render = concat_chars(&module, &suffix);
    let chain = layout_chain(rel.as_str(), files);
    let layouts = modules_of_strings(&chain);
    if not_found {
        let path = vec!['/', '*', '*'];
        assert(path@ =~= crate::route_match::slash_double_star());
        RoutePlan {
            path: string_of(&path),
            module: string_of(&module),
            render_fn: string_of(&render),
            layouts,
            error_module: None,
            loading_module: None,
            is_not_found: true,
        }
    } else {
        let data = route_data(rel.as_str());
        let err = find_segment_file(rel.as_str(), files, "error.rs");
        let load = find_segment_file(rel.as_str(), files, "loading.rs");
        proof {
            reveal_strlit("error.rs");
            reveal_strlit("loading.rs");
            assert("error.rs"@ =~= error_rs());
            assert("loading.rs"@ =~= loading_rs());
        }
        RoutePlan {
            path: data.path,
            module: string_of(&module),
            render_fn: string_of(&render),
            layouts,
            error_module: opt_module_exec(err),
            loading_module: opt_module_exec(load),
            is_not_found: false,
        }
    }
}

/// Plans the output of `velo::app!` for the files under `src/app/`: one
/// module per file, a route per page (path, layout chain, nearest
/// `error.rs` / `loading.rs`) followed by a `/**` route per `not-found.rs`,
/// and a typed `paths` entry per page. Fails when there is no page.
pub fn plan_app(files: &Vec<AppFile>) -> (r: Result<AppPlan, AppPlanError>)
    ensures
        match r {
            Err(e) => e == AppPlanError::NoPages && pages(files@).len() == 0,
            Ok(plan) => {
                &&& pages(files@).len() > 0
                &&& plan.modules@.len() == files@.len()
                &&& forall|i: int|
                    0 <= i < files@.len() ==> (#[trigger] plan.modules@[i]).0@ == module_spec(
                        files@[i].rel@,
                    ) && plan.modules@[i].1@ == files@[i].rel@
                &&& plan.routes@.len() == pages(files@).len() + not_founds(files@).len()
                &&& forall|i: int|
                    0 <= i < pages(files@).len() ==> page_plan_ok(
                        #[trigger] plan.routes@[i],
                        pages(files@)[i].rel@,
                        files@,
                    )
                &&& forall|i: int|
                    0 <= i < not_founds(files@).len() ==> not_found_plan_ok(
                        #[trigger] plan.routes@[pages(files@).len() + i],
                        not_founds(files@)[i].rel@,
                        files@,
                    )
                &&& plan.helpers@.len() == pages(files@).len()
                &&& forall|i: int|
                    0 <= i < pages(files@).len() ==> helper_ok(
                        #[trigger] plan.helpers@[i],
                        route_data_spec(pages(files@)[i].rel@),
                    )
            },
        },
{
    let mut modules: Vec<(String, String)> = Vec::new();
    let mut routes: Vec<RoutePlan> = Vec::new();
    let mut helpers: Vec<PathHelper> = Vec::new();
    let mut i: usize = 0;
    while i < files.len()
        invariant
            i <= files.len(),
            modules@.len() == i,
            forall|k: int|
                0 <= k < i ==> (#[trigger] modules@[k]).0@ == module_spec(files@[k].rel@)
                    && modules@[k].1@ == files@[k].rel@,
            routes@.len() == pages(files@.subrange(0, i as int)).len(),
            helpers@.len() == pages(files@.subrange(0, i as int)).len(),
            forall|k: int|
                0 <= k < routes@.len() ==> page_plan_ok(
                    #[trigger] routes@[k],
                    pages(files@.subrange(0, i as int))[k].rel@,
                    files@,
                ),
            forall|k: int|
                0 <= k < helpers@.len() ==> helper_ok(
                    #[trigger] helpers@[k],
                    route_data_spec(pages(files@.subrange(0, i as int))[k].rel@),
                ),
        decreases files.len() - i,
    {
        let ghost sub = files@.subrange(0, i as int + 1);
        assert(sub.drop_last() =~= files@.subrange(0, i as int));
        assert(sub.last() == files@[i as int]);
        let rc = chars_of(files[i].rel.as_str());
        let m = module_chars(&rc);
        modules.push((string_of(&m), string_of(&rc)));
        if files[i].kind == AppFileKind::Page {
            let plan = route_plan_for(&files[i].rel, files, false);
            routes.push(plan);
            let data = route_data(files[i].rel.as_str());
            helpers.push(path_helper(&data));
            assert(pages(sub) == pages(files@.subrange(0, i as int)).push(files@[i as int]));
        } else {
            assert(pages(sub) == pages(files@.subrange(0, i as int)));
        }
        i = i + 1;
    }
    assert(files@.subrange(0, files.len() as int) =~= files@);
    if routes.len() == 0 {
        return Err(AppPlanError::NoPages);
    }
    let ghost npages = routes@.len();
    let mut j: usize = 0;
    while j < files.len()
        invariant
            j <= files.len(),
            npages == pages(files@).len(),
            routes@.len() == npages + not_founds(files@.subrange(0, j as int)).len(),
            forall|k: int|
                0 <= k < npages ==> page_plan_ok(#[trigger] routes@[k], pages(files@)[k].rel@, files@),
            forall|k: int|
                0 <= k < not_founds(files@.subrange(0, j as int)).len() ==> not_found_plan_ok(
                    #[trigger] routes@[npages + k],
                    not_founds(files@.subrange(0, j as int))[k].rel@,
                    files@,
                ),
        decreases files.len() - j,
    {
        let ghost sub = files@.subrange(0, j as int + 1);
        assert(sub.drop_last() =~= files@.subrange(0, j as int));
        assert(sub.last() == files@[j as int]);
        if files[j].kind == AppFileKind::NotFound {
            let plan = route_plan_for(&files[j].rel, files, true);
            routes.push(plan);
            assert(not_founds(sub) == not_founds(files@.subrange(0, j as int)).push(files@[j as int]));
        } else {
            assert(not_founds(sub) == not_founds(files@.subrange(0, j as int)));
        }
        j = j + 1;
    }
    assert(files@.subrange(0, files.len() as int) =~= files@);
    Ok(AppPlan { modules, routes, helpers })
}

/// `h` is the typed `paths` entry of route `d` (see `path_helper`).
pub open spec fn helper_ok(h: PathHelper, d: RouteDataView) -> bool {
    &&& h.name@ == helper_name_spec(d)
    &&& h.is_const == (d.params.len() == 0)
    &&& h.path@ == d.path
    &&& string_views(h.args@) == sanitize_all(d.params)
    &&& h.fmt@ == d.fmt
}

} // verus!
