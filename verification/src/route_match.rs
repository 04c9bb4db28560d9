//! Route patterns: compile-time pattern matching of concrete URLs and the
//! runtime template matcher that extracts `:param` values.
use vstd::prelude::*;
use crate::text::{chars_eq, chars_of, copy_chars, ends_with, path_segments, segments, starts_with, slice_chars, string_of, views};

verus! {

/// One segment of a route pattern, as a mathematical value.
pub enum PatSeg {
    Lit(Seq<char>),
    Param,
    CatchAll,
}

/// A single path segment in a route pattern.
pub enum RouteSeg {
    /// Literal segment, e.g. `blog`.
    Lit(Vec<char>),
    /// Dynamic param slot (`:x` / `[x]`): matches any one segment.
    Param,
    /// Catch-all (`**` / `[...x]`): matches the remaining path.
    CatchAll,
}

impl View for RouteSeg {
    type V = PatSeg;

    open spec fn view(&self) -> PatSeg {
        match self {
            RouteSeg::Lit(v) => PatSeg::Lit(v@),
            RouteSeg::Param => PatSeg::Param,
            RouteSeg::CatchAll => PatSeg::CatchAll,
        }
    }
}

pub open spec fn pat_views(v: Seq<RouteSeg>) -> Seq<PatSeg> {
    v.map_values(|s: RouteSeg| s@)
}

pub open spec fn is_double_star(s: Seq<char>) -> bool {
    s == seq!['*', '*']
}

/// How one path segment reads as a pattern segment.
pub open spec fn classify_seg(s: Seq<char>) -> PatSeg {
    if is_double_star(s) {
        PatSeg::CatchAll
    } else if s.len() > 0 && s[0] == ':' {
        PatSeg::Param
    } else {
        PatSeg::Lit(s)
    }
}

/// The pattern of a route path: its non-empty segments, classified.
pub open spec fn pattern_spec(path: Seq<char>) -> Seq<PatSeg> {
    segments(path).map_values(|s: Seq<char>| classify_seg(s))
}

/// Does the concrete segment list `input` match `pat`? A `Param` consumes
/// exactly one segment, a `Lit` one equal segment, and a `CatchAll` must be
/// last and consume at least one segment.
pub open spec fn pat_match(pat: Seq<PatSeg>, input: Seq<Seq<char>>) -> bool
    decreases pat.len(),
{
    if pat.len() == 0 {
        input.len() == 0
    } else {
        match pat[0] {
            PatSeg::CatchAll => pat.len() == 1 && input.len() > 0,
            PatSeg::Param => input.len() > 0 && pat_match(pat.drop_first(), input.drop_first()),
            PatSeg::Lit(l) => input.len() > 0 && input[0] == l && pat_match(
                pat.drop_first(),
                input.drop_first(),
            ),
        }
    }
}

fn is_double_star_exec(s: &Vec<char>) -> (r: bool)
    ensures
        r == is_double_star(s@),
{
    let r = s.len() == 2 && s[0] == '*' && s[1] == '*';
    assert(r ==> s@ =~= seq!['*', '*']);
    r
}

fn classify_seg_exec(s: &Vec<char>) -> (r: RouteSeg)
    ensures
        r@ == classify_seg(s@),
{
    if is_double_star_exec(s) {
        RouteSeg::CatchAll
    } else if s.len() > 0 && s[0] == ':' {
        RouteSeg::Param
    } else {
        RouteSeg::Lit(copy_chars(s))
    }
}

/// Turns a route path string into the segment list that `<Link to>`
/// validation matches concrete URLs against.
pub fn route_pattern(path: &str) -> (r: Vec<RouteSeg>)
    ensures
        pat_views(r@) == pattern_spec(path@),
{
    let chars = chars_of(path);
    let segs = path_segments(&chars);
    let mut out: Vec<RouteSeg> = Vec::new();
    let mut i: usize = 0;
    while i < segs.len()
        invariant
            i <= segs.len(),
            views(segs@) == segments(path@),
            pat_views(out@) == views(segs@).subrange(0, i as int).map_values(
                |s: Seq<char>| classify_seg(s),
            ),
        decreases segs.len() - i,
    {
        let seg = classify_seg_exec(&segs[i]);
        let ghost before = out@;
        out.push(seg);
        assert(views(segs@)[i as int] == segs@[i as int]@);
        assert(pat_views(out@) =~= pat_views(before).push(classify_seg(segs@[i as int]@)));
        assert(pat_views(out@) =~= views(segs@).subrange(0, i as int + 1).map_values(
            |s: Seq<char>| classify_seg(s),
        ));
        i = i + 1;
    }
    assert(views(segs@).subrange(0, segs.len() as int) =~= views(segs@));
    out
}

proof fn lemma_pat_match_skip(pat: Seq<PatSeg>, input: Seq<Seq<char>>, k: int)
    requires
        0 <= k <= pat.len(),
        k <= input.len(),
        forall|j: int| 0 <= j < k ==> !(pat[j] is CatchAll),
        forall|j: int|
            0 <= j < k ==> (#[trigger] pat[j] matches PatSeg::Lit(l) ==> input[j] == l),
    ensures
        pat_match(pat, input) == pat_match(pat.skip(k), input.skip(k)),
    decreases k,
{
    if k > 0 {
        assert(pat.drop_first().skip(k - 1) =~= pat.skip(k));
        assert(input.drop_first().skip(k - 1) =~= input.skip(k));
        assert forall|j: int| 0 <= j < k - 1 implies !(pat.drop_first()[j] is CatchAll) by {
            assert(pat.drop_first()[j] == pat[j + 1]);
        }
        assert forall|j: int| 0 <= j < k - 1 implies (#[trigger] pat.drop_first()[j] matches PatSeg::Lit(l)
            ==> input.drop_first()[j] == l) by {
            assert(pat.drop_first()[j] == pat[j + 1]);
        }
        lemma_pat_match_skip(pat.drop_first(), input.drop_first(), k - 1);
    } else {
        assert(pat.skip(0) =~= pat);
        assert(input.skip(0) =~= input);
    }
}

/// Does concrete URL segment list `input` match this route pattern?
pub fn pattern_matches(pat: &Vec<RouteSeg>, input: &Vec<Vec<char>>) -> (r: bool)
    ensures
        r == pat_match(pat_views(pat@), views(input@)),
{
    let ghost p = pat_views(pat@);
    let ghost u = views(input@);
    let mut i: usize = 0;
    let mut pos: usize = 0;
    while pos < pat.len()
        invariant
            pos <= pat.len(),
            i == pos,
            i <= input.len(),
            p == pat_views(pat@),
            u == views(input@),
            forall|j: int| 0 <= j < pos ==> !(p[j] is CatchAll),
            forall|j: int| 0 <= j < pos ==> (#[trigger] p[j] matches PatSeg::Lit(l) ==> u[j] == l),
        decreases pat.len() - pos,
    {
        proof {
            lemma_pat_match_skip(p, u, pos as int);
            assert(p.skip(pos as int)[0] == p[pos as int]);
            assert(p.skip(pos as int).drop_first() =~= p.skip(pos + 1));
            if pos < u.len() {
                assert(u.skip(pos as int).drop_first() =~= u.skip(pos + 1));
                assert(u.skip(pos as int)[0] == u[pos as int]);
            }
        }
        match &pat[pos] {
            RouteSeg::CatchAll => {
                return pos + 1 == pat.len() && i < input.len();
            },
            RouteSeg::Param => {
                if i >= input.len() {
                    return false;
                }
                i = i + 1;
            },
            RouteSeg::Lit(lit) => {
                if i >= input.len() {
                    return false;
                }
                if !chars_eq(&input[i], lit) {
                    assert(u.skip(pos as int)[0] == u[pos as int]);
                    return false;
                }
                i = i + 1;
            },
        }
        pos = pos + 1;
        proof {
            lemma_pat_match_skip(p, u, pos as int);
        }
    }
    proof {
        lemma_pat_match_skip(p, u, pos as int);
    }
    i == input.len()
}


/// The parameters bound by a route match: a string-keyed map in which a later
/// binding of a key replaces an earlier one.
pub struct ParamMap {
    entries: Vec<(String, String)>,
}

pub open spec fn entries_map(e: Seq<(String, String)>) -> Map<Seq<char>, Seq<char>>
    decreases e.len(),
{
    if e.len() == 0 {
        Map::empty()
    } else {
        entries_map(e.drop_last()).insert(e.last().0@, e.last().1@)
    }
}

impl View for ParamMap {
    type V = Map<Seq<char>, Seq<char>>;

    closed spec fn view(&self) -> Map<Seq<char>, Seq<char>> {
        entries_map(self.entries@)
    }
}

proof fn lemma_entries_map_prefix(e: Seq<(String, String)>, j: int, k: Seq<char>)
    requires
        0 <= j <= e.len(),
        forall|x: int| j <= x < e.len() ==> (#[trigger] e[x]).0@ != k,
    ensures
        entries_map(e).contains_key(k) == entries_map(e.subrange(0, j)).contains_key(k),
        entries_map(e)[k] == entries_map(e.subrange(0, j))[k],
    decreases e.len() - j,
{
    if j < e.len() {
        assert(e.drop_last().subrange(0, j) =~= e.subrange(0, j));
        lemma_entries_map_prefix(e.drop_last(), j, k);
        assert(e.last() == e[e.len() - 1]);
    } else {
        assert(e.subrange(0, j) =~= e);
    }
}

impl ParamMap {
    /// An empty parameter map.
    pub fn new() -> (r: ParamMap)
        ensures
            r@ == Map::<Seq<char>, Seq<char>>::empty(),
    {
        ParamMap { entries: Vec::new() }
    }

    /// The bindings of `pairs`, made in order (a key bound again takes the
    /// later value).
    pub fn from_pairs(pairs: Vec<(String, String)>) -> (r: ParamMap)
        ensures
            r@ == entries_map(pairs@),
    {
        ParamMap { entries: pairs }
    }

    /// Binds `key` to `value`, replacing any earlier binding.
    pub fn insert(&mut self, key: String, value: String)
        ensures
            final(self)@ == old(self)@.insert(key@, value@),
    {
        let ghost before = self.entries@;
        self.entries.push((key, value));
        assert(self.entries@.drop_last() =~= before);
    }

    /// The value bound to `key`, if any.
    pub fn get(&self, key: &str) -> (r: Option<String>)
        ensures
            match r {
                Some(v) => self@.contains_key(key@) && v@ == self@[key@],
                None => !self@.contains_key(key@),
            },
    {
        let k = String::from_str(key);
        let mut j: usize = self.entries.len();
        while j > 0
            invariant
                j <= self.entries.len(),
                k@ == key@,
                forall|x: int| j <= x < self.entries@.len() ==> (#[trigger] self.entries@[x]).0@ != key@,
            decreases j,
        {
            let hit = self.entries[j - 1].0 == k;
            if hit {
                proof {
                    let e = self.entries@;
                    lemma_entries_map_prefix(e, j as int, key@);
                    assert(e.subrange(0, j as int).drop_last() =~= e.subrange(0, j - 1));
                    assert(e.subrange(0, j as int).last() == e[j - 1]);
                }
                return Some(self.entries[j - 1].1.clone());
            }
            j = j - 1;
        }
        proof {
            lemma_entries_map_prefix(self.entries@, 0, key@);
        }
        None
    }

    /// Every binding in the order it was made (later ones win).
    pub fn pairs(&self) -> (r: &Vec<(String, String)>)
        ensures
            entries_map(r@) == self@,
    {
        &self.entries
    }
}

pub open spec fn slash_double_star() -> Seq<char> {
    seq!['/', '*', '*']
}

/// What `match_route_patterns` computes from template segment `i` onwards,
/// with the parameters bound so far in `acc`.
pub open spec fn match_from(
    t: Seq<Seq<char>>,
    u: Seq<Seq<char>>,
    i: nat,
    acc: Map<Seq<char>, Seq<char>>,
) -> Option<Map<Seq<char>, Seq<char>>>
    decreases t.len() - i,
{
    if i >= t.len() {
        Some(acc)
    } else if is_double_star(t[i as int]) {
        Some(acc)
    } else if t[i as int].len() > 0 && t[i as int][0] == ':' {
        if i < u.len() {
            match_from(t, u, i + 1, acc.insert(t[i as int].drop_first(), u[i as int]))
        } else {
            None
        }
    } else if i < u.len() && u[i as int] == t[i as int] {
        match_from(t, u, i + 1, acc)
    } else {
        None
    }
}

/// The runtime route match: `/**` matches everything; otherwise the
/// segment counts must agree unless the template ends in `/**`, a `:name`
/// segment binds `name` to the URL segment at its position, `**` accepts the
/// rest, and any other segment must equal the URL segment.
pub open spec fn route_match_spec(template: Seq<char>, url: Seq<char>) -> Option<
    Map<Seq<char>, Seq<char>>,
> {
    if template == slash_double_star() {
        Some(Map::empty())
    } else {
        let t = segments(template);
        let u = segments(url);
        if !ends_with(template, slash_double_star()) && t.len() != u.len() {
            None
        } else {
            match_from(t, u, 0, Map::empty())
        }
    }
}

fn is_slash_double_star(s: &Vec<char>) -> (r: bool)
    ensures
        r == (s@ == slash_double_star()),
{
    let r = s.len() == 3 && s[0] == '/' && s[1] == '*' && s[2] == '*';
    assert(r ==> s@ =~= slash_double_star());
    r
}

fn ends_with_slash_double_star(s: &Vec<char>) -> (r: bool)
    ensures
        r == ends_with(s@, slash_double_star()),
{
    let n = s.len();
    let r = n >= 3 && s[n - 3] == '/' && s[n - 2] == '*' && s[n - 1] == '*';
    assert(r ==> s@.subrange(n - 3, n as int) =~= slash_double_star());
    assert(n >= 3 && s@.subrange(n - 3, n as int) == slash_double_star() ==> r) by {
        if n >= 3 && s@.subrange(n - 3, n as int) == slash_double_star() {
            assert(s@.subrange(n - 3, n as int)[0] == s@[n - 3]);
            assert(s@.subrange(n - 3, n as int)[1] == s@[n - 2]);
            assert(s@.subrange(n - 3, n as int)[2] == s@[n - 1]);
        }
    }
    r
}

/// Matches a route template (`/users/:id`, `/docs/**`, `/**`) against an
/// incoming URL path, returning the bound `:param` values on success.
pub fn match_route_patterns(template: &str, incoming_url: &str) -> (r: Option<ParamMap>)
    ensures
        match r {
            Some(m) => route_match_spec(template@, incoming_url@) == Some(m@),
            None => route_match_spec(template@, incoming_url@) is None,
        },
{
    let tc = chars_of(template);
    if is_slash_double_star(&tc) {
        return Some(ParamMap::new());
    }
    let uc = chars_of(incoming_url);
    let t_segments = path_segments(&tc);
    let u_segments = path_segments(&uc);
    let has_wildcard = ends_with_slash_double_star(&tc);
    if !has_wildcard && t_segments.len() != u_segments.len() {
        return None;
    }
    let ghost t = views(t_segments@);
    let ghost u = views(u_segments@);
    let mut extracted = ParamMap::new();
    let mut i: usize = 0;
    while i < t_segments.len()
        invariant
            i <= t_segments.len(),
            t == views(t_segments@),
            u == views(u_segments@),
            t == segments(template@),
            u == segments(incoming_url@),
            route_match_spec(template@, incoming_url@) == match_from(t, u, i as nat, extracted@),
        decreases t_segments.len() - i,
    {
        let seg = &t_segments[i];
        assert(t[i as int] == seg@);
        if is_double_star_exec(seg) {
            return Some(extracted);
        }
        if seg.len() > 0 && seg[0] == ':' {
            if i < u_segments.len() {
                let key_chars = slice_chars(seg, 1, seg.len());
                assert(key_chars@ =~= seg@.drop_first());
                let key = string_of(&key_chars);
                let value = string_of(&u_segments[i]);
                assert(u[i as int] == u_segments@[i as int]@);
                extracted.insert(key, value);
            } else {
                return None;
            }
        } else {
            if i < u_segments.len() && chars_eq(&u_segments[i], seg) {
                assert(u[i as int] == u_segments@[i as int]@);
            } else {
                proof {
                    if i < u_segments.len() {
                        assert(u[i as int] == u_segments@[i as int]@);
                    }
                }
                return None;
            }
        }
        i = i + 1;
    }
    Some(extracted)
}

/// Boundary-safe active-route test for `<Link active_class>`: `/` is active
/// only on the exact root; any other `to` is active on `to` itself and on
/// its descendants (`to` followed by `/`).
pub open spec fn path_active(current: Seq<char>, to: Seq<char>) -> bool {
    if to == seq!['/'] {
        current == seq!['/']
    } else if current == to {
        true
    } else {
        let prefix = if to.len() > 0 && to.last() == '/' {
            to
        } else {
            to.push('/')
        };
        starts_with(current, prefix)
    }
}

pub fn is_path_active(current: &str, to: &str) -> (r: bool)
    ensures
        r == path_active(current@, to@),
{
    let cur = chars_of(current);
    let target = chars_of(to);
    if target.len() == 1 && target[0] == '/' {
        assert(target@ =~= seq!['/']);
        let r = cur.len() == 1 && cur[0] == '/';
        assert(r ==> cur@ =~= seq!['/']);
        return r;
    }
    assert(target@ != seq!['/']) by {
        if target@ == seq!['/'] {
            assert(target@.len() == 1 && target@[0] == '/');
        }
    }
    if chars_eq(&cur, &target) {
        return true;
    }
    let mut prefix = copy_chars(&target);
    if !(target.len() > 0 && target[target.len() - 1] == '/') {
        prefix.push('/');
    }
    crate::text::has_prefix(&cur, &prefix)
}

/// A link is active exactly on its own path and below it: for a target
/// `to` other than `/` and not ending in `/`, every path `to/...` is active,
/// while a path that continues `to` with any other character (`/blogxyz`
/// for `/blog`) is not.
pub proof fn lemma_active_link_boundary(to: Seq<char>, rest: Seq<char>, c: char)
    requires
        to.len() > 0,
        to != seq!['/'],
        to.last() != '/',
        c != '/',
    ensures
        path_active(to, to),
        path_active(to + seq!['/'] + rest, to),
        !path_active(to + seq![c] + rest, to),
{
    let p = to.push('/');
    assert((to + seq!['/'] + rest).subrange(0, p.len() as int) =~= p);
    let bad = to + seq![c] + rest;
    assert(bad != to) by {
        assert(bad.len() > to.len());
    }
    if starts_with(bad, p) {
        assert(bad.subrange(0, p.len() as int)[to.len() as int] == bad[to.len() as int]);
        assert(p[to.len() as int] == '/');
    }
}

/// The first route (in table order) whose template matches `current`,
/// together with the parameters it binds.
pub open spec fn first_match(paths: Seq<String>, current: Seq<char>, i: int) -> bool {
    0 <= i < paths.len() && route_match_spec(paths[i]@, current) is Some && forall|j: int|
        0 <= j < i ==> route_match_spec(#[trigger] paths[j]@, current) is None
}

/// Picks the route the router shows for `current`: the first template in
/// `paths` that matches, with its bound parameters; `None` when no route
/// matches (the router then shows its not-found page).
pub fn select_route(paths: &Vec<String>, current: &str) -> (r: Option<(usize, ParamMap)>)
    ensures
        match r {
            Some((i, m)) => first_match(paths@, current@, i as int) && route_match_spec(
                paths@[i as int]@,
                current@,
            ) == Some(m@),
            None => forall|j: int|
                0 <= j < paths@.len() ==> route_match_spec(#[trigger] paths@[j]@, current@) is None,
        },
{
    let mut i: usize = 0;
    while i < paths.len()
        invariant
            i <= paths.len(),
            forall|j: int| 0 <= j < i ==> route_match_spec(#[trigger] paths@[j]@, current@) is None,
        decreases paths.len() - i,
    {
        match match_route_patterns(paths[i].as_str(), current) {
            Some(m) => {
                return Some((i, m));
            },
            None => {},
        }
        i = i + 1;
    }
    None
}


proof fn lemma_pat_match_shape(pats: Seq<PatSeg>, input: Seq<Seq<char>>)
    requires
        pat_match(pats, input),
    ensures
        pats.len() == input.len() || (pats.len() > 0 && pats.last() is CatchAll),
    decreases pats.len(),
{
    if pats.len() > 0 {
        match pats[0] {
            PatSeg::CatchAll => {},
            _ => {
                lemma_pat_match_shape(pats.drop_first(), input.drop_first());
                if pats.drop_first().len() > 0 {
                    assert(pats.drop_first().last() == pats.last());
                }
            },
        }
    }
}

proof fn lemma_match_from_some(
    t: Seq<Seq<char>>,
    u: Seq<Seq<char>>,
    i: nat,
    acc: Map<Seq<char>, Seq<char>>,
)
    requires
        i <= t.len(),
        i <= u.len(),
        pat_match(
            t.map_values(|s: Seq<char>| classify_seg(s)).skip(i as int),
            u.skip(i as int),
        ),
    ensures
        match_from(t, u, i, acc) is Some,
    decreases t.len() - i,
{
    let pats = t.map_values(|s: Seq<char>| classify_seg(s));
    if i < t.len() {
        assert(pats.skip(i as int)[0] == classify_seg(t[i as int]));
        assert(pats.skip(i as int).drop_first() =~= pats.skip(i as int + 1));
        if !is_double_star(t[i as int]) {
            assert(u.skip(i as int).len() > 0);
            assert(u.skip(i as int)[0] == u[i as int]);
            assert(u.skip(i as int).drop_first() =~= u.skip(i as int + 1));
            if t[i as int].len() > 0 && t[i as int][0] == ':' {
                lemma_match_from_some(t, u, i + 1, acc.insert(t[i as int].drop_first(), u[i as int]));
            } else {
                lemma_match_from_some(t, u, i + 1, acc);
            }
        }
    }
}

/// A URL accepted by the compile-time route check is also resolved by the
/// runtime router: whenever `url` matches the pattern of route `path`, the
/// router's template match of `path` against `url` succeeds. (`path` must end
/// in `/**` when its last segment is `**`, as every path of a catch-all page
/// does; a template like `/a/**/` is matched differently at run time.)
pub proof fn lemma_validated_route_resolves(path: Seq<char>, url: Seq<char>)
    requires
        pat_match(pattern_spec(path), segments(url)),
        segments(path).len() > 0 && is_double_star(segments(path).last()) ==> ends_with(
            path,
            slash_double_star(),
        ),
    ensures
        route_match_spec(path, url) is Some,
{
    if path != slash_double_star() {
        let t = segments(path);
        let u = segments(url);
        let pats = t.map_values(|s: Seq<char>| classify_seg(s));
        lemma_pat_match_shape(pats, u);
        if pats.len() > 0 && pats.last() is CatchAll {
            assert(pats.last() == classify_seg(t.last()));
        }
        assert(pats.skip(0) =~= pats);
        assert(u.skip(0) =~= u);
        lemma_pat_match_shape(pats, u);
        if t.len() <= u.len() {
            lemma_match_from_some(t, u, 0, Map::empty());
        } else {
            // a trailing catch-all needs at least one URL segment, so the
            // pattern can only be longer than the URL when it is not matched
            lemma_pat_match_len(pats, u);
        }
    }
}

proof fn lemma_pat_match_len(pats: Seq<PatSeg>, input: Seq<Seq<char>>)
    requires
        pat_match(pats, input),
    ensures
        pats.len() <= input.len(),
    decreases pats.len(),
{
    if pats.len() > 0 {
        match pats[0] {
            PatSeg::CatchAll => {},
            _ => {
                lemma_pat_match_len(pats.drop_first(), input.drop_first());
            },
        }
    }
}

/// A template segment that is neither `:name` nor `**`.
pub open spec fn literal_seg(s: Seq<char>) -> bool {
    !is_double_star(s) && !(s.len() > 0 && s[0] == ':')
}

proof fn lemma_match_from_literals(
    t: Seq<Seq<char>>,
    u: Seq<Seq<char>>,
    i: nat,
    acc: Map<Seq<char>, Seq<char>>,
    k: int,
)
    requires
        match_from(t, u, i, acc) is Some,
        i <= k < t.len(),
        forall|j: int| i <= j <= k ==> !is_double_star(#[trigger] t[j]),
    ensures
        k < u.len(),
        literal_seg(t[k]) ==> u[k] == t[k],
    decreases t.len() - i,
{
    if i < k {
        if t[i as int].len() > 0 && t[i as int][0] == ':' {
            lemma_match_from_literals(t, u, i + 1, acc.insert(t[i as int].drop_first(), u[i as int]), k);
        } else {
            lemma_match_from_literals(t, u, i + 1, acc, k);
        }
    }
}

/// A runtime match reads the URL as the template says: when the template
/// (other than `/**`) matches, every template segment before its first
/// `**` has a URL segment at its position, and every literal one equals
/// that URL segment. Without a `**`, the URL has exactly as many segments
/// as the template.
pub proof fn lemma_route_match_literals(template: Seq<char>, url: Seq<char>, k: int)
    requires
        route_match_spec(template, url) is Some,
        template != slash_double_star(),
        0 <= k < segments(template).len(),
        forall|j: int| 0 <= j <= k ==> !is_double_star(#[trigger] segments(template)[j]),
    ensures
        k < segments(url).len(),
        literal_seg(segments(template)[k]) ==> segments(url)[k] == segments(template)[k],
        !ends_with(template, slash_double_star()) ==> segments(url).len() == segments(template).len(),
{
    lemma_match_from_literals(segments(template), segments(url), 0, Map::empty(), k);
}

/// Template segment `j` is `:name`.
pub open spec fn binds(t: Seq<Seq<char>>, j: int, name: Seq<char>) -> bool {
    t[j].len() > 0 && t[j][0] == ':' && t[j].drop_first() == name
}

proof fn lemma_match_from_keeps(
    t: Seq<Seq<char>>,
    u: Seq<Seq<char>>,
    i: nat,
    acc: Map<Seq<char>, Seq<char>>,
    name: Seq<char>,
)
    requires
        match_from(t, u, i, acc) is Some,
        acc.contains_key(name),
        forall|j: int| i <= j < t.len() ==> !binds(t, j, name),
    ensures
        match_from(t, u, i, acc)->0.contains_key(name),
        match_from(t, u, i, acc)->0[name] == acc[name],
    decreases t.len() - i,
{
    if i < t.len() && !is_double_star(t[i as int]) {
        if t[i as int].len() > 0 && t[i as int][0] == ':' {
            assert(!binds(t, i as int, name));
            lemma_match_from_keeps(t, u, i + 1, acc.insert(t[i as int].drop_first(), u[i as int]), name);
        } else {
            lemma_match_from_keeps(t, u, i + 1, acc, name);
        }
    }
}

proof fn lemma_match_from_binds(
    t: Seq<Seq<char>>,
    u: Seq<Seq<char>>,
    i: nat,
    acc: Map<Seq<char>, Seq<char>>,
    k: int,
    name: Seq<char>,
)
    requires
        match_from(t, u, i, acc) is Some,
        i <= k < t.len(),
        forall|j: int| i <= j <= k ==> !is_double_star(#[trigger] t[j]),
        binds(t, k, name),
        forall|j: int| k < j < t.len() ==> !binds(t, j, name),
    ensures
        k < u.len(),
        match_from(t, u, i, acc)->0.contains_key(name),
        match_from(t, u, i, acc)->0[name] == u[k],
    decreases t.len() - i,
{
    if i < k {
        if t[i as int].len() > 0 && t[i as int][0] == ':' {
            lemma_match_from_binds(t, u, i + 1, acc.insert(t[i as int].drop_first(), u[i as int]), k, name);
        } else {
            lemma_match_from_binds(t, u, i + 1, acc, k, name);
        }
    } else {
        lemma_match_from_literals(t, u, i, acc, k);
        lemma_match_from_keeps(t, u, i + 1, acc.insert(name, u[k]), name);
    }
}

/// A runtime match binds each `:name` of the template (before its first
/// `**`) to the URL segment at that segment's position, a later `:name` of
/// the same name taking precedence.
pub proof fn lemma_route_match_binds(template: Seq<char>, url: Seq<char>, k: int, name: Seq<char>)
    requires
        route_match_spec(template, url) is Some,
        template != slash_double_star(),
        0 <= k < segments(template).len(),
        forall|j: int| 0 <= j <= k ==> !is_double_star(#[trigger] segments(template)[j]),
        binds(segments(template), k, name),
        forall|j: int| k < j < segments(template).len() ==> !binds(segments(template), j, name),
    ensures
        k < segments(url).len(),
        route_match_spec(template, url)->0.contains_key(name),
        route_match_spec(template, url)->0[name] == segments(url)[k],
{
    lemma_match_from_binds(segments(template), segments(url), 0, Map::empty(), k, name);
}

proof fn lemma_match_from_keys(
    t: Seq<Seq<char>>,
    u: Seq<Seq<char>>,
    i: nat,
    acc: Map<Seq<char>, Seq<char>>,
    key: Seq<char>,
)
    requires
        match_from(t, u, i, acc) is Some,
        match_from(t, u, i, acc)->0.contains_key(key),
    ensures
        acc.contains_key(key) || exists|j: int| i <= j < t.len() && binds(t, j, key),
    decreases t.len() - i,
{
    if i < t.len() && !is_double_star(t[i as int]) {
        if t[i as int].len() > 0 && t[i as int][0] == ':' {
            let acc2 = acc.insert(t[i as int].drop_first(), u[i as int]);
            lemma_match_from_keys(t, u, i + 1, acc2, key);
            if acc2.contains_key(key) && !acc.contains_key(key) {
                assert(binds(t, i as int, key));
            }
        } else {
            lemma_match_from_keys(t, u, i + 1, acc, key);
        }
    }
}

/// A runtime match binds nothing but the template's `:name` segments: every
/// key of the result is the name of one of them.
pub proof fn lemma_route_match_keys(template: Seq<char>, url: Seq<char>, key: Seq<char>)
    requires
        route_match_spec(template, url) is Some,
        route_match_spec(template, url)->0.contains_key(key),
    ensures
        exists|j: int| 0 <= j < segments(template).len() && binds(segments(template), j, key),
{
    if template != slash_double_star() {
        lemma_match_from_keys(segments(template), segments(url), 0, Map::empty(), key);
    }
}

} // verus!
