//! The grammar of a `routes!` table: `"path" => Component` entries separated
//! by commas, with an optional trailing comma.
use vstd::prelude::*;

verus! {

/// One token of a route table.
#[derive(Debug, PartialEq, Eq)]
pub enum RouteListTok {
    /// The value of a string literal.
    Str(String),
    /// `=>`.
    FatArrow,
    /// An identifier.
    Ident(String),
    /// `,`.
    Comma,
    /// Any other token.
    Other,
}

pub enum RTokV {
    Str(Seq<char>),
    FatArrow,
    Ident(Seq<char>),
    Comma,
    Other,
}

pub open spec fn rtok_view(t: RouteListTok) -> RTokV {
    match t {
        RouteListTok::Str(s) => RTokV::Str(s@),
        RouteListTok::FatArrow => RTokV::FatArrow,
        RouteListTok::Ident(s) => RTokV::Ident(s@),
        RouteListTok::Comma => RTokV::Comma,
        RouteListTok::Other => RTokV::Other,
    }
}

pub open spec fn rtoks_view(ts: Seq<RouteListTok>) -> Seq<RTokV> {
    ts.map_values(|t: RouteListTok| rtok_view(t))
}

pub open spec fn entry_views(es: Seq<(String, String)>) -> Seq<(Seq<char>, Seq<char>)> {
    es.map_values(|e: (String, String)| (e.0@, e.1@))
}

/// Every entry written as `"path" => Component ,`.
pub open spec fn list_toks(es: Seq<(Seq<char>, Seq<char>)>) -> Seq<RTokV>
    decreases es.len(),
{
    if es.len() == 0 {
        Seq::empty()
    } else {
        list_toks(es.drop_last()) + seq![
            RTokV::Str(es.last().0),
            RTokV::FatArrow,
            RTokV::Ident(es.last().1),
            RTokV::Comma,
        ]
    }
}

/// The kind of token that may stand at position `j` of a table: a path,
/// `=>`, a component, then the comma before the next entry.
pub open spec fn kind_ok(j: int, t: RTokV) -> bool {
    let m = j % 4;
    if m == 0 {
        t is Str
    } else if m == 1 {
        t is FatArrow
    } else if m == 2 {
        t is Ident
    } else {
        t is Comma
    }
}

/// `tv` writes the table `es`: its entries with a comma after each, the
/// last comma optional.
pub open spec fn route_list_of(tv: Seq<RTokV>, es: Seq<(Seq<char>, Seq<char>)>) -> bool {
    tv == list_toks(es) || (es.len() > 0 && tv == list_toks(es).drop_last())
}

proof fn lemma_list_toks_len(es: Seq<(Seq<char>, Seq<char>)>)
    ensures
        list_toks(es).len() == 4 * es.len(),
    decreases es.len(),
{
    if es.len() > 0 {
        lemma_list_toks_len(es.drop_last());
    }
}

/// Where the tokens of entry `k` of `es` stand.
proof fn lemma_list_toks_at(es: Seq<(Seq<char>, Seq<char>)>, k: int)
    requires
        0 <= k < es.len(),
    ensures
        list_toks(es).len() == 4 * es.len(),
        list_toks(es)[4 * k] == RTokV::Str(es[k].0),
        list_toks(es)[4 * k + 1] == RTokV::FatArrow,
        list_toks(es)[4 * k + 2] == RTokV::Ident(es[k].1),
        list_toks(es)[4 * k + 3] == RTokV::Comma,
        list_toks(es.take(k + 1)) == list_toks(es.take(k)) + seq![
            RTokV::Str(es[k].0),
            RTokV::FatArrow,
            RTokV::Ident(es[k].1),
            RTokV::Comma,
        ],
        list_toks(es.take(k)) == list_toks(es).subrange(0, 4 * k),
    decreases es.len(),
{
    lemma_list_toks_len(es);
    lemma_list_toks_len(es.drop_last());
    assert(es.take(k + 1).drop_last() =~= es.take(k));
    if k < es.len() - 1 {
        lemma_list_toks_at(es.drop_last(), k);
        assert(es.drop_last()[k] == es[k]);
        assert(es.drop_last().take(k) =~= es.take(k));
        assert(list_toks(es) == list_toks(es.drop_last()) + seq![
            RTokV::Str(es.last().0),
            RTokV::FatArrow,
            RTokV::Ident(es.last().1),
            RTokV::Comma,
        ]);
        assert(list_toks(es).subrange(0, 4 * k) =~= list_toks(es.drop_last()).subrange(0, 4 * k));
    } else {
        assert(es.take(k) =~= es.drop_last());
        assert(es.take(k + 1) =~= es);
        assert(list_toks(es).subrange(0, 4 * k) =~= list_toks(es.drop_last()));
    }
}

/// Reads a `routes!` table: its `(path, component)` entries in order, or
/// the position of the first token that cannot stand where it is (the
/// number of tokens when they end inside an entry).
#[verifier::rlimit(40)]
pub fn parse_route_list(toks: &Vec<RouteListTok>) -> (r: Result<Vec<(String, String)>, usize>)
    ensures
        r matches Ok(es) ==> route_list_of(rtoks_view(toks@), entry_views(es@)),
        forall|es2: Seq<(Seq<char>, Seq<char>)>| #[trigger]
            route_list_of(rtoks_view(toks@), es2) ==> (r matches Ok(es) && entry_views(es@) == es2),
        r matches Err(p) ==> {
            &&& p <= toks@.len()
            &&& forall|j: int| 0 <= j < p ==> kind_ok(j, #[trigger] rtoks_view(toks@)[j])
            &&& p < toks@.len() ==> !kind_ok(p as int, rtoks_view(toks@)[p as int])
            &&& p == toks@.len() ==> (p % 4 == 1 || p % 4 == 2)
        },
{
    let ghost tv = rtoks_view(toks@);
    let n = toks.len();
    assert(tv.len() == n);
    let mut out: Vec<(String, String)> = Vec::new();
    let mut i: usize = 0;
    proof {
        assert(tv.subrange(0, 0) =~= list_toks(entry_views(out@)));
        assert forall|es2: Seq<(Seq<char>, Seq<char>)>| #[trigger] route_list_of(tv, es2) implies entry_views(
            out@,
        ) == es2.take(0) by {
            assert(entry_views(out@) =~= es2.take(0));
        }
    }
    while i < n
        invariant
            tv == rtoks_view(toks@),
            tv.len() == n,
            n == toks.len(),
            i <= n,
            i == 4 * out@.len(),
            i % 4 == 0,
            forall|j: int| 0 <= j < i ==> kind_ok(j, #[trigger] tv[j]),
            tv.subrange(0, i as int) == list_toks(entry_views(out@)),
            forall|es2: Seq<(Seq<char>, Seq<char>)>| #[trigger]
                route_list_of(tv, es2) ==> out@.len() <= es2.len() && entry_views(out@) == es2.take(
                    out@.len() as int,
                ),
        decreases n - i,
    {
        let ghost ov = entry_views(out@);
        let ghost k = out@.len() as int;
        proof {
            lemma_list_toks_len(ov);
            assert forall|es2: Seq<(Seq<char>, Seq<char>)>| #[trigger] route_list_of(tv, es2) implies k
                < es2.len() && i + 2 < n && tv[i as int] == RTokV::Str(es2[k].0) && tv[i + 1]
                == RTokV::FatArrow && tv[i + 2] == RTokV::Ident(es2[k].1) && (i + 3 < n ==> tv[i + 3]
                == RTokV::Comma) by {
                lemma_list_toks_len(es2);
                if k == es2.len() {
                    assert(es2.take(k) =~= es2);
                }
                lemma_list_toks_at(es2, k);
            }
        }
        let bad: usize;
        if i + 2 < n {
            assert(tv[i as int] == rtok_view(toks@[i as int]));
            assert(tv[i + 1] == rtok_view(toks@[i + 1]));
            assert(tv[i + 2] == rtok_view(toks@[i + 2]));
            match (&toks[i], &toks[i + 1], &toks[i + 2]) {
                (RouteListTok::Str(p), RouteListTok::FatArrow, RouteListTok::Ident(c)) => {
                    let comma_ok = if i + 3 < n {
                        assert(tv[i + 3] == rtok_view(toks@[i + 3]));
                        match &toks[i + 3] {
                            RouteListTok::Comma => true,
                            _ => false,
                        }
                    } else {
                        true
                    };
                    if comma_ok {
                        out.push((p.clone(), c.clone()));
                        proof {
                            let nv = entry_views(out@);
                            assert(nv =~= ov.push((p@, c@)));
                            assert(nv.take(k) =~= ov);
                            assert(nv.take(k + 1) =~= nv);
                            lemma_list_toks_at(nv, k);
                            assert forall|es2: Seq<(Seq<char>, Seq<char>)>| #[trigger] route_list_of(
                                tv,
                                es2,
                            ) implies out@.len() <= es2.len() && nv == es2.take(out@.len() as int) by {
                                assert(nv =~= es2.take(k + 1));
                            }
                        }
                        if i + 3 < n {
                            proof {
                                assert(kind_ok(i as int, tv[i as int]));
                                assert(kind_ok(i + 1, tv[i + 1]));
                                assert(kind_ok(i + 2, tv[i + 2]));
                                assert(kind_ok(i + 3, tv[i + 3]));
                                assert(tv.subrange(0, i + 4) =~= tv.subrange(0, i as int) + seq![
                                    tv[i as int],
                                    tv[i + 1],
                                    tv[i + 2],
                                    tv[i + 3],
                                ]);
                            }
                            i = i + 4;
                        } else {
                            // the last entry, without its comma
                            proof {
                                let nv = entry_views(out@);
                                lemma_list_toks_len(nv);
                                assert(tv =~= list_toks(nv).drop_last());
                                assert forall|es2: Seq<(Seq<char>, Seq<char>)>| #[trigger] route_list_of(
                                    tv,
                                    es2,
                                ) implies nv == es2 by {
                                    lemma_list_toks_len(es2);
                                    assert(nv =~= es2);
                                }
                            }
                            return Ok(out);
                        }
                        continue;
                    }
                    bad = i + 3;
                },
                (RouteListTok::Str(_), RouteListTok::FatArrow, _) => {
                    bad = i + 2;
                },
                (RouteListTok::Str(_), _, _) => {
                    bad = i + 1;
                },
                _ => {
                    bad = i;
                },
            }
        } else {
            assert(tv[i as int] == rtok_view(toks@[i as int]));
            match &toks[i] {
                RouteListTok::Str(_) => {
                    if i + 1 < n {
                        assert(tv[i + 1] == rtok_view(toks@[i + 1]));
                        match &toks[i + 1] {
                            RouteListTok::FatArrow => {
                                bad = n;
                            },
                            _ => {
                                bad = i + 1;
                            },
                        }
                    } else {
                        bad = n;
                    }
                },
                _ => {
                    bad = i;
                },
            }
        }
        proof {
            assert(kind_ok(i + 1, RTokV::FatArrow) && kind_ok(i + 2, RTokV::Ident(Seq::empty()))
                && kind_ok(i + 3, RTokV::Comma));
            assert forall|j: int| 0 <= j < bad implies kind_ok(j, #[trigger] tv[j]) by {
                if j >= i {
                    assert(j == i || j == i + 1 || j == i + 2);
                }
            }
            assert forall|es2: Seq<(Seq<char>, Seq<char>)>| !#[trigger] route_list_of(tv, es2) by {
                if route_list_of(tv, es2) {
                    assert(k < es2.len());
                }
            }
        }
        return Err(bad);
    }
    proof {
        assert(tv.subrange(0, i as int) =~= tv);
        let ov = entry_views(out@);
        assert forall|es2: Seq<(Seq<char>, Seq<char>)>| #[trigger] route_list_of(tv, es2) implies ov
            == es2 by {
            lemma_list_toks_len(es2);
            lemma_list_toks_len(ov);
            assert(ov =~= es2.take(out@.len() as int));
            if out@.len() < es2.len() {
                assert(tv.len() == 4 * out@.len());
            }
            assert(ov =~= es2);
        }
    }
    Ok(out)
}

} // verus!
