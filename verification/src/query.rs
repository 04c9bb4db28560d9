//! Query strings: `?a=1&b=two%20words` into a map of decoded keys and
//! values.
use vstd::prelude::*;
use crate::route_match::ParamMap;
use crate::text::{chars_of, slice_chars, split_chars, split_spec, string_of, views};

verus! {

/// What `percent_decode_str(s).decode_utf8_lossy()` makes of `s`.
pub uninterp spec fn url_decoded(s: Seq<char>) -> Seq<char>;

/// `percent_encoding::percent_decode_str(s).decode_utf8_lossy()`: every
/// `%` followed by two hex digits becomes that byte, the bytes are read as
/// UTF-8 with invalid sequences replaced. The result is named
/// `url_decoded(s)`; stated besides: text without `%` comes back unchanged
/// (every other byte passes through, and valid UTF-8 stays as it is).
#[verifier::external_body]
fn url_decode(s: &str) -> (r: String)
    ensures
        r@ == url_decoded(s@),
        !s@.contains('%') ==> r@ == s@,
{
    percent_encoding::percent_decode_str(s).decode_utf8_lossy().to_string()
}

/// Index of the first `c` in `p`, or `p.len()` when there is none.
pub open spec fn first_index(p: Seq<char>, c: char) -> int
    decreases p.len(),
{
    if p.len() == 0 {
        0
    } else {
        let k = first_index(p.drop_last(), c);
        if k < p.len() - 1 {
            k
        } else if p.last() == c {
            p.len() - 1
        } else {
            p.len() as int
        }
    }
}

/// One `key=value` (or bare `key`) piece of a query, split at its first
/// `=`, before decoding.
pub open spec fn raw_piece(p: Seq<char>) -> (Seq<char>, Option<Seq<char>>) {
    let i = first_index(p, '=');
    if i < p.len() {
        (p.subrange(0, i), Some(p.subrange(i + 1, p.len() as int)))
    } else {
        (p, None)
    }
}

/// A split piece with both sides URL-decoded; a bare key maps to the empty
/// string.
pub open spec fn decode_piece(r: (Seq<char>, Option<Seq<char>>)) -> (Seq<char>, Seq<char>) {
    (
        url_decoded(r.0),
        match r.1 {
            Some(v) => url_decoded(v),
            None => Seq::empty(),
        },
    )
}

/// The binding one piece of a query makes.
pub open spec fn pair_binding(p: Seq<char>) -> (Seq<char>, Seq<char>) {
    decode_piece(raw_piece(p))
}

/// The bindings of `pairs`, in order; a later binding of a key wins.
pub open spec fn bind_all(pairs: Seq<Seq<char>>) -> Map<Seq<char>, Seq<char>>
    decreases pairs.len(),
{
    if pairs.len() == 0 {
        Map::empty()
    } else {
        let (k, v) = pair_binding(pairs.last());
        bind_all(pairs.drop_last()).insert(k, v)
    }
}

/// The query without its leading `?`.
pub open spec fn query_body(q: Seq<char>) -> Seq<char> {
    if q.len() > 0 && q[0] == '?' {
        q.drop_first()
    } else {
        q
    }
}

/// The map of a query string: its `&`-separated pieces bound in order; the
/// empty query has no bindings.
pub open spec fn query_map(q: Seq<char>) -> Map<Seq<char>, Seq<char>> {
    let body = query_body(q);
    if body.len() == 0 {
        Map::empty()
    } else {
        bind_all(split_spec(body, '&'))
    }
}

/// The pieces of a query string before decoding, in order.
pub open spec fn query_pieces_spec(q: Seq<char>) -> Seq<(Seq<char>, Option<Seq<char>>)> {
    let body = query_body(q);
    if body.len() == 0 {
        Seq::empty()
    } else {
        split_spec(body, '&').map_values(|p: Seq<char>| raw_piece(p))
    }
}

pub open spec fn piece_views(v: Seq<(String, Option<String>)>) -> Seq<(Seq<char>, Option<Seq<char>>)> {
    v.map_values(
        |x: (String, Option<String>)|
            (
                x.0@,
                match x.1 {
                    Some(t) => Some(t@),
                    None => None,
                },
            ),
    )
}

proof fn lemma_first_index_scan(p: Seq<char>, c: char, j: int)
    requires
        0 <= j <= p.len(),
        forall|k: int| 0 <= k < j ==> p[k] != c,
    ensures
        j < p.len() && p[j] == c ==> first_index(p, c) == j,
        j == p.len() ==> first_index(p, c) == p.len(),
    decreases p.len(),
{
    if p.len() > 0 {
        if j < p.len() {
            if p[j] == c {
                if j < p.len() - 1 {
                    assert(p.drop_last()[j] == c);
                    lemma_first_index_scan(p.drop_last(), c, j);
                } else {
                    lemma_first_index_scan(p.drop_last(), c, j);
                }
            }
        } else {
            lemma_first_index_scan(p.drop_last(), c, j - 1);
        }
    }
}

fn piece_of(p: &Vec<char>) -> (r: (String, Option<String>))
    ensures
        (r.0@, match r.1 {
            Some(t) => Some(t@),
            None => None,
        }) == raw_piece(p@),
{
    let mut j: usize = 0;
    while j < p.len()
        invariant
            j <= p.len(),
            forall|k: int| 0 <= k < j ==> p@[k] != '=',
        decreases p.len() - j,
    {
        if p[j] == '=' {
            proof {
                lemma_first_index_scan(p@, '=', j as int);
            }
            let k = string_of(&slice_chars(p, 0, j));
            let v = string_of(&slice_chars(p, j + 1, p.len()));
            return (k, Some(v));
        }
        j = j + 1;
    }
    proof {
        lemma_first_index_scan(p@, '=', j as int);
    }
    (string_of(p), None)
}

/// The pieces of a `?key=value&...` query string (leading `?` optional),
/// split at `&` and each at its first `=`, not yet decoded; the empty query
/// has none.
pub fn query_pieces(query: &str) -> (r: Vec<(String, Option<String>)>)
    ensures
        piece_views(r@) == query_pieces_spec(query@),
{
    let q = chars_of(query);
    let body = if q.len() > 0 && q[0] == '?' {
        slice_chars(&q, 1, q.len())
    } else {
        crate::text::copy_chars(&q)
    };
    assert(body@ =~= query_body(query@));
    let mut out: Vec<(String, Option<String>)> = Vec::new();
    if body.len() == 0 {
        assert(piece_views(out@) =~= query_pieces_spec(query@));
        return out;
    }
    let pairs = split_chars(&body, '&');
    let ghost ps = views(pairs@);
    let ghost want = split_spec(body@, '&').map_values(|p: Seq<char>| raw_piece(p));
    let mut i: usize = 0;
    while i < pairs.len()
        invariant
            i <= pairs.len(),
            ps == views(pairs@),
            ps == split_spec(body@, '&'),
            want == ps.map_values(|p: Seq<char>| raw_piece(p)),
            piece_views(out@) == want.subrange(0, i as int),
            out@.len() == i,
            want.len() == pairs@.len(),
        decreases pairs.len() - i,
    {
        let piece = piece_of(&pairs[i]);
        let ghost before = out@;
        out.push(piece);
        proof {
            assert(ps[i as int] == pairs@[i as int]@);
            assert(want[i as int] == raw_piece(ps[i as int]));
            assert(out@[i as int] == piece);
            assert forall|j: int| 0 <= j < i implies out@[j] == before[j] by {}
            assert(piece_views(out@) =~= want.subrange(0, i as int + 1));
        }
        i = i + 1;
    }
    assert(want.subrange(0, pairs.len() as int) =~= want);
    out
}

proof fn lemma_bind_decoded(
    e: Seq<(String, String)>,
    ps: Seq<Seq<char>>,
)
    requires
        e.len() == ps.len(),
        forall|i: int| 0 <= i < e.len() ==> (#[trigger] e[i].0@, e[i].1@) == pair_binding(ps[i]),
    ensures
        crate::route_match::entries_map(e) == bind_all(ps),
    decreases e.len(),
{
    if e.len() > 0 {
        assert(e.last() == e[e.len() - 1]);
        assert forall|i: int| 0 <= i < e.drop_last().len() implies (#[trigger] e.drop_last()[i].0@,
            e.drop_last()[i].1@) == pair_binding(ps.drop_last()[i]) by {
            assert(e.drop_last()[i] == e[i]);
            assert(ps.drop_last()[i] == ps[i]);
        }
        lemma_bind_decoded(e.drop_last(), ps.drop_last());
    }
}

/// Parses a `?key=value&...` query string (leading `?` optional) into its
/// URL-decoded bindings; a key given twice keeps its last value.
pub fn parse_query_string(query: &str) -> (r: ParamMap)
    ensures
        r@ == query_map(query@),
{
    let pieces = query_pieces(query);
    let ghost pv = piece_views(pieces@);
    let mut decoded: Vec<(String, String)> = Vec::new();
    let mut i: usize = 0;
    while i < pieces.len()
        invariant
            i <= pieces.len(),
            pv == piece_views(pieces@),
            decoded@.len() == i,
            forall|j: int| 0 <= j < i ==> (#[trigger] decoded@[j].0@, decoded@[j].1@) == decode_piece(pv[j]),
        decreases pieces.len() - i,
    {
        let k = url_decode(pieces[i].0.as_str());
        let v = match &pieces[i].1 {
            Some(t) => url_decode(t.as_str()),
            None => String::new(),
        };
        let ghost before = decoded@;
        decoded.push((k, v));
        proof {
            assert forall|j: int| 0 <= j < i + 1 implies (#[trigger] decoded@[j].0@, decoded@[j].1@)
                == decode_piece(pv[j]) by {
                if j < i {
                    assert(decoded@[j] == before[j]);
                }
            }
        }
        i = i + 1;
    }
    proof {
        let body = query_body(query@);
        assert(pv == query_pieces_spec(query@));
        assert(pv.len() == pieces@.len());
        if body.len() > 0 {
            let ps = split_spec(body, '&');
            assert(pv == ps.map_values(|p: Seq<char>| raw_piece(p)));
            assert(pv.len() == ps.len());
            assert forall|j: int| 0 <= j < decoded@.len() implies (#[trigger] decoded@[j].0@,
                decoded@[j].1@) == pair_binding(ps[j]) by {
                assert(pv[j] == raw_piece(ps[j]));
            }
            lemma_bind_decoded(decoded@, ps);
        } else {
            assert(decoded@.len() == 0);
            assert(decoded@ =~= Seq::<(String, String)>::empty());
        }
    }
    ParamMap::from_pairs(decoded)
}

} // verus!
