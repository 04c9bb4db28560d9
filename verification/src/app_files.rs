//! The order in which the files under `src/app/` are listed: by relative
//! path, so that modules and routes come out the same on every machine.
use vstd::prelude::*;
use crate::route_files::AppFile;
use crate::text::chars_of;

verus! {

/// `a` comes no later than `b` in the lexicographic order of their
/// characters (the order of `str`'s `Ord`).
pub open spec fn lex_le(a: Seq<char>, b: Seq<char>) -> bool
    decreases a.len(),
{
    if a.len() == 0 {
        true
    } else if b.len() == 0 {
        false
    } else if a[0] != b[0] {
        (a[0] as int) < (b[0] as int)
    } else {
        lex_le(a.drop_first(), b.drop_first())
    }
}

pub proof fn lemma_lex_total(a: Seq<char>, b: Seq<char>)
    ensures
        lex_le(a, b) || lex_le(b, a),
    decreases a.len(),
{
    if a.len() > 0 && b.len() > 0 && a[0] == b[0] {
        lemma_lex_total(a.drop_first(), b.drop_first());
    }
}

pub proof fn lemma_lex_trans(a: Seq<char>, b: Seq<char>, c: Seq<char>)
    requires
        lex_le(a, b),
        lex_le(b, c),
    ensures
        lex_le(a, c),
    decreases a.len(),
{
    if a.len() > 0 && b.len() > 0 && c.len() > 0 && a[0] == b[0] && b[0] == c[0] {
        lemma_lex_trans(a.drop_first(), b.drop_first(), c.drop_first());
    }
}

proof fn lemma_lex_refl(a: Seq<char>)
    ensures
        lex_le(a, a),
    decreases a.len(),
{
    if a.len() > 0 {
        lemma_lex_refl(a.drop_first());
    }
}

/// The files of `files` at relative path `key`, in their order there.
pub open spec fn at_rel(files: Seq<AppFile>, key: Seq<char>) -> Seq<AppFile> {
    files.filter(|f: AppFile| f.rel@ == key)
}

/// Whether `a` sorts no later than `b`.
pub fn rel_le(a: &str, b: &str) -> (r: bool)
    ensures
        r == lex_le(a@, b@),
{
    let x = chars_of(a);
    let y = chars_of(b);
    let mut i: usize = 0;
    assert(a@.skip(0) =~= a@);
    assert(b@.skip(0) =~= b@);
    while i < x.len() && i < y.len() && x[i] == y[i]
        invariant
            i <= x.len(),
            i <= y.len(),
            x@ == a@,
            y@ == b@,
            lex_le(a@, b@) == lex_le(a@.skip(i as int), b@.skip(i as int)),
        decreases x.len() - i,
    {
        assert(a@.skip(i as int).drop_first() =~= a@.skip(i + 1));
        assert(b@.skip(i as int).drop_first() =~= b@.skip(i + 1));
        i = i + 1;
    }
    let ghost sa = a@.skip(i as int);
    let ghost sb = b@.skip(i as int);
    if i == x.len() {
        assert(sa.len() == 0);
        true
    } else if i == y.len() {
        assert(sb.len() == 0 && sa.len() > 0);
        false
    } else {
        assert(sa[0] == x@[i as int] && sb[0] == y@[i as int]);
        x[i] < y[i]
    }
}

pub open spec fn sorted_by_rel(files: Seq<AppFile>) -> bool {
    forall|i: int, j: int| 0 <= i < j < files.len() ==> lex_le(files[i].rel@, files[j].rel@)
}

/// The files ordered by relative path; files at the same path keep their
/// order (a stable sort).
pub fn sort_app_files(files: Vec<AppFile>) -> (r: Vec<AppFile>)
    ensures
        sorted_by_rel(r@),
        r@.to_multiset() == files@.to_multiset(),
        forall|key: Seq<char>| #[trigger] at_rel(r@, key) == at_rel(files@, key),
{
    let mut out: Vec<AppFile> = Vec::new();
    let mut rest = files;
    let ghost all = rest@;
    proof {
        assert(all.skip(all.len() as int) =~= out@);
        assert(rest@ =~= all.take(all.len() as int));
    }
    // `rest` is consumed from the back; `taken` counts the files moved.
    while rest.len() > 0
        invariant
            rest@.len() <= all.len(),
            rest@ == all.take(rest@.len() as int),
            sorted_by_rel(out@),
            out@.to_multiset() == all.skip(rest@.len() as int).to_multiset(),
            forall|key: Seq<char>| #[trigger] at_rel(out@, key) == at_rel(all.skip(rest@.len() as int), key),
        decreases rest.len(),
    {
        let ghost before_rest = rest@;
        let f = rest.pop().unwrap();
        let ghost n = rest@.len() as int;
        assert(f == all[n]);
        let mut k: usize = 0;
        while k < out.len() && !rel_le(f.rel.as_str(), out[k].rel.as_str())
            invariant
                k <= out.len(),
                forall|j: int| 0 <= j < k ==> !lex_le(f.rel@, #[trigger] out@[j].rel@),
            decreases out.len() - k,
        {
            k = k + 1;
        }
        let ghost old_out = out@;
        proof {
            assert forall|j: int| 0 <= j < k implies lex_le(#[trigger] old_out[j].rel@, f.rel@)
                && old_out[j].rel@ != f.rel@ by {
                lemma_lex_total(old_out[j].rel@, f.rel@);
                lemma_lex_refl(f.rel@);
            }
        }
        out.insert(k, f);
        proof {
            assert(out@ == old_out.insert(k as int, f));
            assert forall|a: int, b: int| 0 <= a < b < out@.len() implies lex_le(
                out@[a].rel@,
                out@[b].rel@,
            ) by {
                if b < k {
                    assert(out@[a] == old_out[a] && out@[b] == old_out[b]);
                } else if b == k {
                    assert(out@[a] == old_out[a]);
                } else if a == k {
                    assert(out@[b] == old_out[b - 1]);
                    if b - 1 > k {
                        assert(lex_le(old_out[k as int].rel@, old_out[b - 1].rel@));
                        lemma_lex_trans(f.rel@, old_out[k as int].rel@, old_out[b - 1].rel@);
                    }
                } else if a < k {
                    assert(out@[a] == old_out[a] && out@[b] == old_out[b - 1]);
                } else {
                    assert(out@[a] == old_out[a - 1] && out@[b] == old_out[b - 1]);
                }
            }
            assert(all.skip(n) =~= all.skip(n + 1).insert(0, f));
            vstd::seq_lib::to_multiset_insert(all.skip(n + 1), 0, f);
            vstd::seq_lib::to_multiset_insert(old_out, k as int, f);
            assert(rest@ =~= all.take(n));
            let lo = old_out.take(k as int);
            let hi = old_out.skip(k as int);
            assert(old_out =~= lo + hi);
            assert(out@ =~= lo + (seq![f] + hi));
            assert(all.skip(n) =~= seq![f] + all.skip(n + 1));
            assert forall|key: Seq<char>| #[trigger] at_rel(out@, key) == at_rel(all.skip(n), key) by {
                let p = |g: AppFile| g.rel@ == key;
                assert(at_rel(out@, key) == out@.filter(p));
                assert(at_rel(old_out, key) == old_out.filter(p));
                assert(at_rel(all.skip(n), key) == all.skip(n).filter(p));
                assert(at_rel(all.skip(n + 1), key) == all.skip(n + 1).filter(p));
                assert(old_out.filter(p) == all.skip(n + 1).filter(p));
                Seq::filter_distributes_over_add(lo, seq![f] + hi, p);
                Seq::filter_distributes_over_add(lo, hi, p);
                hi.lemma_filter_prepend(f, p);
                all.skip(n + 1).lemma_filter_prepend(f, p);
                if key == f.rel@ {
                    assert forall|j: int| 0 <= j < lo.len() implies !p(lo[j]) by {
                        assert(lo[j] == old_out[j]);
                    }
                    lo.lemma_all_neg_filter_empty(p);
                    assert(lo.filter(p) =~= Seq::<AppFile>::empty());
                }
                assert(at_rel(out@, key) =~= at_rel(all.skip(n), key));
            }
        }
    }
    proof {
        assert(all.skip(0) =~= all);
    }
    out
}

} // verus!
