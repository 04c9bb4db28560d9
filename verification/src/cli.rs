//! The scaffolding rules of `velo new`: which app names are accepted, and
//! how the template's files are renamed to the chosen name.
use vstd::prelude::*;
use crate::text::{chars_of, is_ascii_alnum, is_ascii_alnum_exec, push_char};

verus! {

/// A character an app name may hold: ASCII alphanumeric, `-` or `_`.
pub open spec fn name_char_ok(c: char) -> bool {
    is_ascii_alnum(c) || c == '-' || c == '_'
}

pub open spec fn name_ok(name: Seq<char>) -> bool {
    forall|i: int| 0 <= i < name.len() ==> name_char_ok(#[trigger] name[i])
}

pub open spec fn invalid_name_message(name: Seq<char>) -> Seq<char> {
    "Invalid name '"@ + name + "': use only alphanumeric, dash, or underscore"@
}

/// Checks the name given to `velo new`; the error is the message the
/// command fails with.
pub fn validate_app_name(name: &str) -> (r: Result<(), String>)
    ensures
        r is Ok <==> name_ok(name@),
        r matches Err(m) ==> m@ == invalid_name_message(name@),
{
    let cs = chars_of(name);
    let mut i: usize = 0;
    while i < cs.len()
        invariant
            i <= cs.len(),
            cs@ == name@,
            forall|j: int| 0 <= j < i ==> name_char_ok(#[trigger] name@[j]),
        decreases cs.len() - i,
    {
        let c = cs[i];
        if !(is_ascii_alnum_exec(c) || c == '-' || c == '_') {
            assert(!name_char_ok(name@[i as int]));
            let mut m = String::from_str("Invalid name '");
            m.append(name);
            m.append("': use only alphanumeric, dash, or underscore");
            return Err(m);
        }
        i = i + 1;
    }
    Ok(())
}

/// `s` with every non-overlapping occurrence of `pat` replaced by `rep`,
/// scanning from the left (`str::replace` for a non-empty `pat`).
pub open spec fn replace_spec(s: Seq<char>, pat: Seq<char>, rep: Seq<char>) -> Seq<char>
    decreases s.len(),
{
    if s.len() == 0 || pat.len() == 0 {
        s
    } else if pat.len() <= s.len() && s.subrange(0, pat.len() as int) == pat {
        rep + replace_spec(s.subrange(pat.len() as int, s.len() as int), pat, rep)
    } else {
        seq![s[0]] + replace_spec(s.subrange(1, s.len() as int), pat, rep)
    }
}

/// Whether `pat` occurs in `s` at `at`.
fn occurs_at(s: &Vec<char>, pat: &Vec<char>, at: usize) -> (r: bool)
    requires
        at <= s.len(),
    ensures
        r == (pat.len() <= s.len() - at && s@.subrange(at as int, at + pat.len()) == pat@),
{
    if pat.len() > s.len() - at {
        return false;
    }
    let mut k: usize = 0;
    while k < pat.len()
        invariant
            k <= pat.len(),
            pat.len() <= s.len() - at,
            forall|j: int| 0 <= j < k ==> s@[at + j] == pat@[j],
        decreases pat.len() - k,
    {
        if s[at + k] != pat[k] {
            assert(s@.subrange(at as int, at + pat.len())[k as int] != pat@[k as int]);
            return false;
        }
        k = k + 1;
    }
    assert(s@.subrange(at as int, at + pat.len()) =~= pat@);
    true
}

/// `content` with each occurrence of `pat` replaced by `rep`.
fn replace_all(content: &str, pat: &str, rep: &str) -> (r: String)
    ensures
        r@ == replace_spec(content@, pat@, rep@),
{
    let s = chars_of(content);
    let p = chars_of(pat);
    let mut out = String::new();
    if p.len() == 0 {
        out.append(content);
        return out;
    }
    let mut i: usize = 0;
    assert(s@.subrange(0, s@.len() as int) =~= s@);
    while i < s.len()
        invariant
            i <= s.len(),
            s@ == content@,
            p@ == pat@,
            p.len() > 0,
            out@ + replace_spec(s@.subrange(i as int, s@.len() as int), pat@, rep@) == replace_spec(
                content@,
                pat@,
                rep@,
            ),
        decreases s.len() - i,
    {
        let ghost rest = s@.subrange(i as int, s@.len() as int);
        if occurs_at(&s, &p, i) {
            proof {
                assert(rest.subrange(0, pat@.len() as int) =~= s@.subrange(i as int, i + pat@.len()));
                assert(rest.subrange(pat@.len() as int, rest.len() as int) =~= s@.subrange(
                    i + p.len(),
                    s@.len() as int,
                ));
            }
            let ghost before = out@;
            out.append(rep);
            assert(out@ == before + rep@);
            i = i + p.len();
            proof {
                assert(before + (rep@ + replace_spec(s@.subrange(i as int, s@.len() as int), pat@, rep@))
                    =~= out@ + replace_spec(s@.subrange(i as int, s@.len() as int), pat@, rep@));
            }
        } else {
            proof {
                if pat@.len() <= rest.len() {
                    assert(rest.subrange(0, pat@.len() as int) =~= s@.subrange(i as int, i + pat@.len()));
                }
                assert(rest.subrange(1, rest.len() as int) =~= s@.subrange(i + 1, s@.len() as int));
                assert(rest[0] == s@[i as int]);
            }
            let ghost before = out@;
            push_char(&mut out, s[i]);
            i = i + 1;
            proof {
                assert(before + (seq![s@[i - 1]] + replace_spec(
                    s@.subrange(i as int, s@.len() as int),
                    pat@,
                    rep@,
                )) =~= out@ + replace_spec(s@.subrange(i as int, s@.len() as int), pat@, rep@));
            }
        }
    }
    assert(s@.subrange(s@.len() as int, s@.len() as int) =~= Seq::<char>::empty());
    assert(out@ + Seq::<char>::empty() =~= out@);
    out
}

/// The template's own name, which `velo new` replaces in the copied
/// `Cargo.toml` and `src/lib.rs`.
pub open spec fn template_name() -> Seq<char> {
    "cli-template"@
}

/// A template file's text renamed for the app `name`.
pub fn patch_template(content: &str, name: &str) -> (r: String)
    ensures
        r@ == replace_spec(content@, template_name(), name@),
{
    replace_all(content, "cli-template", name)
}

/// Position of the last `/` of `p`, or -1 when it has none.
pub open spec fn last_slash(p: Seq<char>) -> int
    decreases p.len(),
{
    if p.len() == 0 {
        -1
    } else if p.last() == '/' {
        p.len() - 1
    } else {
        last_slash(p.drop_last())
    }
}

/// A path component that reads the same on every platform: not empty, not
/// `.` or `..`, and without `/`, `\` or `:`.
pub open spec fn plain_name(c: Seq<char>) -> bool {
    &&& c.len() > 0
    &&& c != seq!['.']
    &&& c != seq!['.', '.']
    &&& forall|i: int| 0 <= i < c.len() ==> c[i] != '/' && c[i] != '\\' && c[i] != ':'
}

/// An absolute path `/c1/../cn` (n >= 1) of plain components, written with
/// single `/` separators and no trailing `/`.
pub open spec fn plain_abs_path(p: Seq<char>) -> bool
    decreases p.len(),
{
    let k = last_slash(p);
    &&& 0 <= k < p.len()
    &&& plain_name(p.subrange(k + 1, p.len() as int))
    &&& (k == 0 || plain_abs_path(p.subrange(0, k)))
}

/// The parent of such a path: everything before its last `/`, or `/`.
pub open spec fn parent_spec(p: Seq<char>) -> Seq<char> {
    let k = last_slash(p);
    if k == 0 {
        seq!['/']
    } else {
        p.subrange(0, k)
    }
}

/// `std::path::Path::parent` on the path `p`: the path without its final
/// component, or `None` for a root, a prefix or the empty path. The parent
/// is the leading part of the path it was taken from, so it is a proper
/// prefix of `p`. Where `p` is an absolute path of plain components with
/// `/` separators (`plain_abs_path`) every platform splits it the same way,
/// and the parent is what stands before the last `/` (`/` for `/c`); for
/// other paths the split depends on the platform and is not stated.
#[verifier::external_body]
fn path_parent(p: &str) -> (r: Option<String>)
    ensures
        r matches Some(q) ==> q@.len() < p@.len() && q@ == p@.subrange(0, q@.len() as int),
        r is Some || !plain_abs_path(p@),
        r matches Some(q) ==> (plain_abs_path(p@) ==> q@ == parent_spec(p@)),
{
    std::path::Path::new(p).parent().map(|q| q.to_string_lossy().into_owned())
}

/// The workspace root of the command's own package: two directories above
/// its manifest directory `manifest_dir`, if there are two.
pub fn workspace_root(manifest_dir: &str) -> (r: Option<String>)
    ensures
        r matches Some(w) ==> w@.len() + 2 <= manifest_dir@.len() && w@ == manifest_dir@.subrange(
            0,
            w@.len() as int,
        ),
        plain_abs_path(manifest_dir@) && last_slash(manifest_dir@) > 0 ==> (r matches Some(w) && w@
            == parent_spec(parent_spec(manifest_dir@))),
{
    match path_parent(manifest_dir) {
        Some(crate_dir) => {
            proof {
                if plain_abs_path(manifest_dir@) && last_slash(manifest_dir@) > 0 {
                    assert(plain_abs_path(parent_spec(manifest_dir@)));
                }
            }
            let r = path_parent(crate_dir.as_str());
            proof {
                if r is Some {
                    let w = r->0;
                    assert(w@ =~= manifest_dir@.subrange(0, w@.len() as int));
                }
            }
            r
        },
        None => None,
    }
}

} // verus!
