//! Decisions the `view!` macro makes about tags and attributes, and the
//! class-list helpers that back `class_names!` and `class:` toggles.
use vstd::prelude::*;
use crate::text::{chars_of, copy_chars, has_prefix, join, slice_chars, starts_with, string_of, views};

verus! {

/// `s` with every leading `r#` removed (`trim_start_matches("r#")`).
pub open spec fn strip_raw_spec(s: Seq<char>) -> Seq<char>
    decreases s.len(),
{
    if s.len() >= 2 && s[0] == 'r' && s[1] == '#' {
        strip_raw_spec(s.subrange(2, s.len() as int))
    } else {
        s
    }
}

/// The name of a tag or attribute identifier without its raw-identifier
/// prefix (`r#type` -> `type`).
pub fn strip_raw_prefix(s: &str) -> (r: String)
    ensures
        r@ == strip_raw_spec(s@),
{
    let cs = chars_of(s);
    let mut i: usize = 0;
    assert(s@.subrange(0, s@.len() as int) =~= s@);
    while cs.len() - i >= 2 && cs[i] == 'r' && cs[i + 1] == '#'
        invariant
            i <= cs.len(),
            cs@ == s@,
            strip_raw_spec(s@) == strip_raw_spec(s@.subrange(i as int, s@.len() as int)),
        decreases cs.len() - i,
    {
        assert(s@.subrange(i as int, s@.len() as int).subrange(2, s@.len() - i) =~= s@.subrange(
            i + 2,
            s@.len() as int,
        ));
        i = i + 2;
    }
    string_of(&slice_chars(&cs, i, cs.len()))
}

/// How the `view!` macro treats an element attribute, by its key.
#[derive(Debug)]
pub enum AttrKind {
    /// `on:submit`: the handler runs after `prevent_default()`.
    Submit,
    /// `on:<event>`: an event listener for `<event>`.
    Event(String),
    /// `class:<name>`: a reactive class toggle.
    ClassToggle(String),
    /// `class`: a base class list.
    Class,
    /// `style:<property>`: a reactive inline style property.
    Style(String),
    /// `bind:value`: two-way binding of the element's value.
    BindValue,
    /// `bind:checked`: two-way binding of the element's checked state.
    BindChecked,
    /// `disabled` / `checked` / `selected` / `readonly`: present or absent.
    Boolean,
    /// Any other attribute, set reactively to its value's text.
    Plain,
}

pub open spec fn lit_on() -> Seq<char> {
    seq!['o', 'n', ':']
}

pub open spec fn lit_on_submit() -> Seq<char> {
    seq!['o', 'n', ':', 's', 'u', 'b', 'm', 'i', 't']
}

pub open spec fn lit_class_colon() -> Seq<char> {
    seq!['c', 'l', 'a', 's', 's', ':']
}

pub open spec fn lit_class() -> Seq<char> {
    seq!['c', 'l', 'a', 's', 's']
}

pub open spec fn lit_style_colon() -> Seq<char> {
    seq!['s', 't', 'y', 'l', 'e', ':']
}

pub open spec fn lit_bind_value() -> Seq<char> {
    seq!['b', 'i', 'n', 'd', ':', 'v', 'a', 'l', 'u', 'e']
}

pub open spec fn lit_bind_checked() -> Seq<char> {
    seq!['b', 'i', 'n', 'd', ':', 'c', 'h', 'e', 'c', 'k', 'e', 'd']
}

pub open spec fn boolean_attr_names() -> Seq<Seq<char>> {
    seq![
        seq!['d', 'i', 's', 'a', 'b', 'l', 'e', 'd'],
        seq!['c', 'h', 'e', 'c', 'k', 'e', 'd'],
        seq!['s', 'e', 'l', 'e', 'c', 't', 'e', 'd'],
        seq!['r', 'e', 'a', 'd', 'o', 'n', 'l', 'y'],
    ]
}

/// `k` is the kind of attribute `key`, tried in this order: `on:submit`,
/// `on:*`, `class:*`, `class`, `style:*`, `bind:value*`, `bind:checked*`,
/// the boolean attributes, anything else. The text after an `on:` /
/// `class:` / `style:` prefix is carried in the kind.
pub open spec fn attr_kind_ok(key: Seq<char>, k: AttrKind) -> bool {
    if key == lit_on_submit() {
        k == AttrKind::Submit
    } else if starts_with(key, lit_on()) {
        k matches AttrKind::Event(e) && e@ == key.subrange(3, key.len() as int)
    } else if starts_with(key, lit_class_colon()) {
        k matches AttrKind::ClassToggle(c) && c@ == key.subrange(6, key.len() as int)
    } else if key == lit_class() {
        k == AttrKind::Class
    } else if starts_with(key, lit_style_colon()) {
        k matches AttrKind::Style(p) && p@ == key.subrange(6, key.len() as int)
    } else if starts_with(key, lit_bind_value()) {
        k == AttrKind::BindValue
    } else if starts_with(key, lit_bind_checked()) {
        k == AttrKind::BindChecked
    } else if boolean_attr_names().contains(key) {
        k == AttrKind::Boolean
    } else {
        k == AttrKind::Plain
    }
}

fn is_boolean_attr(key: &Vec<char>) -> (r: bool)
    ensures
        r == boolean_attr_names().contains(key@),
{
    let a = vec!['d', 'i', 's', 'a', 'b', 'l', 'e', 'd'];
    let b = vec!['c', 'h', 'e', 'c', 'k', 'e', 'd'];
    let c = vec!['s', 'e', 'l', 'e', 'c', 't', 'e', 'd'];
    let d = vec!['r', 'e', 'a', 'd', 'o', 'n', 'l', 'y'];
    let ghost names = boolean_attr_names();
    assert(a@ =~= names[0]);
    assert(b@ =~= names[1]);
    assert(c@ =~= names[2]);
    assert(d@ =~= names[3]);
    let r = crate::text::chars_eq(key, &a) || crate::text::chars_eq(key, &b)
        || crate::text::chars_eq(key, &c) || crate::text::chars_eq(key, &d);
    assert(r ==> names.contains(key@));
    assert(names.contains(key@) ==> r) by {
        if names.contains(key@) {
            let i = choose|i: int| 0 <= i < names.len() && names[i] == key@;
            assert(i == 0 || i == 1 || i == 2 || i == 3);
        }
    }
    r
}

/// Classifies an element attribute key for the `view!` macro (see
/// `attr_kind_ok`).
pub fn classify_attr(key: &str) -> (r: AttrKind)
    ensures
        attr_kind_ok(key@, r),
{
    let k = chars_of(key);
    let on_submit = vec!['o', 'n', ':', 's', 'u', 'b', 'm', 'i', 't'];
    let on = vec!['o', 'n', ':'];
    let class_colon = vec!['c', 'l', 'a', 's', 's', ':'];
    let class = vec!['c', 'l', 'a', 's', 's'];
    let style_colon = vec!['s', 't', 'y', 'l', 'e', ':'];
    let bind_value = vec!['b', 'i', 'n', 'd', ':', 'v', 'a', 'l', 'u', 'e'];
    let bind_checked = vec!['b', 'i', 'n', 'd', ':', 'c', 'h', 'e', 'c', 'k', 'e', 'd'];
    assert(on_submit@ =~= lit_on_submit());
    assert(on@ =~= lit_on());
    assert(class_colon@ =~= lit_class_colon());
    assert(class@ =~= lit_class());
    assert(style_colon@ =~= lit_style_colon());
    assert(bind_value@ =~= lit_bind_value());
    assert(bind_checked@ =~= lit_bind_checked());
    if crate::text::chars_eq(&k, &on_submit) {
        AttrKind::Submit
    } else if has_prefix(&k, &on) {
        AttrKind::Event(string_of(&slice_chars(&k, 3, k.len())))
    } else if has_prefix(&k, &class_colon) {
        AttrKind::ClassToggle(string_of(&slice_chars(&k, 6, k.len())))
    } else if crate::text::chars_eq(&k, &class) {
        AttrKind::Class
    } else if has_prefix(&k, &style_colon) {
        AttrKind::Style(string_of(&slice_chars(&k, 6, k.len())))
    } else if has_prefix(&k, &bind_value) {
        AttrKind::BindValue
    } else if has_prefix(&k, &bind_checked) {
        AttrKind::BindChecked
    } else if is_boolean_attr(&k) {
        AttrKind::Boolean
    } else {
        AttrKind::Plain
    }
}


pub open spec fn opt_str_view(o: Option<String>) -> Option<Seq<char>> {
    match o {
        Some(s) => Some(s@),
        None => None,
    }
}

/// How a `class_names!` argument contributes to the joined class string:
/// `None` and empty strings contribute nothing.
pub trait ClassNames {
    spec fn class_spec(&self) -> Option<Seq<char>>;

    /// The class(es) this value contributes, or `None` to contribute nothing.
    fn collect_class(&self) -> (r: Option<String>)
        ensures
            opt_str_view(r) == self.class_spec(),
    ;
}

impl ClassNames for String {
    open spec fn class_spec(&self) -> Option<Seq<char>> {
        if self@.len() == 0 {
            None
        } else {
            Some(self@)
        }
    }

    fn collect_class(&self) -> (r: Option<String>) {
        let cs = chars_of(self.as_str());
        if cs.len() == 0 {
            None
        } else {
            Some(string_of(&cs))
        }
    }
}

impl<'a> ClassNames for &'a str {
    open spec fn class_spec(&self) -> Option<Seq<char>> {
        if (*self)@.len() == 0 {
            None
        } else {
            Some((*self)@)
        }
    }

    fn collect_class(&self) -> (r: Option<String>) {
        let cs = chars_of(*self);
        if cs.len() == 0 {
            None
        } else {
            Some(string_of(&cs))
        }
    }
}

impl<T: ClassNames> ClassNames for Option<T> {
    open spec fn class_spec(&self) -> Option<Seq<char>> {
        match self {
            Some(v) => v.class_spec(),
            None => None,
        }
    }

    fn collect_class(&self) -> (r: Option<String>) {
        match self {
            Some(v) => v.collect_class(),
            None => None,
        }
    }
}

/// The contributed classes, in order.
pub open spec fn present_classes(parts: Seq<Option<String>>) -> Seq<Seq<char>>
    decreases parts.len(),
{
    if parts.len() == 0 {
        Seq::empty()
    } else {
        match parts.last() {
            Some(s) => present_classes(parts.drop_last()).push(s@),
            None => present_classes(parts.drop_last()),
        }
    }
}

/// `class_names!`: the contributed classes joined by single spaces.
pub fn join_class_names(parts: &Vec<Option<String>>) -> (r: String)
    ensures
        r@ == join(present_classes(parts@), seq![' ']),
{
    let mut out = String::new();
    let mut any = false;
    let mut i: usize = 0;
    while i < parts.len()
        invariant
            i <= parts.len(),
            any == (present_classes(parts@.subrange(0, i as int)).len() > 0),
            out@ == join(present_classes(parts@.subrange(0, i as int)), seq![' ']),
        decreases parts.len() - i,
    {
        let ghost sub = parts@.subrange(0, i as int + 1);
        assert(sub.drop_last() =~= parts@.subrange(0, i as int));
        assert(sub.last() == parts@[i as int]);
        match &parts[i] {
            Some(s) => {
                if any {
                    out.append(" ");
                    proof {
                        reveal_strlit(" ");
                    }
                }
                out.append(s.as_str());
                proof {
                    let ps = present_classes(sub);
                    assert(ps.drop_last() == present_classes(parts@.subrange(0, i as int)));
                    if ps.len() >= 2 {
                        assert(out@ =~= join(ps.drop_last(), seq![' ']) + seq![' '] + ps.last());
                    } else {
                        assert(out@ =~= ps[0]);
                    }
                }
                any = true;
            },
            None => {},
        }
        i = i + 1;
    }
    assert(parts@.subrange(0, parts.len() as int) =~= parts@);
    out
}

/// `char::is_whitespace`: the Unicode `White_Space` characters.
pub open spec fn is_ws(c: char) -> bool {
    ('\u{9}' <= c && c <= '\u{d}') || c == ' ' || c == '\u{85}' || c == '\u{a0}' || c
        == '\u{1680}' || ('\u{2000}' <= c && c <= '\u{200a}') || c == '\u{2028}' || c
        == '\u{2029}' || c == '\u{202f}' || c == '\u{205f}' || c == '\u{3000}'
}

fn is_ws_exec(c: char) -> (r: bool)
    ensures
        r == is_ws(c),
{
    ('\u{9}' <= c && c <= '\u{d}') || c == ' ' || c == '\u{85}' || c == '\u{a0}' || c
        == '\u{1680}' || ('\u{2000}' <= c && c <= '\u{200a}') || c == '\u{2028}' || c
        == '\u{2029}' || c == '\u{202f}' || c == '\u{205f}' || c == '\u{3000}'
}

/// `s` cut at every whitespace character (empty pieces kept).
pub open spec fn split_ws_raw(s: Seq<char>) -> Seq<Seq<char>>
    decreases s.len(),
{
    if s.len() == 0 {
        seq![Seq::<char>::empty()]
    } else {
        let r = split_ws_raw(s.drop_last());
        if is_ws(s.last()) {
            r.push(Seq::<char>::empty())
        } else {
            r.update(r.len() - 1, r.last().push(s.last()))
        }
    }
}

/// `str::split_whitespace`: the non-empty runs of non-whitespace.
pub open spec fn split_ws_spec(s: Seq<char>) -> Seq<Seq<char>> {
    crate::text::nonempty(split_ws_raw(s))
}

proof fn lemma_split_ws_nonempty(s: Seq<char>)
    ensures
        split_ws_raw(s).len() >= 1,
    decreases s.len(),
{
    if s.len() > 0 {
        lemma_split_ws_nonempty(s.drop_last());
    }
}

/// The whitespace-separated words of `s`.
pub fn split_whitespace(s: &str) -> (r: Vec<Vec<char>>)
    ensures
        views(r@) == split_ws_spec(s@),
{
    let cs = chars_of(s);
    let mut out: Vec<Vec<char>> = Vec::new();
    let mut cur: Vec<char> = Vec::new();
    let mut i: usize = 0;
    while i < cs.len()
        invariant
            i <= cs.len(),
            cs@ == s@,
            views(out@).push(cur@) == split_ws_raw(s@.subrange(0, i as int)),
        decreases cs.len() - i,
    {
        let c = cs[i];
        proof {
            let p = s@.subrange(0, i as int + 1);
            assert(p.drop_last() =~= s@.subrange(0, i as int));
            lemma_split_ws_nonempty(p.drop_last());
        }
        if is_ws_exec(c) {
            let done = cur;
            out.push(done);
            cur = Vec::new();
            assert(views(out@).push(cur@) =~= split_ws_raw(s@.subrange(0, i as int + 1)));
        } else {
            let ghost prev = views(out@).push(cur@);
            cur.push(c);
            assert(views(out@).push(cur@) =~= prev.update(prev.len() - 1, prev.last().push(c)));
        }
        i = i + 1;
    }
    let ghost pre = views(out@);
    out.push(cur);
    assert(s@.subrange(0, cs.len() as int) =~= s@);
    assert(views(out@) =~= split_ws_raw(s@));
    crate::text::keep_nonempty(&out)
}


/// On/off state of named classes: a later setting of a name wins.
pub open spec fn state_map(e: Seq<(String, bool)>) -> Map<Seq<char>, bool>
    decreases e.len(),
{
    if e.len() == 0 {
        Map::empty()
    } else {
        state_map(e.drop_last()).insert(e.last().0@, e.last().1)
    }
}

/// The classes of `order` that are on, in order.
pub open spec fn on_classes(order: Seq<Seq<char>>, st: Map<Seq<char>, bool>) -> Seq<Seq<char>>
    decreases order.len(),
{
    if order.len() == 0 {
        Seq::empty()
    } else if st.contains_key(order.last()) && st[order.last()] {
        on_classes(order.drop_last(), st).push(order.last())
    } else {
        on_classes(order.drop_last(), st)
    }
}

/// Every class of `order` switched on.
pub open spec fn all_on(order: Seq<Seq<char>>) -> Map<Seq<char>, bool>
    decreases order.len(),
{
    if order.len() == 0 {
        Map::empty()
    } else {
        all_on(order.drop_last()).insert(order.last(), true)
    }
}

/// The class registry of one element: a static base class list plus
/// reactively toggled classes, all written through one `className` so that
/// neither clobbers the other.
pub struct ClassRegistry {
    order: Vec<String>,
    state: Vec<(String, bool)>,
    base: Ghost<Seq<Seq<char>>>,
    toggles: Ghost<Seq<Seq<char>>>,
    history: Ghost<Seq<(Seq<char>, bool)>>,
}

pub open spec fn sviews(v: Seq<String>) -> Seq<Seq<char>> {
    v.map_values(|s: String| s@)
}

impl ClassRegistry {
    /// The base classes the registry was made with, in order.
    pub closed spec fn base(&self) -> Seq<Seq<char>> {
        self.base@
    }

    /// The toggled classes the registry was made with, in declaration order.
    pub closed spec fn toggles(&self) -> Seq<Seq<char>> {
        self.toggles@
    }

    /// Every `set` since the registry was made, in order.
    pub closed spec fn history(&self) -> Seq<(Seq<char>, bool)> {
        self.history@
    }

    /// The output order is the base classes then the toggles, and the
    /// on/off state is what the settings made of "everything on".
    pub open spec fn wf(&self) -> bool {
        &&& self.order() == self.base() + self.toggles()
        &&& self.state() == apply_sets(all_on(self.order()), self.history())
    }

    /// The class names in output order: the base classes, then the toggles
    /// in declaration order.
    pub closed spec fn order(&self) -> Seq<Seq<char>> {
        sviews(self.order@)
    }

    /// Which classes are on.
    pub closed spec fn state(&self) -> Map<Seq<char>, bool> {
        state_map(self.state@)
    }

    /// A registry for base classes `base` (whitespace separated) and the
    /// toggles `toggles`, everything initially on.
    pub fn new(base: &str, toggles: &Vec<String>) -> (r: ClassRegistry)
        ensures
            r.wf(),
            r.base() == split_ws_spec(base@),
            r.toggles() == sviews(toggles@),
            r.history() == Seq::<(Seq<char>, bool)>::empty(),
            r.order() == split_ws_spec(base@) + sviews(toggles@),
            r.state() == all_on(r.order()),
    {
        let words = split_whitespace(base);
        let mut order: Vec<String> = Vec::new();
        let mut i: usize = 0;
        while i < words.len()
            invariant
                i <= words.len(),
                sviews(order@) == views(words@).subrange(0, i as int),
            decreases words.len() - i,
        {
            let w = string_of(&words[i]);
            let ghost before = order@;
            order.push(w);
            assert(sviews(order@) =~= sviews(before).push(words@[i as int]@));
            assert(sviews(order@) =~= views(words@).subrange(0, i as int + 1));
            i = i + 1;
        }
        assert(views(words@).subrange(0, words.len() as int) =~= views(words@));
        let ghost base_part = sviews(order@);
        let mut j: usize = 0;
        while j < toggles.len()
            invariant
                j <= toggles.len(),
                base_part == split_ws_spec(base@),
                sviews(order@) == base_part + sviews(toggles@).subrange(0, j as int),
            decreases toggles.len() - j,
        {
            let t = string_of(&chars_of(toggles[j].as_str()));
            let ghost before = order@;
            order.push(t);
            assert(sviews(order@) =~= sviews(before).push(toggles@[j as int]@));
            assert(sviews(order@) =~= base_part + sviews(toggles@).subrange(0, j as int + 1));
            j = j + 1;
        }
        assert(sviews(toggles@).subrange(0, toggles.len() as int) =~= sviews(toggles@));
        let mut state: Vec<(String, bool)> = Vec::new();
        let mut k: usize = 0;
        while k < order.len()
            invariant
                k <= order.len(),
                state_map(state@) == all_on(sviews(order@).subrange(0, k as int)),
            decreases order.len() - k,
        {
            let name = string_of(&chars_of(order[k].as_str()));
            let ghost before = state@;
            state.push((name, true));
            assert(state@.drop_last() =~= before);
            let ghost sub = sviews(order@).subrange(0, k as int + 1);
            assert(sub.drop_last() =~= sviews(order@).subrange(0, k as int));
            assert(sub.last() == order@[k as int]@);
            k = k + 1;
        }
        assert(sviews(order@).subrange(0, order.len() as int) =~= sviews(order@));
        ClassRegistry {
            order,
            state,
            base: Ghost(split_ws_spec(base@)),
            toggles: Ghost(sviews(toggles@)),
            history: Ghost(Seq::empty()),
        }
    }

    /// Switches class `name` on or off.
    pub fn set(&mut self, name: &str, on: bool)
        requires
            old(self).wf(),
        ensures
            final(self).wf(),
            final(self).order() == old(self).order(),
            final(self).state() == old(self).state().insert(name@, on),
            final(self).base() == old(self).base(),
            final(self).toggles() == old(self).toggles(),
            final(self).history() == old(self).history().push((name@, on)),
    {
        let ghost h = self.history@;
        self.history = Ghost(h.push((name@, on)));
        assert(self.history@.drop_last() =~= h);
        assert(apply_sets(all_on(self.order()), self.history@) == old(self).state().insert(name@, on));
        let ghost before = self.state@;
        let key = String::from_str(name);
        let mut j: usize = self.state.len();
        while j > 0
            invariant
                j <= self.state.len(),
                self.state@ == before,
                self.order@ == old(self).order@,
                before == old(self).state@,
                self.base == old(self).base,
                self.toggles == old(self).toggles,
                self.history@ == old(self).history@.push((name@, on)),
                old(self).wf(),
                apply_sets(all_on(self.order()), self.history@) == old(self).state().insert(name@, on),
                key@ == name@,
                forall|x: int| j <= x < self.state@.len() ==> (#[trigger] self.state@[x]).0@ != name@,
            decreases j,
        {
            if self.state[j - 1].0 == key {
                proof {
                    lemma_state_update_last(before, j - 1, key, on);
                }
                self.state.set(j - 1, (key, on));
                return;
            }
            j = j - 1;
        }
        proof {
            lemma_state_prefix(before, 0, name@);
            assert(before.subrange(0, 0) =~= Seq::<(String, bool)>::empty());
        }
        self.state.push((key, on));
        assert(self.state@.drop_last() =~= before);
    }

    fn is_on(&self, name: &String) -> (r: bool)
        ensures
            r == (self.state().contains_key(name@) && self.state()[name@]),
    {
        let mut j: usize = self.state.len();
        while j > 0
            invariant
                j <= self.state.len(),
                forall|x: int| j <= x < self.state@.len() ==> (#[trigger] self.state@[x]).0@ != name@,
            decreases j,
        {
            if self.state[j - 1].0 == *name {
                proof {
                    lemma_state_prefix(self.state@, j as int, name@);
                    let e = self.state@.subrange(0, j as int);
                    assert(e.drop_last() =~= self.state@.subrange(0, j - 1));
                    assert(e.last() == self.state@[j - 1]);
                }
                return self.state[j - 1].1;
            }
            j = j - 1;
        }
        proof {
            lemma_state_prefix(self.state@, 0, name@);
            assert(self.state@.subrange(0, 0) =~= Seq::<(String, bool)>::empty());
        }
        false
    }

    /// The `className` to write: the classes that are on, in order, joined
    /// by single spaces.
    pub fn class_name(&self) -> (r: String)
        requires
            self.wf(),
        ensures
            r@ == join(on_classes(self.order(), self.state()), seq![' ']),
            (forall|k: int| 0 <= k < self.history().len() ==> !self.base().contains(
                #[trigger] self.history()[k].0,
            )) ==> r@ == join(self.base() + active_toggles(self.toggles(), self.history()), seq![' ']),
    {
        proof {
            if forall|k: int| 0 <= k < self.history().len() ==> !self.base().contains(
                #[trigger] self.history()[k].0,
            ) {
                lemma_class_list_base_then_toggles(self.base(), self.toggles(), self.history());
            }
        }
        let mut out = String::new();
        let mut any = false;
        let mut i: usize = 0;
        while i < self.order.len()
            invariant
                i <= self.order.len(),
                any == (on_classes(self.order().subrange(0, i as int), self.state()).len() > 0),
                out@ == join(on_classes(self.order().subrange(0, i as int), self.state()), seq![' ']),
            decreases self.order.len() - i,
        {
            let ghost sub = self.order().subrange(0, i as int + 1);
            assert(sub.drop_last() =~= self.order().subrange(0, i as int));
            assert(sub.last() == self.order@[i as int]@);
            if self.is_on(&self.order[i]) {
                if any {
                    out.append(" ");
                    proof {
                        reveal_strlit(" ");
                    }
                }
                out.append(self.order[i].as_str());
                proof {
                    let ps = on_classes(sub, self.state());
                    assert(ps == on_classes(self.order().subrange(0, i as int), self.state()).push(
                        self.order@[i as int]@,
                    ));
                    assert(ps.drop_last() =~= on_classes(self.order().subrange(0, i as int), self.state()));
                    if ps.len() >= 2 {
                        assert(out@ =~= join(ps.drop_last(), seq![' ']) + seq![' '] + ps.last());
                    } else {
                        assert(out@ =~= ps[0]);
                    }
                }
                any = true;
            }
            i = i + 1;
        }
        assert(self.order().subrange(0, self.order.len() as int) =~= self.order());
        out
    }
}

/// Overwriting the last setting of a name is the same as setting it anew.
proof fn lemma_state_update_last(e: Seq<(String, bool)>, j: int, key: String, on: bool)
    requires
        0 <= j < e.len(),
        e[j].0@ == key@,
        forall|x: int| j < x < e.len() ==> (#[trigger] e[x]).0@ != key@,
    ensures
        state_map(e.update(j, (key, on))) == state_map(e).insert(key@, on),
    decreases e.len(),
{
    let u = e.update(j, (key, on));
    if j == e.len() - 1 {
        assert(u.drop_last() =~= e.drop_last());
        assert(u.last() == (key, on));
        assert(state_map(u) =~= state_map(e).insert(key@, on));
    } else {
        assert(u.drop_last() =~= e.drop_last().update(j, (key, on)));
        assert(u.last() == e.last());
        assert(e.last() == e[e.len() - 1]);
        lemma_state_update_last(e.drop_last(), j, key, on);
        assert(state_map(u) =~= state_map(e).insert(key@, on));
    }
}

proof fn lemma_state_prefix(e: Seq<(String, bool)>, j: int, k: Seq<char>)
    requires
        0 <= j <= e.len(),
        forall|x: int| j <= x < e.len() ==> (#[trigger] e[x]).0@ != k,
    ensures
        state_map(e).contains_key(k) == state_map(e.subrange(0, j)).contains_key(k),
        state_map(e)[k] == state_map(e.subrange(0, j))[k],
    decreases e.len() - j,
{
    if j < e.len() {
        assert(e.drop_last().subrange(0, j) =~= e.subrange(0, j));
        lemma_state_prefix(e.drop_last(), j, k);
        assert(e.last() == e[e.len() - 1]);
    } else {
        assert(e.subrange(0, j) =~= e);
    }
}


proof fn lemma_on_classes_member(order: Seq<Seq<char>>, st: Map<Seq<char>, bool>, x: Seq<char>)
    ensures
        on_classes(order, st).contains(x) <==> (order.contains(x) && st.contains_key(x) && st[x]),
    decreases order.len(),
{
    if order.len() > 0 {
        lemma_on_classes_member(order.drop_last(), st, x);
        assert(order.contains(x) <==> (order.drop_last().contains(x) || order.last() == x)) by {
            if order.contains(x) {
                let i = choose|i: int| 0 <= i < order.len() && order[i] == x;
                if i < order.len() - 1 {
                    assert(order.drop_last()[i] == x);
                }
            }
            if order.drop_last().contains(x) {
                let i = choose|i: int| 0 <= i < order.drop_last().len() && order.drop_last()[i] == x;
                assert(order[i] == x);
            }
        }
        let prev = on_classes(order.drop_last(), st);
        if st.contains_key(order.last()) && st[order.last()] {
            assert(prev.push(order.last()).contains(x) <==> (prev.contains(x) || order.last() == x)) by {
                if prev.push(order.last()).contains(x) {
                    let i = choose|i: int| 0 <= i < prev.push(order.last()).len() && prev.push(
                        order.last(),
                    )[i] == x;
                    if i < prev.len() {
                        assert(prev[i] == x);
                    }
                }
                if prev.contains(x) {
                    let i = choose|i: int| 0 <= i < prev.len() && prev[i] == x;
                    assert(prev.push(order.last())[i] == x);
                }
                if order.last() == x {
                    assert(prev.push(order.last())[prev.len() as int] == x);
                }
            }
        }
    }
}

/// Toggling one class never affects another: after `class:name` switches,
/// every other class (the base classes included) is shown exactly when it
/// was before.
pub proof fn lemma_toggle_keeps_other_classes(
    order: Seq<Seq<char>>,
    st: Map<Seq<char>, bool>,
    name: Seq<char>,
    on: bool,
    x: Seq<char>,
)
    requires
        x != name,
    ensures
        on_classes(order, st.insert(name, on)).contains(x) == on_classes(order, st).contains(x),
{
    lemma_on_classes_member(order, st, x);
    lemma_on_classes_member(order, st.insert(name, on), x);
}

/// The on/off state after the settings `ops`, in order, starting from `st`.
pub open spec fn apply_sets(st: Map<Seq<char>, bool>, ops: Seq<(Seq<char>, bool)>) -> Map<
    Seq<char>,
    bool,
>
    decreases ops.len(),
{
    if ops.len() == 0 {
        st
    } else {
        apply_sets(st, ops.drop_last()).insert(ops.last().0, ops.last().1)
    }
}

/// The latest setting of class `t` in `ops`; a class never set is on.
pub open spec fn latest_on(ops: Seq<(Seq<char>, bool)>, t: Seq<char>) -> bool
    decreases ops.len(),
{
    if ops.len() == 0 {
        true
    } else if ops.last().0 == t {
        ops.last().1
    } else {
        latest_on(ops.drop_last(), t)
    }
}

proof fn lemma_all_on_member(order: Seq<Seq<char>>, x: Seq<char>)
    requires
        order.contains(x),
    ensures
        all_on(order).contains_key(x),
        all_on(order)[x],
    decreases order.len(),
{
    if order.last() != x {
        let i = choose|i: int| 0 <= i < order.len() && order[i] == x;
        assert(order.drop_last()[i] == x);
        lemma_all_on_member(order.drop_last(), x);
    }
}

proof fn lemma_apply_sets_at(order: Seq<Seq<char>>, ops: Seq<(Seq<char>, bool)>, x: Seq<char>)
    requires
        order.contains(x),
    ensures
        apply_sets(all_on(order), ops).contains_key(x),
        apply_sets(all_on(order), ops)[x] == latest_on(ops, x),
    decreases ops.len(),
{
    if ops.len() == 0 {
        lemma_all_on_member(order, x);
    } else {
        lemma_apply_sets_at(order, ops.drop_last(), x);
    }
}

proof fn lemma_on_classes_concat(x: Seq<Seq<char>>, y: Seq<Seq<char>>, st: Map<Seq<char>, bool>)
    ensures
        on_classes(x + y, st) == on_classes(x, st) + on_classes(y, st),
    decreases y.len(),
{
    if y.len() == 0 {
        assert(x + y =~= x);
        assert(on_classes(x, st) + on_classes(y, st) =~= on_classes(x, st));
    } else {
        assert((x + y).drop_last() =~= x + y.drop_last());
        assert((x + y).last() == y.last());
        lemma_on_classes_concat(x, y.drop_last(), st);
        assert(on_classes(x + y, st) =~= on_classes(x, st) + on_classes(y, st));
    }
}

proof fn lemma_on_classes_all(x: Seq<Seq<char>>, st: Map<Seq<char>, bool>)
    requires
        forall|i: int| 0 <= i < x.len() ==> st.contains_key(#[trigger] x[i]) && st[x[i]],
    ensures
        on_classes(x, st) == x,
    decreases x.len(),
{
    if x.len() > 0 {
        assert forall|i: int| 0 <= i < x.drop_last().len() implies st.contains_key(
            #[trigger] x.drop_last()[i],
        ) && st[x.drop_last()[i]] by {
            assert(x.drop_last()[i] == x[i]);
        }
        lemma_on_classes_all(x.drop_last(), st);
        assert(x[x.len() - 1] == x.last());
        assert(x.drop_last().push(x.last()) =~= x);
    }
}

/// The toggles of `ts`, in order, whose latest setting in `ops` is on.
pub open spec fn active_toggles(ts: Seq<Seq<char>>, ops: Seq<(Seq<char>, bool)>) -> Seq<Seq<char>>
    decreases ts.len(),
{
    if ts.len() == 0 {
        Seq::empty()
    } else if latest_on(ops, ts.last()) {
        active_toggles(ts.drop_last(), ops).push(ts.last())
    } else {
        active_toggles(ts.drop_last(), ops)
    }
}

proof fn lemma_on_classes_active(
    order: Seq<Seq<char>>,
    ts: Seq<Seq<char>>,
    ops: Seq<(Seq<char>, bool)>,
)
    requires
        forall|i: int| 0 <= i < ts.len() ==> order.contains(#[trigger] ts[i]),
    ensures
        on_classes(ts, apply_sets(all_on(order), ops)) == active_toggles(ts, ops),
    decreases ts.len(),
{
    if ts.len() > 0 {
        assert forall|i: int| 0 <= i < ts.drop_last().len() implies order.contains(
            #[trigger] ts.drop_last()[i],
        ) by {
            assert(ts.drop_last()[i] == ts[i]);
        }
        lemma_on_classes_active(order, ts.drop_last(), ops);
        assert(ts[ts.len() - 1] == ts.last());
        lemma_apply_sets_at(order, ops, ts.last());
    }
}

/// Reactive classes: however the toggles have been switched since the
/// registry was made for base classes `base` and toggles `toggles`, the
/// class list is the base classes, in order and always present, followed by
/// the toggles, in declaration order, whose latest setting is on.
pub proof fn lemma_class_list_base_then_toggles(
    base: Seq<Seq<char>>,
    toggles: Seq<Seq<char>>,
    ops: Seq<(Seq<char>, bool)>,
)
    requires
        forall|k: int| 0 <= k < ops.len() ==> !base.contains(#[trigger] ops[k].0),
    ensures
        on_classes(base + toggles, apply_sets(all_on(base + toggles), ops)) == base + on_classes(
            toggles,
            apply_sets(all_on(base + toggles), ops),
        ),
        on_classes(base + toggles, apply_sets(all_on(base + toggles), ops)) == base + active_toggles(
            toggles,
            ops,
        ),
        forall|i: int|
            0 <= i < toggles.len() ==> (on_classes(toggles, apply_sets(all_on(base + toggles), ops)).contains(
                #[trigger] toggles[i],
            ) <==> latest_on(ops, toggles[i])),
{
    let order = base + toggles;
    let st = apply_sets(all_on(order), ops);
    assert forall|i: int| 0 <= i < base.len() implies st.contains_key(#[trigger] base[i]) && st[base[i]] by {
        assert(order[i] == base[i]);
        assert(order.contains(base[i]));
        lemma_apply_sets_at(order, ops, base[i]);
        lemma_latest_untouched(ops, base, base[i]);
    }
    lemma_on_classes_all(base, st);
    lemma_on_classes_concat(base, toggles, st);
    assert forall|i: int| 0 <= i < toggles.len() implies (on_classes(toggles, st).contains(
        #[trigger] toggles[i],
    ) <==> latest_on(ops, toggles[i])) by {
        assert(order[base.len() + i] == toggles[i]);
        assert(order.contains(toggles[i]));
        assert(toggles.contains(toggles[i]));
        lemma_apply_sets_at(order, ops, toggles[i]);
        lemma_on_classes_member(toggles, st, toggles[i]);
    }
    assert forall|i: int| 0 <= i < toggles.len() implies order.contains(#[trigger] toggles[i]) by {
        assert(order[base.len() + i] == toggles[i]);
    }
    lemma_on_classes_active(order, toggles, ops);
}

proof fn lemma_latest_untouched(ops: Seq<(Seq<char>, bool)>, base: Seq<Seq<char>>, x: Seq<char>)
    requires
        base.contains(x),
        forall|k: int| 0 <= k < ops.len() ==> !base.contains(#[trigger] ops[k].0),
    ensures
        latest_on(ops, x),
    decreases ops.len(),
{
    if ops.len() > 0 {
        assert(ops.last() == ops[ops.len() - 1]);
        assert forall|k: int| 0 <= k < ops.drop_last().len() implies !base.contains(
            #[trigger] ops.drop_last()[k].0,
        ) by {
            assert(ops.drop_last()[k] == ops[k]);
        }
        lemma_latest_untouched(ops.drop_last(), base, x);
    }
}

/// Inline style declarations of one element, by property: a property set
/// again keeps its place and takes the new value.
pub struct StyleRegistry {
    entries: Vec<(String, String)>,
}

pub open spec fn style_views(e: Seq<(String, String)>) -> Seq<(Seq<char>, Seq<char>)> {
    e.map_values(|p: (String, String)| (p.0@, p.1@))
}

pub open spec fn distinct_props(e: Seq<(Seq<char>, Seq<char>)>) -> bool {
    forall|i: int, j: int| 0 <= i < j < e.len() ==> e[i].0 != e[j].0
}

/// Setting `prop` to `value`: replaces its declaration, or appends one.
pub open spec fn set_style_spec(e: Seq<(Seq<char>, Seq<char>)>, prop: Seq<char>, value: Seq<char>) -> Seq<
    (Seq<char>, Seq<char>),
> {
    if exists|i: int| 0 <= i < e.len() && e[i].0 == prop {
        e.update(choose|i: int| 0 <= i < e.len() && e[i].0 == prop, (prop, value))
    } else {
        e.push((prop, value))
    }
}

/// The `style` attribute text: `prop: value` declarations joined by `; `.
pub open spec fn css_spec(e: Seq<(Seq<char>, Seq<char>)>) -> Seq<char> {
    join(e.map_values(|p: (Seq<char>, Seq<char>)| p.0 + seq![':', ' '] + p.1), seq![';', ' '])
}

impl View for StyleRegistry {
    type V = Seq<(Seq<char>, Seq<char>)>;

    closed spec fn view(&self) -> Seq<(Seq<char>, Seq<char>)> {
        style_views(self.entries@)
    }
}

impl StyleRegistry {
    /// Each property is declared at most once (see `distinct_props`).
    pub open spec fn wf(&self) -> bool {
        distinct_props(self@)
    }

    /// No declarations.
    pub fn new() -> (r: StyleRegistry)
        ensures
            r.wf(),
            r@ == Seq::<(Seq<char>, Seq<char>)>::empty(),
    {
        let r = StyleRegistry { entries: Vec::new() };
        assert(r@ =~= Seq::<(Seq<char>, Seq<char>)>::empty());
        r
    }

    /// Sets inline style property `prop` to `value`.
    pub fn set(&mut self, prop: &str, value: &str)
        requires
            old(self).wf(),
        ensures
            final(self).wf(),
            final(self)@ == set_style_spec(old(self)@, prop@, value@),
    {
        let key = String::from_str(prop);
        let val = String::from_str(value);
        let ghost e = self@;
        let mut i: usize = 0;
        while i < self.entries.len()
            invariant
                i <= self.entries.len(),
                e == self@,
                e == old(self)@,
                distinct_props(e),
                key@ == prop@,
                val@ == value@,
                forall|j: int| 0 <= j < i ==> e[j].0 != prop@,
            decreases self.entries.len() - i,
        {
            if self.entries[i].0 == key {
                assert(e[i as int].0 == prop@);
                let ghost before_entries = self.entries@;
                self.entries.set(i, (key, val));
                assert(self.entries@ == before_entries.update(i as int, (key, val)));
                proof {
                    assert(exists|j: int| 0 <= j < e.len() && e[j].0 == prop@);
                    let c = choose|j: int| 0 <= j < e.len() && e[j].0 == prop@;
                    assert(c == i) by {
                        if c != i {
                            if c < i {
                            } else {
                                assert(e[i as int].0 != e[c].0);
                            }
                        }
                    }
                    assert(self@ =~= e.update(i as int, (prop@, value@)));
                    assert(set_style_spec(e, prop@, value@) == e.update(c, (prop@, value@)));
                    assert(e == old(self)@);
                    assert forall|a: int, b: int| 0 <= a < b < self@.len() implies self@[a].0 != self@[b].0 by {
                        if a != i && b != i {
                            assert(self@[a] == e[a] && self@[b] == e[b]);
                        } else if a == i {
                            assert(self@[b] == e[b]);
                        } else {
                            assert(self@[a] == e[a]);
                        }
                    }
                }
                return;
            }
            i = i + 1;
        }
        self.entries.push((key, val));
        assert(self@ =~= e.push((prop@, value@)));
        assert(!(exists|j: int| 0 <= j < e.len() && e[j].0 == prop@));
    }

    /// The `style` attribute text for the current declarations.
    pub fn css(&self) -> (r: String)
        ensures
            r@ == css_spec(self@),
    {
        let ghost items = self@.map_values(|p: (Seq<char>, Seq<char>)| p.0 + seq![':', ' '] + p.1);
        let mut out = String::new();
        let mut i: usize = 0;
        while i < self.entries.len()
            invariant
                i <= self.entries.len(),
                items == self@.map_values(|p: (Seq<char>, Seq<char>)| p.0 + seq![':', ' '] + p.1),
                out@ == join(items.subrange(0, i as int), seq![';', ' ']),
            decreases self.entries.len() - i,
        {
            let ghost sub = items.subrange(0, i as int + 1);
            assert(sub.drop_last() =~= items.subrange(0, i as int));
            if i > 0 {
                out.append("; ");
                proof {
                    reveal_strlit("; ");
                }
            }
            out.append(self.entries[i].0.as_str());
            out.append(": ");
            proof {
                reveal_strlit(": ");
            }
            out.append(self.entries[i].1.as_str());
            proof {
                assert(sub.last() == self@[i as int].0 + seq![':', ' '] + self@[i as int].1);
                if i > 0 {
                    assert(out@ =~= join(sub.drop_last(), seq![';', ' ']) + seq![';', ' '] + sub.last());
                } else {
                    assert(out@ =~= sub[0]);
                }
            }
            i = i + 1;
        }
        assert(items.subrange(0, self.entries.len() as int) =~= items);
        out
    }
}

/// The value declared for `prop`, if any.
pub open spec fn style_of(e: Seq<(Seq<char>, Seq<char>)>, prop: Seq<char>) -> Option<Seq<char>> {
    if exists|i: int| 0 <= i < e.len() && e[i].0 == prop {
        Some(e[choose|i: int| 0 <= i < e.len() && e[i].0 == prop].1)
    } else {
        None
    }
}

proof fn lemma_style_of_at(e: Seq<(Seq<char>, Seq<char>)>, prop: Seq<char>, i: int)
    requires
        distinct_props(e),
        0 <= i < e.len(),
        e[i].0 == prop,
    ensures
        style_of(e, prop) == Some(e[i].1),
{
    let c = choose|j: int| 0 <= j < e.len() && e[j].0 == prop;
    assert(0 <= c < e.len() && e[c].0 == prop);
    if c != i {
        if c < i {
            assert(e[c].0 != e[i].0);
        } else {
            assert(e[i].0 != e[c].0);
        }
    }
}

/// Style bindings on one element are merged: setting `prop` gives it the
/// new value and leaves every other property's value as it was.
pub proof fn lemma_style_set_merges(
    e: Seq<(Seq<char>, Seq<char>)>,
    prop: Seq<char>,
    value: Seq<char>,
    other: Seq<char>,
)
    requires
        distinct_props(e),
        other != prop,
    ensures
        distinct_props(set_style_spec(e, prop, value)),
        style_of(set_style_spec(e, prop, value), prop) == Some(value),
        style_of(set_style_spec(e, prop, value), other) == style_of(e, other),
{
    let r = set_style_spec(e, prop, value);
    if exists|i: int| 0 <= i < e.len() && e[i].0 == prop {
        let c = choose|i: int| 0 <= i < e.len() && e[i].0 == prop;
        assert(r == e.update(c, (prop, value)));
        assert forall|a: int, b: int| 0 <= a < b < r.len() implies r[a].0 != r[b].0 by {
            if a == c {
                assert(r[b] == e[b]);
            } else if b == c {
                assert(r[a] == e[a]);
            } else {
                assert(r[a] == e[a] && r[b] == e[b]);
            }
        }
        lemma_style_of_at(r, prop, c);
        if exists|i: int| 0 <= i < e.len() && e[i].0 == other {
            let k = choose|i: int| 0 <= i < e.len() && e[i].0 == other;
            assert(k != c);
            assert(r[k] == e[k]);
            lemma_style_of_at(e, other, k);
            lemma_style_of_at(r, other, k);
        } else {
            assert forall|i: int| 0 <= i < r.len() implies r[i].0 != other by {
                if i != c {
                    assert(r[i] == e[i]);
                }
            }
        }
    } else {
        assert(r == e.push((prop, value)));
        assert forall|a: int, b: int| 0 <= a < b < r.len() implies r[a].0 != r[b].0 by {
            if b == e.len() {
                assert(r[a] == e[a]);
            } else {
                assert(r[a] == e[a] && r[b] == e[b]);
            }
        }
        lemma_style_of_at(r, prop, e.len() as int);
        if exists|i: int| 0 <= i < e.len() && e[i].0 == other {
            let k = choose|i: int| 0 <= i < e.len() && e[i].0 == other;
            assert(r[k] == e[k]);
            lemma_style_of_at(e, other, k);
            lemma_style_of_at(r, other, k);
        } else {
            assert forall|i: int| 0 <= i < r.len() implies r[i].0 != other by {
                if i < e.len() {
                    assert(r[i] == e[i]);
                }
            }
        }
    }
}

/// A tag naming a component: its first character is upper case.
pub uninterp spec fn upper_case_char(c: char) -> bool;

/// `char::is_uppercase` (the Unicode `Uppercase` property). The result is
/// named `upper_case_char(c)`; stated besides: ASCII `A`-`Z` are upper case
/// and all other ASCII characters are not.
#[verifier::external_body]
fn char_is_uppercase(c: char) -> (r: bool)
    ensures
        r == upper_case_char(c),
        ('A' <= c && c <= 'Z') ==> r,
        (c < '\u{80}' && !('A' <= c && c <= 'Z')) ==> !r,
{
    c.is_uppercase()
}

/// `view!` treats a tag as a component when its first character is upper
/// case (an empty tag reads as `' '`, which is not).
pub fn is_component_tag(tag: &str) -> (r: bool)
    ensures
        r == (tag@.len() > 0 && upper_case_char(tag@[0])),
{
    let cs = chars_of(tag);
    if cs.len() == 0 {
        return false;
    }
    char_is_uppercase(cs[0])
}

/// The built-in components `view!` expands specially.
#[derive(PartialEq, Eq, Structural, Clone, Copy, Debug)]
pub enum ComponentKind {
    /// `<Show when=.. fallback=..>`: content while `when` holds.
    Show,
    /// `<Suspense loading=.. fallback=..>`: content once loading is done.
    Suspense,
    /// `<Link to=.. label=.. active_class=.. prefetch>`.
    Link,
    /// `<Head title=.. meta=..>`.
    Head,
    /// Any other component: called with its generated `<Name>Props`.
    Custom,
}

pub open spec fn component_kind_spec(name: Seq<char>) -> ComponentKind {
    if name == seq!['S', 'h', 'o', 'w'] {
        ComponentKind::Show
    } else if name == seq!['S', 'u', 's', 'p', 'e', 'n', 's', 'e'] {
        ComponentKind::Suspense
    } else if name == seq!['L', 'i', 'n', 'k'] {
        ComponentKind::Link
    } else if name == seq!['H', 'e', 'a', 'd'] {
        ComponentKind::Head
    } else {
        ComponentKind::Custom
    }
}

/// Which component a component tag names.
pub fn component_kind(name: &str) -> (r: ComponentKind)
    ensures
        r == component_kind_spec(name@),
{
    let n = chars_of(name);
    let show = vec!['S', 'h', 'o', 'w'];
    let suspense = vec!['S', 'u', 's', 'p', 'e', 'n', 's', 'e'];
    let link = vec!['L', 'i', 'n', 'k'];
    let head = vec!['H', 'e', 'a', 'd'];
    assert(show@ =~= seq!['S', 'h', 'o', 'w']);
    assert(suspense@ =~= seq!['S', 'u', 's', 'p', 'e', 'n', 's', 'e']);
    assert(link@ =~= seq!['L', 'i', 'n', 'k']);
    assert(head@ =~= seq!['H', 'e', 'a', 'd']);
    if crate::text::chars_eq(&n, &show) {
        ComponentKind::Show
    } else if crate::text::chars_eq(&n, &suspense) {
        ComponentKind::Suspense
    } else if crate::text::chars_eq(&n, &link) {
        ComponentKind::Link
    } else if crate::text::chars_eq(&n, &head) {
        ComponentKind::Head
    } else {
        ComponentKind::Custom
    }
}

/// Name of the props struct `#[component]` generates for a component:
/// `<Name>Props`.
pub fn props_type_name(name: &str) -> (r: String)
    ensures
        r@ == name@ + seq!['P', 'r', 'o', 'p', 's'],
{
    let mut s = String::from_str(name);
    s.append("Props");
    proof {
        reveal_strlit("Props");
    }
    assert(s@ =~= name@ + seq!['P', 'r', 'o', 'p', 's']);
    s
}

/// What an attribute of a component tag sets.
#[derive(PartialEq, Eq, Structural, Clone, Copy, Debug)]
pub enum PropRole {
    /// `<Show when>` / `<Suspense loading>`: the predicate.
    Predicate,
    /// `fallback` of `<Show>` / `<Suspense>`.
    Fallback,
    /// `<Link to>`.
    To,
    /// `<Link label>`.
    Label,
    /// `<Link active_class>`.
    ActiveClass,
    /// `<Link prefetch>`.
    Prefetch,
    /// `<Head title>`.
    Title,
    /// `<Head meta>`.
    Meta,
    /// `children=` of a custom component.
    Children,
    /// Any other attribute of a custom component: the props field by that name.
    Field,
    /// An attribute a built-in component does not read.
    Ignored,
}

pub open spec fn prop_role_spec(kind: ComponentKind, key: Seq<char>) -> PropRole {
    match kind {
        ComponentKind::Show | ComponentKind::Suspense => if key == seq!['w', 'h', 'e', 'n'] || key
            == seq!['l', 'o', 'a', 'd', 'i', 'n', 'g'] {
            PropRole::Predicate
        } else if key == seq!['f', 'a', 'l', 'l', 'b', 'a', 'c', 'k'] {
            PropRole::Fallback
        } else {
            PropRole::Ignored
        },
        ComponentKind::Link => if key == seq!['t', 'o'] {
            PropRole::To
        } else if key == seq!['l', 'a', 'b', 'e', 'l'] {
            PropRole::Label
        } else if key == seq!['a', 'c', 't', 'i', 'v', 'e', '_', 'c', 'l', 'a', 's', 's'] {
            PropRole::ActiveClass
        } else if key == seq!['p', 'r', 'e', 'f', 'e', 't', 'c', 'h'] {
            PropRole::Prefetch
        } else {
            PropRole::Ignored
        },
        ComponentKind::Head => if key == seq!['t', 'i', 't', 'l', 'e'] {
            PropRole::Title
        } else if key == seq!['m', 'e', 't', 'a'] {
            PropRole::Meta
        } else {
            PropRole::Ignored
        },
        ComponentKind::Custom => if key == seq!['c', 'h', 'i', 'l', 'd', 'r', 'e', 'n'] {
            PropRole::Children
        } else {
            PropRole::Field
        },
    }
}

/// What attribute `key` sets on a component of kind `kind`. When an
/// attribute is written twice, the later one wins.
pub fn prop_role(kind: ComponentKind, key: &str) -> (r: PropRole)
    ensures
        r == prop_role_spec(kind, key@),
{
    let k = chars_of(key);
    match kind {
        ComponentKind::Show | ComponentKind::Suspense => {
            let when = vec!['w', 'h', 'e', 'n'];
            let loading = vec!['l', 'o', 'a', 'd', 'i', 'n', 'g'];
            let fallback = vec!['f', 'a', 'l', 'l', 'b', 'a', 'c', 'k'];
            assert(when@ =~= seq!['w', 'h', 'e', 'n']);
            assert(loading@ =~= seq!['l', 'o', 'a', 'd', 'i', 'n', 'g']);
            assert(fallback@ =~= seq!['f', 'a', 'l', 'l', 'b', 'a', 'c', 'k']);
            if crate::text::chars_eq(&k, &when) || crate::text::chars_eq(&k, &loading) {
                PropRole::Predicate
            } else if crate::text::chars_eq(&k, &fallback) {
                PropRole::Fallback
            } else {
                PropRole::Ignored
            }
        },
        ComponentKind::Link => {
            let to = vec!['t', 'o'];
            let label = vec!['l', 'a', 'b', 'e', 'l'];
            let active = vec!['a', 'c', 't', 'i', 'v', 'e', '_', 'c', 'l', 'a', 's', 's'];
            let prefetch = vec!['p', 'r', 'e', 'f', 'e', 't', 'c', 'h'];
            assert(to@ =~= seq!['t', 'o']);
            assert(label@ =~= seq!['l', 'a', 'b', 'e', 'l']);
            assert(active@ =~= seq!['a', 'c', 't', 'i', 'v', 'e', '_', 'c', 'l', 'a', 's', 's']);
            assert(prefetch@ =~= seq!['p', 'r', 'e', 'f', 'e', 't', 'c', 'h']);
            if crate::text::chars_eq(&k, &to) {
                PropRole::To
            } else if crate::text::chars_eq(&k, &label) {
                PropRole::Label
            } else if crate::text::chars_eq(&k, &active) {
                PropRole::ActiveClass
            } else if crate::text::chars_eq(&k, &prefetch) {
                PropRole::Prefetch
            } else {
                PropRole::Ignored
            }
        },
        ComponentKind::Head => {
            let title = vec!['t', 'i', 't', 'l', 'e'];
            let meta = vec!['m', 'e', 't', 'a'];
            assert(title@ =~= seq!['t', 'i', 't', 'l', 'e']);
            assert(meta@ =~= seq!['m', 'e', 't', 'a']);
            if crate::text::chars_eq(&k, &title) {
                PropRole::Title
            } else if crate::text::chars_eq(&k, &meta) {
                PropRole::Meta
            } else {
                PropRole::Ignored
            }
        },
        ComponentKind::Custom => {
            let children = vec!['c', 'h', 'i', 'l', 'd', 'r', 'e', 'n'];
            assert(children@ =~= seq!['c', 'h', 'i', 'l', 'd', 'r', 'e', 'n']);
            if crate::text::chars_eq(&k, &children) {
                PropRole::Children
            } else {
                PropRole::Field
            }
        },
    }
}

/// The shape of one parameter of a `#[component]` function.
#[derive(Debug, PartialEq, Eq)]
pub enum ParamShape {
    /// A `self` receiver.
    Receiver,
    /// A plain identifier pattern, by name.
    Named(String),
    /// Any other pattern.
    Pattern,
}

/// Why a function cannot be a `#[component]`.
#[derive(Debug, PartialEq, Eq, Structural, Clone, Copy)]
pub enum ComponentError {
    /// The attribute was given an argument (a props type).
    PropsArgument,
    /// The parameter at this position is a `self` receiver.
    Receiver(usize),
    /// The parameter at this position is not a plain identifier.
    NotNamed(usize),
}

pub open spec fn is_named(p: ParamShape) -> bool {
    p is Named
}

pub open spec fn named_before(ps: Seq<ParamShape>, k: int) -> bool {
    forall|j: int| 0 <= j < k ==> is_named(#[trigger] ps[j])
}

/// Checks the attribute argument and the parameters of a `#[component]`
/// function: the attribute takes nothing, and every parameter is a plain
/// identifier. On success, the parameter names in order (the props
/// fields); otherwise the first offence.
pub fn check_component_params(attr_empty: bool, params: &Vec<ParamShape>) -> (r: Result<
    Vec<String>,
    ComponentError,
>)
    ensures
        !attr_empty ==> r == Err::<Vec<String>, ComponentError>(ComponentError::PropsArgument),
        attr_empty && named_before(params@, params@.len() as int) ==> r is Ok,
        r matches Ok(names) ==> attr_empty && named_before(params@, params@.len() as int)
            && names@.len() == params@.len() && forall|i: int|
            0 <= i < params@.len() ==> (params@[i] matches ParamShape::Named(n) && n@ == (
            #[trigger] names@[i])@),
        r matches Err(ComponentError::PropsArgument) ==> !attr_empty,
        r matches Err(ComponentError::Receiver(k)) ==> attr_empty && k < params@.len()
            && params@[k as int] is Receiver && named_before(params@, k as int),
        r matches Err(ComponentError::NotNamed(k)) ==> attr_empty && k < params@.len()
            && params@[k as int] is Pattern && named_before(params@, k as int),
{
    if !attr_empty {
        return Err(ComponentError::PropsArgument);
    }
    let mut names: Vec<String> = Vec::new();
    let mut i: usize = 0;
    while i < params.len()
        invariant
            attr_empty,
            i <= params.len(),
            names@.len() == i,
            named_before(params@, i as int),
            forall|j: int|
                0 <= j < i ==> (params@[j] matches ParamShape::Named(n) && n@ == (
                #[trigger] names@[j])@),
        decreases params.len() - i,
    {
        match &params[i] {
            ParamShape::Receiver => {
                return Err(ComponentError::Receiver(i));
            },
            ParamShape::Pattern => {
                return Err(ComponentError::NotNamed(i));
            },
            ParamShape::Named(n) => {
                let ghost before = names@;
                let copy = n.clone();
                assert(copy@ == n@);
                names.push(copy);
                assert(names@[i as int]@ == n@);
                assert(forall|j: int| 0 <= j < i ==> names@[j] == before[j]);
                assert(is_named(params@[i as int]));
            },
        }
        i = i + 1;
    }
    Ok(names)
}

/// `<Suspense>` shows its content when loading is over, so its predicate
/// is the negation of `loading`; `<Show>` uses `when` as is.
pub fn negates_predicate(kind: ComponentKind) -> (r: bool)
    ensures
        r == (kind == ComponentKind::Suspense),
{
    kind == ComponentKind::Suspense
}

/// How an element's class attributes are written.
pub struct ClassPlan {
    /// With `class:` toggles present: the literal base classes joined by
    /// spaces, handed to the element's class registry. `None` otherwise.
    pub static_base: Option<String>,
    /// Positions (among the base `class` attributes) written by their own
    /// reactive `class` binding.
    pub reactive_bases: Vec<usize>,
}

/// The literal base classes (positions with a known text), in order.
pub open spec fn literal_bases(bases: Seq<Option<String>>) -> Seq<Seq<char>>
    decreases bases.len(),
{
    if bases.len() == 0 {
        Seq::empty()
    } else {
        match bases.last() {
            Some(s) => literal_bases(bases.drop_last()).push(s@),
            None => literal_bases(bases.drop_last()),
        }
    }
}

/// Positions below `n` of the base class attributes with no literal text.
pub open spec fn dynamic_bases(bases: Seq<Option<String>>, n: int) -> Seq<int>
    decreases n,
{
    if n <= 0 {
        Seq::empty()
    } else if bases[n - 1] is None {
        dynamic_bases(bases, n - 1).push(n - 1)
    } else {
        dynamic_bases(bases, n - 1)
    }
}

/// Coordinates an element's `class` attributes (`bases`: the literal text
/// of each, `None` for a computed one) with its `class:` toggles: with
/// toggles, the literal bases join the class registry and only computed
/// bases get their own binding; without toggles, every base is bound
/// reactively as written.
pub fn plan_classes(bases: &Vec<Option<String>>, has_toggles: bool) -> (r: ClassPlan)
    ensures
        has_toggles ==> (r.static_base matches Some(s) && s@ == join(literal_bases(bases@), seq![' '])),
        has_toggles ==> r.reactive_bases@.map_values(|i: usize| i as int) == dynamic_bases(
            bases@,
            bases@.len() as int,
        ),
        !has_toggles ==> r.static_base is None && r.reactive_bases@.map_values(|i: usize| i as int)
            == Seq::new(bases@.len(), |i: int| i),
{
    if has_toggles {
        let static_base = join_class_names(bases);
        assert(present_classes(bases@) == literal_bases(bases@)) by {
            lemma_present_literal(bases@);
        }
        let mut dyn_idx: Vec<usize> = Vec::new();
        let mut i: usize = 0;
        while i < bases.len()
            invariant
                i <= bases.len(),
                dyn_idx@.map_values(|i: usize| i as int) == dynamic_bases(bases@, i as int),
            decreases bases.len() - i,
        {
            if bases[i].is_none() {
                let ghost before = dyn_idx@;
                dyn_idx.push(i);
                assert(dyn_idx@.map_values(|i: usize| i as int) =~= before.map_values(
                    |i: usize| i as int,
                ).push(i as int));
            }
            i = i + 1;
        }
        ClassPlan { static_base: Some(static_base), reactive_bases: dyn_idx }
    } else {
        let mut all: Vec<usize> = Vec::new();
        let mut i: usize = 0;
        while i < bases.len()
            invariant
                i <= bases.len(),
                all@.map_values(|i: usize| i as int) == Seq::new(i as nat, |k: int| k),
            decreases bases.len() - i,
        {
            let ghost before = all@.map_values(|i: usize| i as int);
            all.push(i);
            assert(all@.map_values(|i: usize| i as int) =~= before.push(i as int));
            assert(all@.map_values(|i: usize| i as int) =~= Seq::new(i as nat + 1, |k: int| k));
            i = i + 1;
        }
        ClassPlan { static_base: None, reactive_bases: all }
    }
}

proof fn lemma_present_literal(bases: Seq<Option<String>>)
    ensures
        present_classes(bases) == literal_bases(bases),
    decreases bases.len(),
{
    if bases.len() > 0 {
        lemma_present_literal(bases.drop_last());
    }
}

} // verus!
