//! Templates: file text carrying variable references between a fixed pair
//! of delimiters. A template is parsed once, exposes the distinct variable
//! names it references in order of first occurrence, and renders against a
//! variable store by replacing each reference with the stored value.
use vstd::prelude::*;
use crate::bytes::{bytes_eq, copy_range};
use crate::vars::{VarStore, valid_name, check_valid_name};

verus! {

/// The opening variable delimiter, `(<|[`.
pub open spec fn spec_open() -> Seq<u8> {
    seq![40u8, 60u8, 124u8, 91u8]
}

/// The closing variable delimiter, `]|>)`.
pub open spec fn spec_close() -> Seq<u8> {
    seq![93u8, 124u8, 62u8, 41u8]
}

/// The opening variable delimiter, `(<|[`.
pub fn open_marker() -> (v: Vec<u8>)
    ensures
        v@ == spec_open(),
{
    let mut v: Vec<u8> = Vec::new();
    v.push(40);
    v.push(60);
    v.push(124);
    v.push(91);
    assert(v@ =~= spec_open());
    v
}

/// The closing variable delimiter, `]|>)`.
pub fn close_marker() -> (v: Vec<u8>)
    ensures
        v@ == spec_close(),
{
    let mut v: Vec<u8> = Vec::new();
    v.push(93);
    v.push(124);
    v.push(62);
    v.push(41);
    assert(v@ =~= spec_close());
    v
}

/// True when `pat` occurs in `b` starting at `i`.
pub open spec fn is_at(b: Seq<u8>, pat: Seq<u8>, i: int) -> bool {
    0 <= i && i + pat.len() <= b.len() && b.subrange(i, i + pat.len()) == pat
}

/// The first position at or after `i` where `pat` occurs in `b`.
pub open spec fn find_from(b: Seq<u8>, pat: Seq<u8>, i: int) -> Option<int>
    decreases b.len() - i when 0 <= i <= b.len() && pat.len() > 0
{
    if i + pat.len() > b.len() {
        None
    } else if is_at(b, pat, i) {
        Some(i)
    } else {
        find_from(b, pat, i + 1)
    }
}

/// One parsed piece of a template: a literal byte, or a reference to a
/// named variable.
pub enum SegSpec {
    Lit(u8),
    Var(Seq<u8>),
}

/// The template grammar, parsed from `i`: literal bytes interleaved with
/// delimited variable references. Fails when an opening delimiter has no
/// closing one after it (unbalanced), or when the name between the
/// delimiters is empty or holds a byte a name may not hold.
pub open spec fn tpl_parse_at(b: Seq<u8>, open: Seq<u8>, close: Seq<u8>, i: int) -> Option<
    Seq<SegSpec>,
>
    decreases b.len() - i when 0 <= i <= b.len() && open.len() > 0 && close.len() > 0
{
    if i >= b.len() {
        Some(Seq::empty())
    } else if is_at(b, open, i) {
        match find_from(b, close, i + open.len()) {
            None => None,
            Some(j) => {
                if j < i + open.len() || j + close.len() > b.len() {
                    None
                } else {
                    let name = b.subrange(i + open.len(), j);
                    if !valid_name(name) {
                        None
                    } else {
                        match tpl_parse_at(b, open, close, j + close.len()) {
                            None => None,
                            Some(rest) => Some(seq![SegSpec::Var(name)] + rest),
                        }
                    }
                }
            },
        }
    } else {
        match tpl_parse_at(b, open, close, i + 1) {
            None => None,
            Some(rest) => Some(seq![SegSpec::Lit(b[i])] + rest),
        }
    }
}

/// One parsed piece of a template, held at run time.
pub enum Segment {
    Lit(u8),
    Var(Vec<u8>),
}

/// The mathematical value of a run-time segment.
pub open spec fn seg_view(s: Segment) -> SegSpec {
    match s {
        Segment::Lit(c) => SegSpec::Lit(c),
        Segment::Var(n) => SegSpec::Var(n@),
    }
}

/// The mathematical value of a run-time segment list.
pub open spec fn segs_view(s: Seq<Segment>) -> Seq<SegSpec> {
    Seq::new(s.len(), |i: int| seg_view(s[i]))
}

/// A parsed template: its segments in order.
pub struct Template {
    segs: Vec<Segment>,
}

impl View for Template {
    type V = Seq<SegSpec>;

    closed spec fn view(&self) -> Seq<SegSpec> {
        segs_view(self.segs@)
    }
}

/// Every variable name a segment list references is usable as a store
/// name.
pub open spec fn wf_segs(s: Seq<SegSpec>) -> bool {
    forall|i: int| 0 <= i < s.len() ==> (#[trigger] s[i] matches SegSpec::Var(n) ==> valid_name(
        n,
    ))
}

/// The distinct variable names a segment list references, in order of
/// first occurrence.
pub open spec fn vars_of(s: Seq<SegSpec>) -> Seq<Seq<u8>>
    decreases s.len(),
{
    if s.len() == 0 {
        Seq::empty()
    } else {
        let rest = vars_of(s.drop_last());
        match s.last() {
            SegSpec::Lit(_) => rest,
            SegSpec::Var(n) => if rest.contains(n) {
                rest
            } else {
                rest.push(n)
            },
        }
    }
}

/// The bytes a segment list renders to under a variable mapping: literals
/// stand for themselves, references are replaced by the mapped value.
pub open spec fn spec_render(s: Seq<SegSpec>, m: Map<Seq<u8>, Seq<u8>>) -> Seq<u8>
    decreases s.len(),
{
    if s.len() == 0 {
        Seq::empty()
    } else {
        spec_render(s.drop_last(), m) + (match s.last() {
            SegSpec::Lit(c) => seq![c],
            SegSpec::Var(n) => m[n],
        })
    }
}

/// Every variable referenced anywhere in a segment list appears in
/// `vars_of`.
proof fn lemma_vars_of_complete(s: Seq<SegSpec>, i: int)
    requires
        0 <= i < s.len(),
        s[i] is Var,
    ensures
        vars_of(s).contains(s[i]->Var_0),
    decreases s.len(),
{
    let n = s[i]->Var_0;
    if i == s.len() - 1 {
        let rest = vars_of(s.drop_last());
        if !rest.contains(n) {
            assert(vars_of(s)[rest.len() as int] == n);
        }
    } else {
        assert(s.drop_last()[i] == s[i]);
        lemma_vars_of_complete(s.drop_last(), i);
        let rest = vars_of(s.drop_last());
        let q = choose|q: int| 0 <= q < rest.len() && rest[q] == n;
        match s.last() {
            SegSpec::Lit(_) => {},
            SegSpec::Var(x) => {
                if !rest.contains(x) {
                    assert(vars_of(s)[q] == n);
                }
            },
        }
    }
}

/// On a well-formed segment list, every name in `vars_of` is usable as a
/// store name.
proof fn lemma_vars_of_valid(s: Seq<SegSpec>)
    requires
        wf_segs(s),
    ensures
        forall|n: Seq<u8>| #[trigger] vars_of(s).contains(n) ==> valid_name(n),
    decreases s.len(),
{
    if s.len() > 0 {
        assert(wf_segs(s.drop_last())) by {
            assert(forall|i: int|
                0 <= i < s.len() - 1 ==> s.drop_last()[i] == #[trigger] s[i]);
        }
        lemma_vars_of_valid(s.drop_last());
        let rest = vars_of(s.drop_last());
        assert forall|n: Seq<u8>| #[trigger] vars_of(s).contains(n) implies valid_name(n) by {
            let q = choose|q: int| 0 <= q < vars_of(s).len() && vars_of(s)[q] == n;
            if q < rest.len() {
                assert(rest.contains(n));
            } else {
                assert(s[s.len() - 1] matches SegSpec::Var(x) && x == n);
            }
        }
    }
}

impl Template {
    /// Well-formed: every referenced name is usable as a store name.
    pub open spec fn wf(&self) -> bool {
        wf_segs(self@)
    }

    /// Parses template text against a delimiter pair. Succeeds exactly
    /// when the grammar accepts the text; fails on an opening delimiter
    /// with no closing one after it, or on an unusable variable name.
    pub fn parse(text: &Vec<u8>, open: &Vec<u8>, close: &Vec<u8>) -> (r: Option<Template>)
        requires
            open@.len() > 0,
            close@.len() > 0,
        ensures
            match r {
                Some(t) => tpl_parse_at(text@, open@, close@, 0) == Some(t@) && t.wf(),
                None => tpl_parse_at(text@, open@, close@, 0) is None,
            },
    {
        let mut segs: Vec<Segment> = Vec::new();
        let mut i: usize = 0;
        assert(segs_view(segs@) =~= Seq::<SegSpec>::empty());
        proof {
            if tpl_parse_at(text@, open@, close@, 0) is Some {
                let r0 = tpl_parse_at(text@, open@, close@, 0)->Some_0;
                assert(segs_view(segs@) + r0 =~= r0);
            }
        }
        while i < text.len()
            invariant
                i <= text@.len(),
                open@.len() > 0,
                close@.len() > 0,
                wf_segs(segs_view(segs@)),
                tpl_parse_at(text@, open@, close@, 0) == (match tpl_parse_at(
                    text@,
                    open@,
                    close@,
                    i as int,
                ) {
                    None => None::<Seq<SegSpec>>,
                    Some(rest) => Some(segs_view(segs@) + rest),
                }),
            decreases text@.len() - i,
        {
            let ghost done0 = segs_view(segs@);
            if match_at(text, open, i) {
                let vstart = i + open.len();
                let found = find_marker(text, close, vstart);
                let j = match found {
                    None => {
                        assert(tpl_parse_at(text@, open@, close@, i as int) is None);
                        return None;
                    },
                    Some(j) => j,
                };
                let name = copy_range(text, vstart, j);
                if !check_valid_name(&name) {
                    assert(tpl_parse_at(text@, open@, close@, i as int) is None);
                    return None;
                }
                let ghost nseq = name@;
                segs.push(Segment::Var(name));
                proof {
                    assert(segs_view(segs@) =~= done0.push(SegSpec::Var(nseq)));
                    let i0 = i as int;
                    match tpl_parse_at(text@, open@, close@, j + close@.len()) {
                        None => {
                            assert(tpl_parse_at(text@, open@, close@, i0) is None);
                        },
                        Some(rest) => {
                            assert(tpl_parse_at(text@, open@, close@, i0) == Some(
                                seq![SegSpec::Var(nseq)] + rest,
                            ));
                            assert(done0 + (seq![SegSpec::Var(nseq)] + rest) =~= done0.push(
                                SegSpec::Var(nseq),
                            ) + rest);
                        },
                    }
                }
                i = j + close.len();
            } else {
                let c = text[i];
                segs.push(Segment::Lit(c));
                proof {
                    assert(segs_view(segs@) =~= done0.push(SegSpec::Lit(c)));
                    let i0 = i as int;
                    match tpl_parse_at(text@, open@, close@, i0 + 1) {
                        None => {
                            assert(tpl_parse_at(text@, open@, close@, i0) is None);
                        },
                        Some(rest) => {
                            assert(tpl_parse_at(text@, open@, close@, i0) == Some(
                                seq![SegSpec::Lit(c)] + rest,
                            ));
                            assert(done0 + (seq![SegSpec::Lit(c)] + rest) =~= done0.push(
                                SegSpec::Lit(c),
                            ) + rest);
                        },
                    }
                }
                i += 1;
            }
        }
        assert(tpl_parse_at(text@, open@, close@, i as int) == Some(Seq::<SegSpec>::empty()));
        assert(segs_view(segs@) + Seq::<SegSpec>::empty() =~= segs_view(segs@));
        Some(Template { segs })
    }

    /// The distinct variable names this template references, in order of
    /// first occurrence.
    pub fn variable_names(&self) -> (r: Vec<Vec<u8>>)
        ensures
            r.deep_view() == vars_of(self@),
    {
        let mut out: Vec<Vec<u8>> = Vec::new();
        let mut i: usize = 0;
        assert(self@.subrange(0, 0) =~= Seq::<SegSpec>::empty());
        assert(out.deep_view() =~= vars_of(self@.subrange(0, 0)));
        while i < self.segs.len()
            invariant
                i <= self.segs@.len(),
                self@.len() == self.segs@.len(),
                out.deep_view() == vars_of(self@.subrange(0, i as int)),
            decreases self.segs@.len() - i,
        {
            let ghost pre = self@.subrange(0, i as int);
            let ghost post = self@.subrange(0, i + 1);
            assert(post.drop_last() =~= pre);
            assert(post.last() == self@[i as int]);
            match &self.segs[i] {
                Segment::Lit(_) => {
                    assert(self@[i as int] is Lit);
                },
                Segment::Var(n) => {
                    assert(self@[i as int] == SegSpec::Var(n@));
                    let ghost out0 = out.deep_view();
                    if !names_contain(&out, n) {
                        let copied = crate::vars::copy_bytes(n);
                        out.push(copied);
                        assert(out.deep_view() =~~= out0.push(n@));
                    }
                },
            }
            i += 1;
        }
        assert(self@.subrange(0, self@.len() as int) =~= self@);
        out
    }

    /// Renders this template against a store that resolves every
    /// referenced variable.
    pub fn render(&self, st: &VarStore) -> (out: Vec<u8>)
        requires
            st.wf(),
            forall|n: Seq<u8>| #[trigger] vars_of(self@).contains(n)
                ==> st.as_map().contains_key(n),
        ensures
            out@ == spec_render(self@, st.as_map()),
    {
        let mut out: Vec<u8> = Vec::new();
        let mut i: usize = 0;
        assert(self@.subrange(0, 0) =~= Seq::<SegSpec>::empty());
        while i < self.segs.len()
            invariant
                i <= self.segs@.len(),
                self@.len() == self.segs@.len(),
                st.wf(),
                forall|n: Seq<u8>| #[trigger] vars_of(self@).contains(n)
                    ==> st.as_map().contains_key(n),
                out@ == spec_render(self@.subrange(0, i as int), st.as_map()),
            decreases self.segs@.len() - i,
        {
            let ghost pre = self@.subrange(0, i as int);
            let ghost post = self@.subrange(0, i + 1);
            assert(post.drop_last() =~= pre);
            assert(post.last() == self@[i as int]);
            match &self.segs[i] {
                Segment::Lit(c) => {
                    out.push(*c);
                    assert(self@[i as int] == SegSpec::Lit(*c));
                },
                Segment::Var(n) => {
                    assert(self@[i as int] == SegSpec::Var(n@));
                    proof {
                        lemma_vars_of_complete(self@, i as int);
                    }
                    let v = st.get(n);
                    match v {
                        Some(v) => {
                            crate::bytes::push_all(&mut out, &v);
                        },
                        None => {
                            proof {
                                assert(false);
                            }
                        },
                    }
                },
            }
            i += 1;
        }
        assert(self@.subrange(0, self@.len() as int) =~= self@);
        out
    }
}

/// Whether a name list holds `x`.
fn names_contain(v: &Vec<Vec<u8>>, x: &Vec<u8>) -> (r: bool)
    ensures
        r == v.deep_view().contains(x@),
{
    let mut i: usize = 0;
    while i < v.len()
        invariant
            i <= v@.len(),
            forall|j: int| 0 <= j < i ==> v.deep_view()[j] != x@,
        decreases v@.len() - i,
    {
        let hit = bytes_eq(&v[i], x);
        proof {
            assert(v@[i as int].deep_view() =~= v@[i as int]@);
            assert(v.deep_view()[i as int] == v@[i as int].deep_view());
        }
        if hit {
            assert(v.deep_view()[i as int] == x@);
            return true;
        }
        i += 1;
    }
    assert(forall|j: int| 0 <= j < v.deep_view().len() ==> v.deep_view()[j] != x@);
    false
}

/// The names of `vars` that the mapping does not resolve, in order: the
/// names the operator will be prompted for.
pub open spec fn spec_missing(vars: Seq<Seq<u8>>, m: Map<Seq<u8>, Seq<u8>>) -> Seq<Seq<u8>>
    decreases vars.len(),
{
    if vars.len() == 0 {
        Seq::empty()
    } else {
        let rest = spec_missing(vars.drop_last(), m);
        if m.contains_key(vars.last()) {
            rest
        } else {
            rest.push(vars.last())
        }
    }
}

/// Every missing name is a variable of the list it was filtered from.
proof fn lemma_missing_subset(vars: Seq<Seq<u8>>, m: Map<Seq<u8>, Seq<u8>>, v: Seq<u8>)
    requires
        spec_missing(vars, m).contains(v),
    ensures
        vars.contains(v),
    decreases vars.len(),
{
    if vars.len() > 0 {
        let rest = spec_missing(vars.drop_last(), m);
        let cur = spec_missing(vars, m);
        let q = choose|q: int| 0 <= q < cur.len() && cur[q] == v;
        if !m.contains_key(vars.last()) && q == rest.len() {
            assert(vars[vars.len() - 1] == v);
        } else {
            assert(rest[q] == v);
            assert(rest.contains(v));
            lemma_missing_subset(vars.drop_last(), m, v);
            let w = choose|w: int| 0 <= w < vars.drop_last().len() && vars.drop_last()[w] == v;
            assert(vars[w] == v);
        }
    }
}

/// The variables of `t` that `st` does not resolve, in order of first
/// occurrence in the template. On a well-formed template every returned
/// name is usable as a store name, so each answer can be recorded.
pub fn missing_from(t: &Template, st: &VarStore) -> (r: Vec<Vec<u8>>)
    ensures
        r.deep_view() == spec_missing(vars_of(t@), st.as_map()),
        t.wf() ==> forall|q: int|
            0 <= q < r.deep_view().len() ==> valid_name(#[trigger] r.deep_view()[q]),
{
    proof {
        if t.wf() {
            lemma_vars_of_valid(t@);
            assert forall|q: int|
                0 <= q < spec_missing(vars_of(t@), st.as_map()).len() implies valid_name(
                #[trigger] spec_missing(vars_of(t@), st.as_map())[q],
            ) by {
                let v = spec_missing(vars_of(t@), st.as_map())[q];
                assert(spec_missing(vars_of(t@), st.as_map()).contains(v));
                lemma_missing_subset(vars_of(t@), st.as_map(), v);
            }
        }
    }
    let names = t.variable_names();
    let mut out: Vec<Vec<u8>> = Vec::new();
    let mut i: usize = 0;
    assert(names.deep_view().subrange(0, 0) =~= Seq::<Seq<u8>>::empty());
    assert(out.deep_view() =~= spec_missing(names.deep_view().subrange(0, 0), st.as_map()));
    while i < names.len()
        invariant
            i <= names@.len(),
            names.deep_view().len() == names@.len(),
            out.deep_view() == spec_missing(names.deep_view().subrange(0, i as int), st.as_map()),
        decreases names@.len() - i,
    {
        let ghost pre = names.deep_view().subrange(0, i as int);
        let ghost post = names.deep_view().subrange(0, i + 1);
        assert(post.drop_last() =~= pre);
        assert(post.last() == names.deep_view()[i as int]);
        let ghost out0 = out.deep_view();
        proof {
            assert(names@[i as int].deep_view() =~= names@[i as int]@);
            assert(names.deep_view()[i as int] == names@[i as int].deep_view());
        }
        if !st.has(&names[i]) {
            let copied = crate::vars::copy_bytes(&names[i]);
            out.push(copied);
            assert(out.deep_view() =~~= out0.push(names.deep_view()[i as int]));
        }
        i += 1;
    }
    assert(names.deep_view().subrange(0, names.deep_view().len() as int) =~= names.deep_view());
    out
}

/// Renders `t` against `st` when the store resolves every variable the
/// template references, and reports failure otherwise: rendering is owed
/// exactly when nothing is missing.
pub fn render_if_resolved(t: &Template, st: &VarStore) -> (r: Option<Vec<u8>>)
    requires
        st.wf(),
    ensures
        r is Some <==> spec_missing(vars_of(t@), st.as_map()).len() == 0,
        r matches Some(out) ==> out@ == spec_render(t@, st.as_map()),
{
    let missing = missing_from(t, st);
    if missing.len() == 0 {
        proof {
            assert forall|n: Seq<u8>| #[trigger] vars_of(t@).contains(n) implies
                st.as_map().contains_key(n) by {
                lemma_missing_covers(vars_of(t@), st.as_map(), n);
            }
        }
        Some(t.render(st))
    } else {
        None
    }
}

/// A variable the store already resolves is never prompted for: it never
/// appears among the missing names, however many templates reference it.
pub proof fn lemma_no_prompt_for_known(vars: Seq<Seq<u8>>, m: Map<Seq<u8>, Seq<u8>>, v: Seq<u8>)
    requires
        m.contains_key(v),
    ensures
        !spec_missing(vars, m).contains(v),
    decreases vars.len(),
{
    if vars.len() > 0 {
        lemma_no_prompt_for_known(vars.drop_last(), m, v);
        let rest = spec_missing(vars.drop_last(), m);
        if !m.contains_key(vars.last()) {
            assert forall|q: int|
                0 <= q < rest.push(vars.last()).len() implies rest.push(vars.last())[q]
                != v by {
                if q < rest.len() {
                    assert(!rest.contains(v));
                } else {
                    assert(rest.push(vars.last())[q] == vars.last());
                }
            }
        }
    }
}

/// When the store resolves every variable of the list, nothing is
/// missing: a rerun with a fully populated store prompts for nothing.
pub proof fn lemma_missing_empty_when_all_known(vars: Seq<Seq<u8>>, m: Map<Seq<u8>, Seq<u8>>)
    requires
        forall|n: Seq<u8>| #[trigger] vars.contains(n) ==> m.contains_key(n),
    ensures
        spec_missing(vars, m) == Seq::<Seq<u8>>::empty(),
    decreases vars.len(),
{
    if vars.len() > 0 {
        assert(vars.contains(vars.last()));
        assert(forall|n: Seq<u8>| #[trigger] vars.drop_last().contains(n) ==> vars.contains(n))
            by {
            assert forall|n: Seq<u8>| #[trigger] vars.drop_last().contains(n) implies
                vars.contains(n) by {
                let q = choose|q: int|
                    0 <= q < vars.drop_last().len() && vars.drop_last()[q] == n;
                assert(vars[q] == n);
            }
        }
        lemma_missing_empty_when_all_known(vars.drop_last(), m);
    }
}

/// Every variable of the list is either already resolved or among the
/// missing names: resolving exactly the missing names resolves them all.
pub proof fn lemma_missing_covers(vars: Seq<Seq<u8>>, m: Map<Seq<u8>, Seq<u8>>, v: Seq<u8>)
    requires
        vars.contains(v),
    ensures
        m.contains_key(v) || spec_missing(vars, m).contains(v),
    decreases vars.len(),
{
    if vars.len() > 0 && !m.contains_key(v) {
        let rest = spec_missing(vars.drop_last(), m);
        if vars.last() == v {
            assert(rest.push(v)[rest.len() as int] == v);
        } else {
            let q = choose|q: int| 0 <= q < vars.len() && vars[q] == v;
            assert(q < vars.len() - 1);
            assert(vars.drop_last()[q] == v);
            assert(vars.drop_last().contains(v));
            lemma_missing_covers(vars.drop_last(), m, v);
            let w = choose|w: int| 0 <= w < rest.len() && rest[w] == v;
            if !m.contains_key(vars.last()) {
                assert(rest.push(vars.last())[w] == v);
            }
        }
    }
}

/// The mapping after recording one answer per prompted name, in order.
pub open spec fn apply_answers(
    m: Map<Seq<u8>, Seq<u8>>,
    names: Seq<Seq<u8>>,
    vals: Seq<Seq<u8>>,
) -> Map<Seq<u8>, Seq<u8>>
    decreases names.len(),
{
    if names.len() == 0 || vals.len() == 0 {
        m
    } else {
        apply_answers(
            m.insert(names[0], vals[0]),
            names.subrange(1, names.len() as int),
            vals.subrange(1, vals.len() as int),
        )
    }
}

/// Recording answers only adds names: everything resolved before, and
/// every answered name, is resolved afterwards.
pub proof fn lemma_apply_answers_contains(
    m: Map<Seq<u8>, Seq<u8>>,
    names: Seq<Seq<u8>>,
    vals: Seq<Seq<u8>>,
    v: Seq<u8>,
)
    requires
        vals.len() == names.len(),
        m.contains_key(v) || names.contains(v),
    ensures
        apply_answers(m, names, vals).contains_key(v),
    decreases names.len(),
{
    if names.len() > 0 {
        let m1 = m.insert(names[0], vals[0]);
        let names1 = names.subrange(1, names.len() as int);
        let vals1 = vals.subrange(1, vals.len() as int);
        if m.contains_key(v) || names[0] == v {
            lemma_apply_answers_contains(m1, names1, vals1, v);
        } else {
            let q = choose|q: int| 0 <= q < names.len() && names[q] == v;
            assert(q > 0);
            assert(names1[q - 1] == v);
            assert(names1.contains(v));
            lemma_apply_answers_contains(m1, names1, vals1, v);
        }
    }
}

/// Deploying twice in a row is idempotent for templates: after a first
/// run answers every prompted name, a second run with the resulting store
/// prompts for nothing and leaves the store unchanged, so it renders
/// byte-identical output from the same template and mapping.
pub proof fn lemma_second_run_prompts_nothing(
    t: Seq<SegSpec>,
    m0: Map<Seq<u8>, Seq<u8>>,
    vals: Seq<Seq<u8>>,
)
    requires
        vals.len() == spec_missing(vars_of(t), m0).len(),
    ensures
        ({
            let m1 = apply_answers(m0, spec_missing(vars_of(t), m0), vals);
            &&& forall|n: Seq<u8>| #[trigger] vars_of(t).contains(n) ==> m1.contains_key(n)
            &&& spec_missing(vars_of(t), m1) == Seq::<Seq<u8>>::empty()
        }),
{
    let vars = vars_of(t);
    let missing = spec_missing(vars, m0);
    let m1 = apply_answers(m0, missing, vals);
    assert forall|n: Seq<u8>| #[trigger] vars.contains(n) implies m1.contains_key(n) by {
        lemma_missing_covers(vars, m0, n);
        lemma_apply_answers_contains(m0, missing, vals, n);
    }
    lemma_missing_empty_when_all_known(vars, m1);
}

/// The first position at or after `from` where `pat` occurs in `text`.
fn find_marker(text: &Vec<u8>, pat: &Vec<u8>, from: usize) -> (r: Option<usize>)
    requires
        pat@.len() > 0,
        from <= text@.len(),
    ensures
        match r {
            Some(j) => find_from(text@, pat@, from as int) == Some(j as int) && from <= j && j
                + pat@.len() <= text@.len() && is_at(text@, pat@, j as int),
            None => find_from(text@, pat@, from as int) is None,
        },
{
    let mut j: usize = from;
    loop
        invariant
            from <= j <= text@.len(),
            pat@.len() > 0,
            find_from(text@, pat@, from as int) == find_from(text@, pat@, j as int),
        decreases text@.len() - j,
    {
        if pat.len() > text.len() - j {
            assert(find_from(text@, pat@, j as int) is None);
            return None;
        }
        if match_at(text, pat, j) {
            assert(find_from(text@, pat@, j as int) == Some(j as int));
            return Some(j);
        }
        j += 1;
    }
}

/// True when `pat` occurs in `text` at position `i`.
fn match_at(text: &Vec<u8>, pat: &Vec<u8>, i: usize) -> (r: bool)
    ensures
        r == is_at(text@, pat@, i as int),
{
    if i > text.len() || text.len() - i < pat.len() {
        return false;
    }
    let mut p: usize = 0;
    while p < pat.len()
        invariant
            p <= pat@.len(),
            i + pat@.len() <= text@.len(),
            text@.len() <= usize::MAX,
            forall|q: int| 0 <= q < p ==> text@[i + q] == pat@[q],
        decreases pat@.len() - p,
    {
        if text[i + p] != pat[p] {
            assert(text@.subrange(i as int, i + pat@.len())[p as int] != pat@[p as int]);
            return false;
        }
        p += 1;
    }
    assert(text@.subrange(i as int, i + pat@.len()) =~= pat@);
    true
}

} // verus!
