//! The persisted variable document: one line per variable, in the stable
//! human-editable form `name = "value"`. Values are escaped so that any
//! byte sequence survives a round trip; names need no escaping because
//! the store only admits names free of the delimiter bytes.
use vstd::prelude::*;
use crate::bytes::{copy_range, push_all};
use crate::vars::{VarStore, name_byte_ok, valid_name, wf_entries};

verus! {

/// The escape of a single value byte: backslash, double quote and newline
/// are written as two-byte escapes, every other byte stands for itself.
pub open spec fn esc_byte(b: u8) -> Seq<u8> {
    if b == 92 {
        seq![92u8, 92u8]
    } else if b == 34 {
        seq![92u8, 34u8]
    } else if b == 10 {
        seq![92u8, 110u8]
    } else {
        seq![b]
    }
}

/// The escaped form of a value.
pub open spec fn esc(v: Seq<u8>) -> Seq<u8>
    decreases v.len(),
{
    if v.len() == 0 {
        Seq::empty()
    } else {
        esc_byte(v[0]) + esc(v.subrange(1, v.len() as int))
    }
}

/// Escaping distributes over appending one byte at the end.
proof fn lemma_esc_snoc(v: Seq<u8>, b: u8)
    ensures
        esc(v.push(b)) == esc(v) + esc_byte(b),
    decreases v.len(),
{
    let w = v.push(b);
    if v.len() == 0 {
        assert(w.subrange(1, w.len() as int) =~= Seq::<u8>::empty());
        assert(w[0] == b);
        assert(esc(Seq::<u8>::empty()) == Seq::<u8>::empty());
        assert(esc(w) =~= esc(v) + esc_byte(b));
    } else {
        assert(w.subrange(1, w.len() as int) =~= v.subrange(1, v.len() as int).push(b));
        lemma_esc_snoc(v.subrange(1, v.len() as int), b);
        assert(esc(w) =~= esc(v) + esc_byte(b));
    }
}

/// The document line for one entry: `name = "escaped-value"` and a
/// newline.
pub open spec fn line_of(k: Seq<u8>, v: Seq<u8>) -> Seq<u8> {
    k + seq![32u8, 61u8, 32u8, 34u8] + esc(v) + seq![34u8, 10u8]
}

/// The whole document for an entry list, one line per entry in order.
pub open spec fn doc_of(s: Seq<(Seq<u8>, Seq<u8>)>) -> Seq<u8>
    decreases s.len(),
{
    if s.len() == 0 {
        Seq::empty()
    } else {
        line_of(s[0].0, s[0].1) + doc_of(s.subrange(1, s.len() as int))
    }
}

/// The document grows by one line when the entry list grows by one entry.
proof fn lemma_doc_snoc(s: Seq<(Seq<u8>, Seq<u8>)>, e: (Seq<u8>, Seq<u8>))
    ensures
        doc_of(s.push(e)) == doc_of(s) + line_of(e.0, e.1),
    decreases s.len(),
{
    let t = s.push(e);
    if s.len() == 0 {
        assert(t.subrange(1, t.len() as int) =~= Seq::<(Seq<u8>, Seq<u8>)>::empty());
        assert(t[0] == e);
        assert(doc_of(Seq::<(Seq<u8>, Seq<u8>)>::empty()) == Seq::<u8>::empty());
        assert(doc_of(t) =~= doc_of(s) + line_of(e.0, e.1));
    } else {
        assert(t.subrange(1, t.len() as int) =~= s.subrange(1, s.len() as int).push(e));
        lemma_doc_snoc(s.subrange(1, s.len() as int), e);
        assert(t[0] == s[0]);
        assert(doc_of(t) =~= doc_of(s) + line_of(e.0, e.1));
    }
}

/// Appends the escaped form of `v` to `out`.
fn push_escaped(out: &mut Vec<u8>, v: &Vec<u8>)
    ensures
        final(out)@ == old(out)@ + esc(v@),
{
    let mut i: usize = 0;
    assert(esc(v@.subrange(0, 0)) =~= Seq::<u8>::empty());
    assert(out@ =~= out@ + esc(v@.subrange(0, 0)));
    while i < v.len()
        invariant
            i <= v@.len(),
            out@ == old(out)@ + esc(v@.subrange(0, i as int)),
        decreases v@.len() - i,
    {
        let b = v[i];
        if b == 92 {
            out.push(92);
            out.push(92);
        } else if b == 34 {
            out.push(92);
            out.push(34);
        } else if b == 10 {
            out.push(92);
            out.push(110);
        } else {
            out.push(b);
        }
        proof {
            lemma_esc_snoc(v@.subrange(0, i as int), v@[i as int]);
            assert(v@.subrange(0, i as int).push(v@[i as int]) =~= v@.subrange(0, i + 1));
            assert(out@ =~= old(out)@ + esc(v@.subrange(0, i + 1)));
        }
        i += 1;
    }
    assert(v@.subrange(0, v@.len() as int) =~= v@);
}

/// Serializes the store into its persisted document form.
pub fn serialize_store(st: &VarStore) -> (out: Vec<u8>)
    ensures
        out@ == doc_of(st@),
{
    let mut out: Vec<u8> = Vec::new();
    let n = st.len();
    let mut i: usize = 0;
    assert(st@.subrange(0, 0) =~= Seq::<(Seq<u8>, Seq<u8>)>::empty());
    while i < n
        invariant
            i <= st@.len(),
            n == st@.len(),
            out@ == doc_of(st@.subrange(0, i as int)),
        decreases n - i,
    {
        let (name, value) = st.entry_at(i);
        let ghost out0 = out@;
        push_all(&mut out, &name);
        out.push(32);
        out.push(61);
        out.push(32);
        out.push(34);
        push_escaped(&mut out, &value);
        out.push(34);
        out.push(10);
        proof {
            assert(out@ =~= out0 + line_of(st@[i as int].0, st@[i as int].1));
            lemma_doc_snoc(st@.subrange(0, i as int), st@[i as int]);
            assert(st@.subrange(0, i as int).push(st@[i as int]) =~= st@.subrange(0, i + 1));
        }
        i += 1;
    }
    assert(st@.subrange(0, st@.len() as int) =~= st@);
    out
}

/// The end of the run of name bytes starting at `i`.
pub open spec fn take_name(b: Seq<u8>, i: int) -> int
    decreases b.len() - i when 0 <= i <= b.len()
{
    if i < b.len() && name_byte_ok(b[i]) {
        take_name(b, i + 1)
    } else {
        i
    }
}

/// Reads an escaped value from `i` up to its closing quote; returns the
/// decoded bytes and the position after the quote. Fails on an untermi-
/// nated value, a raw newline, or an unknown escape.
pub open spec fn parse_val(b: Seq<u8>, i: int) -> Option<(Seq<u8>, int)>
    decreases b.len() - i when 0 <= i <= b.len()
{
    if i >= b.len() {
        None
    } else if b[i] == 34 {
        Some((Seq::empty(), i + 1))
    } else if b[i] == 10 {
        None
    } else if b[i] == 92 {
        if i + 2 > b.len() {
            None
        } else {
            let d = b[i + 1];
            if d == 92 || d == 34 {
                match parse_val(b, i + 2) {
                    None => None,
                    Some((v, k)) => Some((seq![d] + v, k)),
                }
            } else if d == 110 {
                match parse_val(b, i + 2) {
                    None => None,
                    Some((v, k)) => Some((seq![10u8] + v, k)),
                }
            } else {
                None
            }
        }
    } else {
        match parse_val(b, i + 1) {
            None => None,
            Some((v, k)) => Some((seq![b[i]] + v, k)),
        }
    }
}

/// Whether some entry of `s` carries the name `k`.
pub open spec fn entries_contain(s: Seq<(Seq<u8>, Seq<u8>)>, k: Seq<u8>) -> bool {
    exists|i: int| 0 <= i < s.len() && s[i].0 == k
}

/// The document parser: entry lines from `i` to the end of the document.
/// Fails on an empty or malformed name, a malformed value, a missing
/// newline, or a duplicated name.
pub open spec fn parse_doc_at(b: Seq<u8>, i: int) -> Option<Seq<(Seq<u8>, Seq<u8>)>>
    decreases b.len() - i when 0 <= i <= b.len()
{
    if i >= b.len() {
        Some(Seq::empty())
    } else {
        let j = take_name(b, i);
        if j <= i || j + 4 > b.len() {
            None
        } else if !(b[j] == 32 && b[j + 1] == 61 && b[j + 2] == 32 && b[j + 3] == 34) {
            None
        } else {
            match parse_val(b, j + 4) {
                None => None,
                Some((v, k)) => {
                    if k < j + 5 || k >= b.len() || b[k] != 10 {
                        None
                    } else {
                        match parse_doc_at(b, k + 1) {
                            None => None,
                            Some(rest) => {
                                let name = b.subrange(i, j);
                                if entries_contain(rest, name) {
                                    None
                                } else {
                                    Some(seq![(name, v)] + rest)
                                }
                            },
                        }
                    }
                },
            }
        }
    }
}

/// A name carried by the list `seq![e] + rest` is `e`'s or one of
/// `rest`'s.
proof fn lemma_contain_cons(e: (Seq<u8>, Seq<u8>), rest: Seq<(Seq<u8>, Seq<u8>)>, x: Seq<u8>)
    ensures
        entries_contain(seq![e] + rest, x) <==> (x == e.0 || entries_contain(rest, x)),
{
    let s = seq![e] + rest;
    if x == e.0 {
        assert(s[0].0 == x);
    }
    if entries_contain(rest, x) {
        let q = choose|q: int| 0 <= q < rest.len() && rest[q].0 == x;
        assert(s[q + 1].0 == x);
    }
    if entries_contain(s, x) && x != e.0 {
        let q = choose|q: int| 0 <= q < s.len() && s[q].0 == x;
        assert(q != 0);
        assert(rest[q - 1].0 == x);
    }
}

/// The whole document parsed from the start, stitched to an already
/// accepted prefix of entries: fails if anything ahead fails or if a name
/// ahead repeats one already taken.
spec fn glue(
    done: Seq<(Seq<u8>, Seq<u8>)>,
    rest: Option<Seq<(Seq<u8>, Seq<u8>)>>,
) -> Option<Seq<(Seq<u8>, Seq<u8>)>> {
    match rest {
        None => None,
        Some(r) => if forall|p: int| 0 <= p < done.len() ==> !entries_contain(
            r,
            #[trigger] done[p].0,
        ) {
            Some(done + r)
        } else {
            None
        },
    }
}

/// True for bytes that may appear in a variable name.
fn name_ok(b: u8) -> (r: bool)
    ensures
        r == name_byte_ok(b),
{
    b != 32 && b != 61 && b != 34 && b != 92 && b != 10
}

/// Reads an escaped value starting at `vs`: the decoded bytes and the
/// position after the closing quote.
fn scan_value(b: &Vec<u8>, vs: usize) -> (r: Option<(Vec<u8>, usize)>)
    requires
        vs <= b@.len(),
    ensures
        match r {
            Some(vk) => parse_val(b@, vs as int) == Some((vk.0@, vk.1 as int)) && vs < vk.1
                <= b@.len(),
            None => parse_val(b@, vs as int) is None,
        },
{
    let mut val: Vec<u8> = Vec::new();
    let mut p: usize = vs;
    loop
        invariant
            vs <= p <= b@.len(),
            parse_val(b@, vs as int) == (match parse_val(b@, p as int) {
                None => None::<(Seq<u8>, int)>,
                Some((v, k)) => Some((val@ + v, k)),
            }),
        decreases b@.len() - p,
    {
        if p >= b.len() {
            return None;
        }
        let c = b[p];
        if c == 34 {
            assert(parse_val(b@, p as int) == Some((Seq::<u8>::empty(), p + 1)));
            assert(val@ + Seq::<u8>::empty() =~= val@);
            return Some((val, p + 1));
        } else if c == 10 {
            return None;
        } else if c == 92 {
            if p + 1 >= b.len() {
                return None;
            }
            let d = b[p + 1];
            let ghost val0 = val@;
            if d == 92 || d == 34 {
                val.push(d);
            } else if d == 110 {
                val.push(10);
            } else {
                return None;
            }
            proof {
                let dec: u8 = if d == 110 {
                    10
                } else {
                    d
                };
                assert(val@ == val0.push(dec));
                if parse_val(b@, p + 2) is Some {
                    let (v, k) = parse_val(b@, p + 2)->Some_0;
                    assert(parse_val(b@, p as int) == Some((seq![dec] + v, k)));
                    assert(val0 + (seq![dec] + v) =~= val0.push(dec) + v);
                }
            }
            p += 2;
        } else {
            let ghost val0 = val@;
            val.push(c);
            proof {
                if parse_val(b@, p + 1) is Some {
                    let (v, k) = parse_val(b@, p + 1)->Some_0;
                    assert(parse_val(b@, p as int) == Some((seq![c] + v, k)));
                    assert(val0 + (seq![c] + v) =~= val0.push(c) + v);
                }
            }
            p += 1;
        }
    }
}

/// Parses a persisted variable document. Accepts exactly the documents
/// the spec-level parser accepts, and returns the store it denotes;
/// returns `None` on any malformed document.
pub fn parse_store(b: &Vec<u8>) -> (r: Option<VarStore>)
    ensures
        match r {
            Some(st) => st.wf() && parse_doc_at(b@, 0) == Some(st@),
            None => parse_doc_at(b@, 0) is None,
        },
{
    let mut st = VarStore::new();
    let mut i: usize = 0;
    assert(glue(st@, parse_doc_at(b@, 0)) == parse_doc_at(b@, 0)) by {
        if parse_doc_at(b@, 0) is Some {
            let r0 = parse_doc_at(b@, 0)->Some_0;
            assert(st@ + r0 =~= r0);
        }
    };
    while i < b.len()
        invariant
            i <= b@.len(),
            st.wf(),
            parse_doc_at(b@, 0) == glue(st@, parse_doc_at(b@, i as int)),
        decreases b@.len() - i,
    {
        let istart = i;
        let mut j: usize = i;
        while j < b.len() && name_ok(b[j])
            invariant
                istart <= j <= b@.len(),
                take_name(b@, istart as int) == take_name(b@, j as int),
                forall|p: int| istart <= p < j ==> name_byte_ok(b@[p]),
            decreases b@.len() - j,
        {
            j += 1;
        }
        assert(take_name(b@, j as int) == j);
        assert(take_name(b@, istart as int) == j);
        if j == istart {
            assert(parse_doc_at(b@, istart as int) is None);
            return None;
        }
        if b.len() - j < 4 {
            assert(parse_doc_at(b@, istart as int) is None);
            return None;
        }
        if !(b[j] == 32 && b[j + 1] == 61 && b[j + 2] == 32 && b[j + 3] == 34) {
            assert(parse_doc_at(b@, istart as int) is None);
            return None;
        }
        let vk = scan_value(b, j + 4);
        match vk {
            None => {
                assert(parse_doc_at(b@, istart as int) is None);
                return None;
            },
            Some((value, k)) => {
                if k >= b.len() {
                    assert(parse_doc_at(b@, istart as int) is None);
                    return None;
                }
                if b[k] != 10 {
                    assert(parse_doc_at(b@, istart as int) is None);
                    return None;
                }
                let name = copy_range(b, istart, j);
                assert(valid_name(name@));
                let ghost bs = b@;
                let ghost i0 = istart as int;
                let ghost kk = k as int;
                let ghost e = (name@, value@);
                let ghost done0 = st@;
                proof {
                    crate::vars::lemma_map_of_contains(done0, name@);
                }
                if st.has(&name) {
                    proof {
                        let p = choose|p: int| 0 <= p < done0.len() && done0[p].0 == name@;
                        let rest_opt = parse_doc_at(bs, kk + 1);
                        match rest_opt {
                            None => {
                                assert(parse_doc_at(bs, i0) is None);
                            },
                            Some(rest) => {
                                if entries_contain(rest, name@) {
                                    assert(parse_doc_at(bs, i0) is None);
                                } else {
                                    assert(parse_doc_at(bs, i0) == Some(seq![e] + rest));
                                    lemma_contain_cons(e, rest, done0[p].0);
                                    assert(entries_contain(seq![e] + rest, done0[p].0));
                                    assert(glue(done0, parse_doc_at(bs, i0)) is None);
                                }
                            },
                        }
                    }
                    return None;
                }
                st.set(&name, &value);
                i = k + 1;
                proof {
                    assert(forall|p: int|
                        0 <= p < done0.len() ==> #[trigger] done0[p].0 != name@);
                    assert(st@ == done0.push(e));
                    let rest_opt = parse_doc_at(bs, kk + 1);
                    match rest_opt {
                        None => {
                            assert(parse_doc_at(bs, i0) is None);
                        },
                        Some(rest) => {
                            if entries_contain(rest, name@) {
                                assert(parse_doc_at(bs, i0) is None);
                                assert(!(forall|p: int|
                                    0 <= p < st@.len() ==> !entries_contain(
                                        rest,
                                        #[trigger] st@[p].0,
                                    ))) by {
                                    assert(st@[done0.len() as int].0 == name@);
                                }
                            } else {
                                assert(parse_doc_at(bs, i0) == Some(seq![e] + rest));
                                assert forall|p: int| 0 <= p < done0.len() implies (
                                !entries_contain(seq![e] + rest, #[trigger] done0[p].0)
                                    <==> !entries_contain(rest, done0[p].0)) by {
                                    lemma_contain_cons(e, rest, done0[p].0);
                                }
                                assert forall|p: int|
                                    0 <= p < st@.len() && !entries_contain(
                                        seq![e] + rest,
                                        #[trigger] done0[p].0,
                                    ) implies true by {
                                }
                                if forall|p: int|
                                    0 <= p < done0.len() ==> !entries_contain(
                                        rest,
                                        #[trigger] done0[p].0,
                                    ) {
                                    assert(forall|p: int|
                                        0 <= p < done0.len() ==> !entries_contain(
                                            seq![e] + rest,
                                            #[trigger] done0[p].0,
                                        ));
                                    assert(glue(done0, parse_doc_at(bs, i0)) == Some(
                                        done0 + (seq![e] + rest),
                                    ));
                                    assert forall|p: int| 0 <= p < st@.len() implies
                                        !entries_contain(rest, #[trigger] st@[p].0) by {
                                        if p < done0.len() {
                                            assert(st@[p] == done0[p]);
                                        } else {
                                            assert(st@[p].0 == name@);
                                        }
                                    }
                                    assert(glue(st@, rest_opt) == Some(st@ + rest));
                                    assert(done0 + (seq![e] + rest) =~= st@ + rest);
                                } else {
                                    let p = choose|p: int|
                                        0 <= p < done0.len() && entries_contain(
                                            rest,
                                            done0[p].0,
                                        );
                                    lemma_contain_cons(e, rest, done0[p].0);
                                    assert(entries_contain(seq![e] + rest, done0[p].0));
                                    assert(glue(done0, parse_doc_at(bs, i0)) is None);
                                    assert(st@[p] == done0[p]);
                                    assert(glue(st@, rest_opt) is None);
                                }
                            }
                        },
                    }
                }
            },
        }
    }
    assert(parse_doc_at(b@, i as int) == Some(Seq::<(Seq<u8>, Seq<u8>)>::empty()));
    proof {
        let empty = Seq::<(Seq<u8>, Seq<u8>)>::empty();
        assert(forall|p: int| 0 <= p < st@.len() ==> !entries_contain(empty, #[trigger] st@[p].0));
        assert(st@ + empty =~= st@);
    }
    Some(st)
}

/// A maximal run of name bytes ends exactly where the run ends.
proof fn lemma_take_name_run(b: Seq<u8>, i: int, j: int)
    requires
        0 <= i <= j <= b.len(),
        forall|p: int| i <= p < j ==> name_byte_ok(b[p]),
        j == b.len() || !name_byte_ok(b[j]),
    ensures
        take_name(b, i) == j,
    decreases j - i,
{
    if i < j {
        lemma_take_name_run(b, i + 1, j);
    }
}

/// Reading a value back from its escaped form recovers it, up to the
/// closing quote that follows it.
proof fn lemma_parse_val_esc(b: Seq<u8>, i: int, v: Seq<u8>)
    requires
        0 <= i,
        i + esc(v).len() + 1 <= b.len(),
        b.subrange(i, i + esc(v).len()) == esc(v),
        b[i + esc(v).len()] == 34,
    ensures
        parse_val(b, i) == Some((v, i + esc(v).len() + 1)),
    decreases v.len(),
{
    if v.len() == 0 {
        assert(b[i] == 34);
    } else {
        let v0 = v[0];
        let vr = v.subrange(1, v.len() as int);
        let eb = esc_byte(v0);
        let el = esc(v).len() as int;
        assert(esc(v) == eb + esc(vr));
        let w = eb.len() as int;
        assert forall|q: int| 0 <= q < el implies b[i + q] == esc(v)[q] by {
            assert(b.subrange(i, i + el)[q] == esc(v)[q]);
        }
        assert forall|q: int|
            0 <= q < esc(vr).len() implies b.subrange(i + w, i + w + esc(vr).len() as int)[q]
            == esc(vr)[q] by {
            assert(b[i + w + q] == esc(v)[w + q]);
            assert(esc(v)[w + q] == esc(vr)[q]);
        }
        assert(b.subrange(i + w, i + w + esc(vr).len() as int) =~= esc(vr));
        if v0 == 92 || v0 == 34 || v0 == 10 {
            let d: u8 = if v0 == 10 {
                110
            } else {
                v0
            };
            assert(eb.len() == 2 && eb[0] == 92 && eb[1] == d);
            assert(b[i] == esc(v)[0] && b[i + 1] == esc(v)[1]);
            assert(esc(v)[0] == 92 && esc(v)[1] == d);
            lemma_parse_val_esc(b, i + 2, vr);
            assert(seq![v0] + vr =~= v);
        } else {
            assert(eb.len() == 1 && eb[0] == v0);
            assert(b[i] == esc(v)[0]);
            assert(esc(v)[0] == v0);
            lemma_parse_val_esc(b, i + 1, vr);
            assert(seq![v0] + vr =~= v);
        }
    }
}

/// Where each part of a document line stands: the name, the ` = "`
/// marker, the escaped value, the closing quote and the newline.
proof fn lemma_line_of_index(k: Seq<u8>, v: Seq<u8>)
    ensures
        line_of(k, v).len() == k.len() + 4 + esc(v).len() + 2,
        forall|q: int| 0 <= q < k.len() ==> #[trigger] line_of(k, v)[q] == k[q],
        line_of(k, v)[k.len() as int] == 32,
        line_of(k, v)[k.len() + 1int] == 61,
        line_of(k, v)[k.len() + 2int] == 32,
        line_of(k, v)[k.len() + 3int] == 34,
        forall|q: int|
            0 <= q < esc(v).len() ==> #[trigger] line_of(k, v)[k.len() + 4 + q] == esc(v)[q],
        line_of(k, v)[k.len() + 4int + esc(v).len()] == 34,
        line_of(k, v)[k.len() + 4int + esc(v).len() + 1] == 10,
{
    let m = seq![32u8, 61u8, 32u8, 34u8];
    let t = seq![34u8, 10u8];
    let line = line_of(k, v);
    assert(line == k + m + esc(v) + t);
    assert forall|q: int| 0 <= q < k.len() implies #[trigger] line[q] == k[q] by {
        assert((k + m)[q] == k[q]);
        assert((k + m + esc(v))[q] == (k + m)[q]);
        assert(line[q] == (k + m + esc(v))[q]);
    }
    assert forall|q: int| 0 <= q < 4 implies line[k.len() + q] == m[q] by {
        assert((k + m)[k.len() + q] == m[q]);
        assert((k + m + esc(v))[k.len() + q] == (k + m)[k.len() + q]);
        assert(line[k.len() + q] == (k + m + esc(v))[k.len() + q]);
    }
    assert forall|q: int|
        0 <= q < esc(v).len() implies #[trigger] line[k.len() + 4 + q] == esc(v)[q] by {
        assert((k + m + esc(v))[k.len() + 4 + q] == esc(v)[q]);
        assert(line[k.len() + 4 + q] == (k + m + esc(v))[k.len() + 4 + q]);
    }
    assert forall|q: int| 0 <= q < 2 implies line[k.len() + 4 + esc(v).len() + q] == t[q] by {
        assert(line[(k + m + esc(v)).len() + q] == t[q]);
    }
}

/// Parsing the document of a well-formed entry list, laid out from `i`
/// to the end of the input, recovers the list exactly.
proof fn lemma_parse_doc_of_at(b: Seq<u8>, i: int, s: Seq<(Seq<u8>, Seq<u8>)>)
    requires
        0 <= i <= b.len(),
        wf_entries(s),
        b.subrange(i, b.len() as int) == doc_of(s),
    ensures
        parse_doc_at(b, i) == Some(s),
    decreases s.len(),
{
    if s.len() == 0 {
        assert(b.len() - i == 0);
    } else {
        let e = s[0];
        let sr = s.subrange(1, s.len() as int);
        let nl = e.0.len() as int;
        let el = esc(e.1).len() as int;
        let line = line_of(e.0, e.1);
        let ll = line.len() as int;
        let doc = doc_of(s);
        assert(doc == line + doc_of(sr));
        lemma_line_of_index(e.0, e.1);
        assert(ll == nl + 4 + el + 2);
        assert(b.len() - i == doc.len());
        assert forall|q: int| 0 <= q < doc.len() implies b[i + q] == #[trigger] doc[q] by {
            assert(b.subrange(i, b.len() as int)[q] == doc[q]);
        }
        assert forall|q: int| 0 <= q < ll implies b[i + q] == #[trigger] line[q] by {
            assert(doc[q] == line[q]);
            assert(b[i + q] == doc[q]);
        }
        assert(valid_name(e.0));
        assert(nl >= 1);
        let j = i + nl;
        assert forall|p: int| i <= p < j implies name_byte_ok(b[p]) by {
            assert(line[p - i] == e.0[p - i]);
            assert(b[i + (p - i)] == line[p - i]);
            assert(name_byte_ok(e.0[p - i]));
        }
        assert(b[i + nl] == line[nl]);
        assert(!name_byte_ok(b[j]));
        lemma_take_name_run(b, i, j);
        assert(take_name(b, i) == j);
        assert forall|q: int| 0 <= q < nl implies b.subrange(i, j)[q] == e.0[q] by {
            assert(b[i + q] == line[q]);
            assert(line[q] == e.0[q]);
        }
        assert(b.subrange(i, j) =~= e.0);
        assert(b[i + nl] == 32);
        assert(b[i + (nl + 1)] == line[nl + 1]);
        assert(b[i + (nl + 2)] == line[nl + 2]);
        assert(b[i + (nl + 3)] == line[nl + 3]);
        assert(b[j] == 32 && b[j + 1] == 61 && b[j + 2] == 32 && b[j + 3] == 34);
        assert forall|q: int|
            0 <= q < el implies b.subrange(j + 4, j + 4 + el)[q] == esc(e.1)[q] by {
            assert(line[nl + 4 + q] == esc(e.1)[q]);
            assert(b[i + (nl + 4 + q)] == line[nl + 4 + q]);
        }
        assert(b.subrange(j + 4, j + 4 + el) =~= esc(e.1));
        assert(b[i + (nl + 4 + el)] == line[nl + 4 + el]);
        assert(b[j + 4 + el] == 34);
        lemma_parse_val_esc(b, j + 4, e.1);
        let k = j + 4 + el + 1;
        assert(parse_val(b, j + 4) == Some((e.1, k)));
        assert(b[i + (nl + 4 + el + 1)] == line[nl + 4 + el + 1]);
        assert(b[k] == 10);
        assert(k < b.len());
        assert forall|q: int|
            0 <= q < doc_of(sr).len() implies b.subrange(k + 1, b.len() as int)[q] == doc_of(
            sr,
        )[q] by {
            assert(doc[ll + q] == doc_of(sr)[q]);
            assert(b[i + (ll + q)] == doc[ll + q]);
        }
        assert(b.subrange(k + 1, b.len() as int) =~= doc_of(sr));
        assert(wf_entries(sr)) by {
            assert(forall|p: int| 0 <= p < sr.len() ==> sr[p] == #[trigger] s[p + 1]);
        }
        lemma_parse_doc_of_at(b, k + 1, sr);
        assert(!entries_contain(sr, e.0)) by {
            if entries_contain(sr, e.0) {
                let q = choose|q: int| 0 <= q < sr.len() && sr[q].0 == e.0;
                assert(s[q + 1].0 == s[0].0);
            }
        }
        assert(seq![e] + sr =~= s);
    }
}

/// The round trip of the persisted document: parsing the serialization
/// of any well-formed store recovers its entries exactly, so a rerun
/// that loads what the last run persisted sees every variable the last
/// run resolved.
pub proof fn lemma_doc_round_trip(s: Seq<(Seq<u8>, Seq<u8>)>)
    requires
        wf_entries(s),
    ensures
        parse_doc_at(doc_of(s), 0) == Some(s),
{
    let b = doc_of(s);
    assert(b.subrange(0, b.len() as int) =~= b);
    lemma_parse_doc_of_at(b, 0, s);
}

/// Serialization is injective on well-formed entry lists: stores with
/// different entries persist to different documents, so comparing
/// entries is the same as comparing document content.
pub proof fn lemma_doc_injective(a: Seq<(Seq<u8>, Seq<u8>)>, b: Seq<(Seq<u8>, Seq<u8>)>)
    requires
        wf_entries(a),
        wf_entries(b),
        doc_of(a) == doc_of(b),
    ensures
        a == b,
{
    lemma_doc_round_trip(a);
    lemma_doc_round_trip(b);
}

/// Loads a persisted variable document: the store it denotes, or an empty
/// store when the document is malformed — a first run with nothing saved
/// is a normal state, not an error.
pub fn load_store(b: &Vec<u8>) -> (r: VarStore)
    ensures
        r.wf(),
        parse_doc_at(b@, 0) is Some ==> r@ == parse_doc_at(b@, 0)->Some_0,
        parse_doc_at(b@, 0) is None ==> r@ == Seq::<(Seq<u8>, Seq<u8>)>::empty(),
{
    match parse_store(b) {
        Some(st) => st,
        None => VarStore::new(),
    }
}

} // verus!
