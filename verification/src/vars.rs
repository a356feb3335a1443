//! The variable store: a mapping from variable name to resolved value,
//! kept in insertion order. Once a name is set it is reused for the rest
//! of the deployment, so the operator is never prompted twice for it.
use vstd::prelude::*;
use crate::bytes::{bytes_eq, spec_trim, trim_bytes};

verus! {

/// True for bytes that may appear in a variable name: anything but space,
/// `=`, `"`, backslash and newline, so that names survive the persisted
/// document format unescaped.
pub open spec fn name_byte_ok(b: u8) -> bool {
    b != 32 && b != 61 && b != 34 && b != 92 && b != 10
}

/// A usable variable name: non-empty, every byte a name byte.
pub open spec fn valid_name(n: Seq<u8>) -> bool {
    n.len() > 0 && forall|i: int| 0 <= i < n.len() ==> name_byte_ok(n[i])
}

/// Checks `valid_name` on a concrete byte vector.
pub fn check_valid_name(n: &Vec<u8>) -> (r: bool)
    ensures
        r == valid_name(n@),
{
    if n.len() == 0 {
        return false;
    }
    let mut i: usize = 0;
    while i < n.len()
        invariant
            i <= n.len(),
            n.len() > 0,
            forall|j: int| 0 <= j < i ==> name_byte_ok(n@[j]),
        decreases n.len() - i,
    {
        let b = n[i];
        if b == 32 || b == 61 || b == 34 || b == 92 || b == 10 {
            return false;
        }
        i += 1;
    }
    true
}

/// Well-formed entry list: names are valid and pairwise distinct.
pub open spec fn wf_entries(s: Seq<(Seq<u8>, Seq<u8>)>) -> bool {
    &&& forall|i: int| 0 <= i < s.len() ==> valid_name(#[trigger] s[i].0)
    &&& forall|i: int, j: int| 0 <= i < j < s.len() ==> s[i].0 != s[j].0
}

/// The mapping an entry list denotes; on well-formed lists every name
/// occurs once, so lookup order does not matter.
pub open spec fn map_of(s: Seq<(Seq<u8>, Seq<u8>)>) -> Map<Seq<u8>, Seq<u8>>
    decreases s.len(),
{
    if s.len() == 0 {
        Map::empty()
    } else {
        map_of(s.drop_last()).insert(s.last().0, s.last().1)
    }
}

/// A name is in the map exactly when some entry carries it.
pub proof fn lemma_map_of_contains(s: Seq<(Seq<u8>, Seq<u8>)>, k: Seq<u8>)
    ensures
        map_of(s).contains_key(k) <==> exists|i: int| 0 <= i < s.len() && s[i].0 == k,
    decreases s.len(),
{
    if s.len() > 0 {
        lemma_map_of_contains(s.drop_last(), k);
        if s.last().0 == k {
            assert(s[s.len() - 1].0 == k);
        } else if map_of(s).contains_key(k) {
            let i = choose|i: int| 0 <= i < s.drop_last().len() && s.drop_last()[i].0 == k;
            assert(s[i].0 == k);
        } else if exists|i: int| 0 <= i < s.len() && s[i].0 == k {
            let i = choose|i: int| 0 <= i < s.len() && s[i].0 == k;
            assert(0 <= i < s.len() - 1);
            assert(s.drop_last()[i].0 == k);
        }
    }
}

/// On a list with distinct names, the map's value for a name is the value
/// of the one entry that carries it.
pub proof fn lemma_map_of_index(s: Seq<(Seq<u8>, Seq<u8>)>, i: int)
    requires
        forall|p: int, q: int| 0 <= p < q < s.len() ==> s[p].0 != s[q].0,
        0 <= i < s.len(),
    ensures
        map_of(s).contains_key(s[i].0),
        map_of(s)[s[i].0] == s[i].1,
    decreases s.len(),
{
    if i == s.len() - 1 {
        lemma_map_of_contains(s, s[i].0);
    } else {
        lemma_map_of_index(s.drop_last(), i);
        assert(s.drop_last()[i] == s[i]);
        assert(s.last().0 != s[i].0);
    }
}

/// The persisted cache of resolved template variables, in the order in
/// which they were first resolved.
pub struct VarStore {
    entries: Vec<(Vec<u8>, Vec<u8>)>,
}

impl View for VarStore {
    type V = Seq<(Seq<u8>, Seq<u8>)>;

    closed spec fn view(&self) -> Seq<(Seq<u8>, Seq<u8>)> {
        Seq::new(self.entries@.len(), |i: int| (self.entries@[i].0@, self.entries@[i].1@))
    }
}

impl VarStore {
    /// Valid, duplicate-free entries.
    pub open spec fn wf(&self) -> bool {
        wf_entries(self@)
    }

    /// The mapping from names to values that this store denotes.
    pub open spec fn as_map(&self) -> Map<Seq<u8>, Seq<u8>> {
        map_of(self@)
    }

    /// An empty store: the normal state of a first run with nothing
    /// persisted yet.
    pub fn new() -> (s: VarStore)
        ensures
            s@ == Seq::<(Seq<u8>, Seq<u8>)>::empty(),
            s.wf(),
    {
        let s = VarStore { entries: Vec::new() };
        proof {
            assert(s@ =~= Seq::<(Seq<u8>, Seq<u8>)>::empty());
        }
        s
    }

    /// The number of entries.
    pub fn len(&self) -> (n: usize)
        ensures
            n == self@.len(),
    {
        self.entries.len()
    }

    /// The entry at `i`, copied out.
    pub fn entry_at(&self, i: usize) -> (e: (Vec<u8>, Vec<u8>))
        requires
            i < self@.len(),
        ensures
            e.0@ == self@[i as int].0,
            e.1@ == self@[i as int].1,
    {
        let name = copy_bytes(&self.entries[i].0);
        let value = copy_bytes(&self.entries[i].1);
        (name, value)
    }

    /// Index of the entry carrying `name`, if any.
    fn find(&self, name: &Vec<u8>) -> (r: Option<usize>)
        ensures
            match r {
                Some(i) => i < self@.len() && self@[i as int].0 == name@,
                None => forall|i: int| 0 <= i < self@.len() ==> self@[i].0 != name@,
            },
    {
        let mut i: usize = 0;
        while i < self.entries.len()
            invariant
                i <= self@.len(),
                self@.len() == self.entries@.len(),
                forall|j: int| 0 <= j < i ==> self@[j].0 != name@,
            decreases self@.len() - i,
        {
            if bytes_eq(&self.entries[i].0, name) {
                return Some(i);
            }
            i += 1;
        }
        None
    }

    /// Whether `name` has a resolved value.
    pub fn has(&self, name: &Vec<u8>) -> (r: bool)
        ensures
            r == self.as_map().contains_key(name@),
    {
        proof {
            lemma_map_of_contains(self@, name@);
        }
        match self.find(name) {
            Some(_) => true,
            None => false,
        }
    }

    /// The resolved value of `name`, if any.
    pub fn get(&self, name: &Vec<u8>) -> (r: Option<Vec<u8>>)
        requires
            self.wf(),
        ensures
            match r {
                Some(v) => self.as_map().contains_key(name@) && v@ == self.as_map()[name@],
                None => !self.as_map().contains_key(name@),
            },
    {
        proof {
            lemma_map_of_contains(self@, name@);
        }
        match self.find(name) {
            Some(i) => {
                proof {
                    lemma_map_of_index(self@, i as int);
                }
                Some(copy_bytes(&self.entries[i].1))
            },
            None => None,
        }
    }

    /// Records a resolved value. A new name is appended, keeping the order
    /// in which variables were first resolved; an existing name has its
    /// value replaced in place.
    pub fn set(&mut self, name: &Vec<u8>, value: &Vec<u8>)
        requires
            old(self).wf(),
            valid_name(name@),
        ensures
            final(self).wf(),
            final(self).as_map() == old(self).as_map().insert(name@, value@),
            old(self).as_map().contains_key(name@) ==> final(self)@.len() == old(self)@.len(),
            !old(self).as_map().contains_key(name@) ==> final(self)@ == old(self)@.push(
                (name@, value@),
            ),
    {
        proof {
            lemma_map_of_contains(self@, name@);
        }
        match self.find(name) {
            Some(i) => {
                let n = copy_bytes(name);
                let v = copy_bytes(value);
                self.entries.set(i, (n, v));
                proof {
                    let s_old = old(self)@;
                    let s_new = self@;
                    assert(s_new =~= s_old.update(i as int, (name@, value@)));
                    lemma_map_of_update(s_old, i as int, value@);
                }
            },
            None => {
                let n = copy_bytes(name);
                let v = copy_bytes(value);
                self.entries.push((n, v));
                proof {
                    let s_old = old(self)@;
                    let s_new = self@;
                    assert(s_new =~= s_old.push((name@, value@)));
                    assert(s_new.drop_last() =~= s_old);
                    assert(final(self).as_map() =~= old(self).as_map().insert(name@, value@));
                }
            },
        }
    }

    /// Records an operator's typed answer for `name`: the raw line is
    /// trimmed of surrounding whitespace before it is stored.
    pub fn record_answer(&mut self, name: &Vec<u8>, raw: &Vec<u8>)
        requires
            old(self).wf(),
            valid_name(name@),
        ensures
            final(self).wf(),
            final(self).as_map() == old(self).as_map().insert(name@, spec_trim(raw@)),
            !old(self).as_map().contains_key(name@) ==> final(self)@ == old(self)@.push(
                (name@, spec_trim(raw@)),
            ),
    {
        let v = trim_bytes(raw);
        self.set(name, &v);
    }

    /// Whether the two stores hold the same entries in the same order:
    /// the persist-if-changed comparison.
    pub fn same_entries(&self, other: &VarStore) -> (r: bool)
        ensures
            r == (self@ == other@),
    {
        if self.entries.len() != other.entries.len() {
            assert(self@.len() != other@.len());
            return false;
        }
        let mut i: usize = 0;
        while i < self.entries.len()
            invariant
                i <= self.entries@.len(),
                self.entries@.len() == other.entries@.len(),
                self@.len() == self.entries@.len(),
                other@.len() == other.entries@.len(),
                forall|j: int| 0 <= j < i ==> self@[j] == other@[j],
            decreases self.entries@.len() - i,
        {
            if !bytes_eq(&self.entries[i].0, &other.entries[i].0) {
                assert(self@[i as int].0 != other@[i as int].0);
                assert(self@[i as int] != other@[i as int]);
                return false;
            }
            if !bytes_eq(&self.entries[i].1, &other.entries[i].1) {
                assert(self@[i as int].1 != other@[i as int].1);
                assert(self@[i as int] != other@[i as int]);
                return false;
            }
            i += 1;
        }
        assert(self@ =~= other@);
        true
    }

    /// A copy of this store holding the same entries: the orchestrator's
    /// working copy, mutated during the walk while the loaded snapshot is
    /// kept for the final comparison.
    pub fn duplicate(&self) -> (r: VarStore)
        ensures
            r@ == self@,
    {
        let mut entries: Vec<(Vec<u8>, Vec<u8>)> = Vec::new();
        let mut i: usize = 0;
        while i < self.entries.len()
            invariant
                i <= self.entries@.len(),
                self@.len() == self.entries@.len(),
                entries@.len() == i,
                forall|j: int| 0 <= j < i ==> (entries@[j].0@, entries@[j].1@) == self@[j],
            decreases self.entries@.len() - i,
        {
            let n = copy_bytes(&self.entries[i].0);
            let v = copy_bytes(&self.entries[i].1);
            entries.push((n, v));
            i += 1;
        }
        let r = VarStore { entries };
        proof {
            assert(r@ =~= self@);
        }
        r
    }
}

/// Updating one entry's value updates the map at that entry's name, when
/// names are distinct.
proof fn lemma_map_of_update(s: Seq<(Seq<u8>, Seq<u8>)>, i: int, v: Seq<u8>)
    requires
        forall|p: int, q: int| 0 <= p < q < s.len() ==> s[p].0 != s[q].0,
        0 <= i < s.len(),
    ensures
        map_of(s.update(i, (s[i].0, v))) == map_of(s).insert(s[i].0, v),
    decreases s.len(),
{
    let t = s.update(i, (s[i].0, v));
    if i == s.len() - 1 {
        assert(t.drop_last() =~= s.drop_last());
        assert(map_of(t) =~= map_of(s).insert(s[i].0, v));
    } else {
        assert(t.drop_last() =~= s.drop_last().update(i, (s[i].0, v)));
        assert(s.drop_last()[i] == s[i]);
        lemma_map_of_update(s.drop_last(), i, v);
        assert(s.last().0 != s[i].0);
        assert(map_of(t) =~= map_of(s).insert(s[i].0, v));
    }
}

/// A fresh vector holding the same bytes.
pub fn copy_bytes(v: &Vec<u8>) -> (r: Vec<u8>)
    ensures
        r@ == v@,
{
    let mut out: Vec<u8> = Vec::new();
    let mut i: usize = 0;
    while i < v.len()
        invariant
            i <= v@.len(),
            out@ == v@.subrange(0, i as int),
        decreases v@.len() - i,
    {
        out.push(v[i]);
        assert(out@ =~= v@.subrange(0, i + 1));
        i += 1;
    }
    assert(out@ =~= v@);
    out
}

} // verus!
