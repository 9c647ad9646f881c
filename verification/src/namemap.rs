use crate::text::str_eq;
use vstd::prelude::*;

verus! {

/// The first position in `s` whose key reads `name`, or `s.len()` when no key
/// does.
pub open spec fn first_key_index<V>(s: Seq<(String, V)>, name: Seq<char>) -> int
    decreases s.len(),
{
    if s.len() == 0 {
        0
    } else if s[0].0@ == name {
        0
    } else {
        1 + first_key_index(s.subrange(1, s.len() as int), name)
    }
}

/// What [`first_key_index`] promises: it is in bounds, it is the first match,
/// and it is `s.len()` exactly when no key matches.
pub proof fn lemma_first_key_index<V>(s: Seq<(String, V)>, name: Seq<char>)
    ensures
        0 <= first_key_index(s, name) <= s.len(),
        first_key_index(s, name) < s.len() ==> s[first_key_index(s, name)].0@ == name,
        forall|j: int| 0 <= j < first_key_index(s, name) ==> (#[trigger] s[j]).0@ != name,
    decreases s.len(),
{
    if s.len() > 0 && s[0].0@ != name {
        let t = s.subrange(1, s.len() as int);
        lemma_first_key_index(t, name);
        assert forall|j: int| 0 <= j < first_key_index(s, name) implies (#[trigger] s[j]).0@
            != name by {
            if j >= 1 {
                assert(s[j] == t[j - 1]);
                assert(t[j - 1].0@ != name);
            }
        }
    }
}

/// Two tables whose keys read alike, position for position, contain exactly
/// the same names.
pub proof fn lemma_same_keys_contains<V>(a: NameMap<V>, b: NameMap<V>, name: Seq<char>)
    requires
        b.entries@.len() == a.entries@.len(),
        forall|i: int|
            0 <= i < a.entries@.len() ==> (#[trigger] b.entries@[i]).0@ == a.entries@[i].0@,
    ensures
        a.contains_key(name) == b.contains_key(name),
{
    if a.contains_key(name) {
        let w = choose|w: int| 0 <= w < a.entries@.len() && (#[trigger] a.entries@[w]).0@ == name;
        assert(b.entries@[w].0@ == name);
    }
    if b.contains_key(name) {
        let w = choose|w: int| 0 <= w < b.entries@.len() && (#[trigger] b.entries@[w]).0@ == name;
        assert(a.entries@[w].0@ == name);
    }
}

/// The first matching position depends only on how the keys read, so two
/// tables whose keys agree position for position answer alike.
pub proof fn lemma_first_key_index_same_keys<V>(
    a: Seq<(String, V)>,
    b: Seq<(String, V)>,
    name: Seq<char>,
)
    requires
        b.len() == a.len(),
        forall|i: int| 0 <= i < a.len() ==> (#[trigger] b[i]).0@ == a[i].0@,
    ensures
        first_key_index(a, name) == first_key_index(b, name),
    decreases a.len(),
{
    if a.len() > 0 && a[0].0@ != name {
        let ta = a.subrange(1, a.len() as int);
        let tb = b.subrange(1, b.len() as int);
        lemma_first_key_index_same_keys(ta, tb, name);
    }
}

/// The first position of `name` in a view-level table, or its length.
pub open spec fn view_key_index<T>(m: Seq<(Seq<char>, T)>, name: Seq<char>) -> int
    decreases m.len(),
{
    if m.len() == 0 {
        0
    } else if m[0].0 == name {
        0
    } else {
        1 + view_key_index(m.subrange(1, m.len() as int), name)
    }
}

/// Whether a view-level table holds `name`.
pub open spec fn view_contains<T>(m: Seq<(Seq<char>, T)>, name: Seq<char>) -> bool {
    exists|q: int| 0 <= q < m.len() && (#[trigger] m[q]).0 == name
}

/// Insert-or-replace on a view-level table: the first entry so named is
/// replaced in place, or a new entry is appended.
pub open spec fn view_insert<T>(m: Seq<(Seq<char>, T)>, name: Seq<char>, v: T) -> Seq<
    (Seq<char>, T),
> {
    if view_contains(m, name) {
        m.update(view_key_index(m, name), (name, v))
    } else {
        m.push((name, v))
    }
}

/// What [`view_key_index`] promises, and its agreement with
/// [`view_contains`].
pub proof fn lemma_view_key_index<T>(m: Seq<(Seq<char>, T)>, name: Seq<char>)
    ensures
        0 <= view_key_index(m, name) <= m.len(),
        view_key_index(m, name) < m.len() ==> m[view_key_index(m, name)].0 == name,
        forall|j: int| 0 <= j < view_key_index(m, name) ==> (#[trigger] m[j]).0 != name,
        (view_key_index(m, name) < m.len()) == view_contains(m, name),
    decreases m.len(),
{
    if m.len() > 0 && m[0].0 != name {
        let t = m.subrange(1, m.len() as int);
        lemma_view_key_index(t, name);
        assert forall|j: int|
            0 <= j < view_key_index(m, name) implies (#[trigger] m[j]).0 != name by {
            if j >= 1 {
                assert(m[j] == t[j - 1]);
            }
        }
        if view_contains(m, name) {
            let w = choose|w: int| 0 <= w < m.len() && (#[trigger] m[w]).0 == name;
            assert(t[w - 1].0 == name);
        }
        if view_contains(t, name) {
            let w = choose|w: int| 0 <= w < t.len() && (#[trigger] t[w]).0 == name;
            assert(m[w + 1].0 == name);
        }
    }
}

/// A view-level table whose keys agree position for position with a stored
/// table answers its first match at the same place.
pub proof fn lemma_view_key_index_matches<V, T>(
    entries: Seq<(String, V)>,
    m: Seq<(Seq<char>, T)>,
    name: Seq<char>,
)
    requires
        m.len() == entries.len(),
        forall|i: int| 0 <= i < entries.len() ==> (#[trigger] m[i]).0 == entries[i].0@,
    ensures
        view_key_index(m, name) == first_key_index(entries, name),
    decreases entries.len(),
{
    if entries.len() > 0 && entries[0].0@ != name {
        let te = entries.subrange(1, entries.len() as int);
        let tm = m.subrange(1, m.len() as int);
        lemma_view_key_index_matches(te, tm, name);
    }
}

/// A name-keyed table that keeps insertion order.
///
/// The parser's collections are keyed by identifier text and written once per
/// parse; where the order of entries matters (schedule tables, frame signal
/// lists) the order of first insertion is the order kept.  Well-formed tables
/// hold each name at most once.
#[derive(Debug)]
pub struct NameMap<V> {
    pub entries: Vec<(String, V)>,
}

impl<V> NameMap<V> {
    /// Unique keys, compared by their text.
    pub open spec fn wf(self) -> bool {
        forall|i: int, j: int|
            0 <= i < j < self.entries@.len() ==> (#[trigger] self.entries@[i]).0@ != (
            #[trigger] self.entries@[j]).0@
    }

    pub open spec fn contains_key(self, name: Seq<char>) -> bool {
        exists|i: int|
            0 <= i < self.entries@.len() && (#[trigger] self.entries@[i]).0@ == name
    }

    pub open spec fn key_index(self, name: Seq<char>) -> int {
        first_key_index(self.entries@, name)
    }

    /// The value first stored under `name`.
    pub open spec fn spec_get(self, name: Seq<char>) -> V
        recommends
            self.contains_key(name),
    {
        self.entries@[self.key_index(name)].1
    }

    pub fn new() -> (r: NameMap<V>)
        ensures
            r.entries@ =~= Seq::<(String, V)>::empty(),
            r.wf(),
    {
        NameMap { entries: Vec::new() }
    }

    /// The position of the first entry named `name`, if any.
    pub fn index_of(&self, name: &str) -> (r: Option<usize>)
        ensures
            match r {
                Some(i) => {
                    &&& i < self.entries@.len()
                    &&& self.entries@[i as int].0@ == name@
                    &&& i == self.key_index(name@)
                    &&& self.contains_key(name@)
                },
                None => !self.contains_key(name@),
            },
    {
        let n = self.entries.len();
        let mut i: usize = 0;
        while i < n
            invariant
                i <= n,
                n == self.entries@.len(),
                forall|j: int| 0 <= j < i ==> (#[trigger] self.entries@[j]).0@ != name@,
            decreases n - i,
        {
            if str_eq(self.entries[i].0.as_str(), name) {
                proof {
                    lemma_first_key_index(self.entries@, name@);
                }
                return Some(i);
            }
            i = i + 1;
        }
        None
    }

    pub fn contains(&self, name: &str) -> (r: bool)
        ensures
            r == self.contains_key(name@),
    {
        match self.index_of(name) {
            Some(_) => true,
            None => false,
        }
    }

    pub fn get(&self, name: &str) -> (r: Option<&V>)
        ensures
            match r {
                Some(v) => self.contains_key(name@) && *v == self.spec_get(name@),
                None => !self.contains_key(name@),
            },
    {
        match self.index_of(name) {
            Some(i) => Some(&self.entries[i].1),
            None => None,
        }
    }

    /// Stores `val` under `name`: the first entry so named is replaced in
    /// place, or a new entry is appended.  Every other entry is untouched.
    pub fn insert(&mut self, name: String, val: V)
        ensures
            if old(self).contains_key(name@) {
                final(self).entries@ == old(self).entries@.update(
                    old(self).key_index(name@),
                    (name, val),
                )
            } else {
                final(self).entries@ == old(self).entries@.push((name, val))
            },
            final(self).contains_key(name@),
            final(self).spec_get(name@) == val,
            old(self).wf() ==> final(self).wf(),
            forall|n2: Seq<char>|
                #[trigger] final(self).contains_key(n2) <==> (old(self).contains_key(n2) || n2
                    == name@),
    {
        proof {
            lemma_first_key_index(old(self).entries@, name@);
        }
        match self.index_of(name.as_str()) {
            Some(i) => {
                let ghost pre = self.entries@;
                self.entries[i] = (name, val);
                proof {
                    lemma_first_key_index(self.entries@, pre[i as int].0@);
                    assert forall|n2: Seq<char>|
                        #[trigger] self.contains_key(n2) <==> (old(self).contains_key(n2) || n2
                            == pre[i as int].0@) by {
                        if self.contains_key(n2) {
                            let w = choose|w: int|
                                0 <= w < self.entries@.len() && (#[trigger] self.entries@[w]).0@
                                    == n2;
                            if w != i {
                                assert(pre[w].0@ == n2);
                            }
                        }
                        if old(self).contains_key(n2) {
                            let w = choose|w: int|
                                0 <= w < pre.len() && (#[trigger] pre[w]).0@ == n2;
                            if w != i {
                                assert(self.entries@[w].0@ == n2);
                            } else {
                                assert(self.entries@[i as int].0@ == n2);
                            }
                        }
                    }
                }
            },
            None => {
                let ghost pre = self.entries@;
                self.entries.push((name, val));
                proof {
                    lemma_first_key_index(self.entries@, self.entries@[pre.len() as int].0@);
                    assert forall|n2: Seq<char>|
                        #[trigger] self.contains_key(n2) <==> (old(self).contains_key(n2) || n2
                            == self.entries@[pre.len() as int].0@) by {
                        if self.contains_key(n2) {
                            let w = choose|w: int|
                                0 <= w < self.entries@.len() && (#[trigger] self.entries@[w]).0@
                                    == n2;
                            if w < pre.len() {
                                assert(pre[w].0@ == n2);
                            }
                        }
                        if old(self).contains_key(n2) {
                            let w = choose|w: int|
                                0 <= w < pre.len() && (#[trigger] pre[w]).0@ == n2;
                            assert(self.entries@[w].0@ == n2);
                        }
                    }
                }
            },
        }
    }
}

} // verus!
