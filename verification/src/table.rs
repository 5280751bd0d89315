//! The string table: bidirectional interning of canonical byte-string names
//! to dense integer ids. An id is an index into the table, so the ids handed
//! out are a bijection with the distinct strings interned so far; entries are
//! never removed or invalidated.

use vstd::prelude::*;

verus! {

/// No two entries of the table hold the same string.
pub open spec fn distinct_strings(t: Seq<Seq<u8>>) -> bool {
    forall|i: int, j: int| 0 <= i < j < t.len() ==> t[i] != t[j]
}

/// First index of `t` holding `s`, or -1 when `t` does not contain it.
pub open spec fn find_str(t: Seq<Seq<u8>>, s: Seq<u8>) -> int
    decreases t.len(),
{
    if t.len() == 0 {
        -1
    } else if t[0] == s {
        0
    } else {
        let r = find_str(t.subrange(1, t.len() as int), s);
        if r == -1 {
            -1
        } else {
            r + 1
        }
    }
}

/// The id that interning `s` into table `t` yields: the index of the
/// existing entry when `t` already holds `s`, otherwise the next fresh index.
pub open spec fn intern_id(t: Seq<Seq<u8>>, s: Seq<u8>) -> int {
    if find_str(t, s) >= 0 {
        find_str(t, s)
    } else {
        t.len() as int
    }
}

/// The table after interning `s`: unchanged when it already holds `s`,
/// otherwise extended by `s`.
pub open spec fn intern_tbl(t: Seq<Seq<u8>>, s: Seq<u8>) -> Seq<Seq<u8>> {
    if find_str(t, s) >= 0 {
        t
    } else {
        t.push(s)
    }
}

/// `find_str` returns the first index holding `s`, or -1 when there is none.
pub proof fn lemma_find_str_props(t: Seq<Seq<u8>>, s: Seq<u8>)
    ensures
        -1 <= find_str(t, s) < t.len(),
        find_str(t, s) >= 0 ==> t[find_str(t, s)] == s,
        forall|j: int| 0 <= j < find_str(t, s) ==> t[j] != s,
        find_str(t, s) == -1 ==> forall|j: int| 0 <= j < t.len() ==> t[j] != s,
    decreases t.len(),
{
    if t.len() == 0 {
    } else if t[0] == s {
    } else {
        let rest = t.subrange(1, t.len() as int);
        lemma_find_str_props(rest, s);
        assert forall|j: int| 0 <= j < find_str(t, s) implies t[j] != s by {
            if j > 0 {
                assert(t[j] == rest[j - 1]);
            }
        }
        if find_str(t, s) == -1 {
            assert forall|j: int| 0 <= j < t.len() implies t[j] != s by {
                if j > 0 {
                    assert(t[j] == rest[j - 1]);
                }
            }
        }
    }
}

/// A first occurrence of `s` pins `find_str` down.
pub proof fn lemma_find_str_at(t: Seq<Seq<u8>>, s: Seq<u8>, i: int)
    requires
        0 <= i < t.len(),
        t[i] == s,
        forall|j: int| 0 <= j < i ==> t[j] != s,
    ensures
        find_str(t, s) == i,
{
    lemma_find_str_props(t, s);
    let f = find_str(t, s);
    if f == -1 {
        assert(t[i] != s);
        assert(false);
    }
    if f < i {
        assert(t[f] != s);
        assert(false);
    }
    if f > i {
        assert(t[i] != s);
        assert(false);
    }
}

/// Interning keeps the table's strings distinct, the returned id resolves
/// back to the interned string, and interning the same string again returns
/// the same id and leaves the table unchanged.
pub proof fn lemma_intern_properties(t: Seq<Seq<u8>>, s: Seq<u8>)
    requires
        distinct_strings(t),
    ensures
        distinct_strings(intern_tbl(t, s)),
        0 <= intern_id(t, s) < intern_tbl(t, s).len(),
        intern_tbl(t, s)[intern_id(t, s)] == s,
        intern_id(intern_tbl(t, s), s) == intern_id(t, s),
        intern_tbl(intern_tbl(t, s), s) == intern_tbl(t, s),
        t.len() <= intern_tbl(t, s).len() <= t.len() + 1,
        forall|j: int| 0 <= j < t.len() ==> intern_tbl(t, s)[j] == t[j],
{
    lemma_find_str_props(t, s);
    if find_str(t, s) >= 0 {
    } else {
        let t2 = t.push(s);
        lemma_find_str_at(t2, s, t.len() as int);
    }
}

/// Interning two distinct strings yields distinct ids.
pub proof fn lemma_intern_distinct(t: Seq<Seq<u8>>, a: Seq<u8>, b: Seq<u8>)
    requires
        distinct_strings(t),
        a != b,
    ensures
        intern_id(t, a) != intern_id(intern_tbl(t, a), b),
{
    lemma_intern_properties(t, a);
    let ta = intern_tbl(t, a);
    lemma_intern_properties(ta, b);
    let ia = intern_id(t, a);
    let ib2 = intern_id(ta, b);
    if ia == ib2 {
        assert(intern_tbl(ta, b)[ia] == a);
        assert(intern_tbl(ta, b)[ib2] == b);
        assert(false);
    }
}

/// Copy a byte vector.
fn copy_bytes(s: &Vec<u8>) -> (r: Vec<u8>)
    ensures
        r@ == s@,
{
    let mut r: Vec<u8> = Vec::new();
    let mut i: usize = 0;
    while i < s.len()
        invariant
            i <= s.len(),
            r@ == s@.subrange(0, i as int),
        decreases s.len() - i,
    {
        r.push(s[i]);
        proof {
            assert(r@ =~= s@.subrange(0, i + 1));
        }
        i += 1;
    }
    proof {
        assert(r@ =~= s@);
    }
    r
}

/// The string table itself: a growing vector of distinct byte strings whose
/// indices are the ids.
pub struct StringTable {
    pub strings: Vec<Vec<u8>>,
}

impl View for StringTable {
    type V = Seq<Seq<u8>>;

    open spec fn view(&self) -> Seq<Seq<u8>> {
        Seq::new(self.strings@.len(), |i: int| self.strings@[i]@)
    }
}

impl StringTable {
    /// All interned strings are distinct, so ids and strings determine each
    /// other.
    pub open spec fn wf(&self) -> bool {
        distinct_strings(self@)
    }

    /// An empty table.
    pub fn new() -> (r: StringTable)
        ensures
            r@ == Seq::<Seq<u8>>::empty(),
            r.wf(),
    {
        let r = StringTable { strings: Vec::new() };
        proof {
            assert(r@ =~= Seq::<Seq<u8>>::empty());
        }
        r
    }

    /// Intern `s`: the existing id when `s` was seen before, otherwise a
    /// fresh id naming a new entry.
    pub fn intern(&mut self, s: &Vec<u8>) -> (id: usize)
        requires
            old(self).wf(),
        ensures
            final(self).wf(),
            final(self)@ == intern_tbl(old(self)@, s@),
            id as int == intern_id(old(self)@, s@),
    {
        let ghost t = self@;
        let n = self.strings.len();
        let mut i: usize = 0;
        while i < n
            invariant
                i <= n,
                n == self.strings@.len(),
                t == self@,
                old(self).wf(),
                self == old(self),
                forall|j: int| 0 <= j < i ==> t[j] != s@,
            decreases n - i,
        {
            if crate::sanitize::bytes_eq(&self.strings[i], s) {
                proof {
                    lemma_find_str_at(t, s@, i as int);
                    lemma_intern_properties(t, s@);
                }
                return i;
            }
            i += 1;
        }
        proof {
            lemma_find_str_props(t, s@);
            if find_str(t, s@) >= 0 {
                assert(t[find_str(t, s@)] != s@);
                assert(false);
            }
            lemma_intern_properties(t, s@);
        }
        let copy = copy_bytes(s);
        self.strings.push(copy);
        proof {
            assert(self@ =~= t.push(s@));
        }
        n
    }

    /// Resolve an id back to its string: succeeds exactly for the ids the
    /// table has handed out.
    pub fn resolve(&self, id: usize) -> (r: Option<&Vec<u8>>)
        ensures
            id < self@.len() ==> (r matches Some(s) && s@ == self@[id as int]),
            id >= self@.len() ==> r is None,
    {
        if id < self.strings.len() {
            Some(&self.strings[id])
        } else {
            None
        }
    }

    /// How many strings have been interned.
    pub fn len(&self) -> (n: usize)
        ensures
            n == self@.len(),
    {
        self.strings.len()
    }
}

} // verus!
