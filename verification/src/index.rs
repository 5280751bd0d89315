//! The pending-resolution index: a map from a symbol id to the ordered list
//! of file ids recorded for it. One instance holds, per symbol, the files
//! known to provide it; another holds the files still awaiting it. Buckets
//! are kept as a vector of (symbol, files) entries with distinct symbols, and
//! the index is specified through the map those entries stand for.

use vstd::prelude::*;

verus! {

/// One symbol's bucket: the files recorded for that symbol, in order.
pub struct Bucket {
    pub sym: usize,
    pub files: Vec<usize>,
}

/// The map a bucket sequence stands for.
pub open spec fn buckets_map(s: Seq<Bucket>) -> Map<usize, Seq<usize>>
    decreases s.len(),
{
    if s.len() == 0 {
        Map::empty()
    } else {
        buckets_map(s.drop_last()).insert(s.last().sym, s.last().files@)
    }
}

/// No two buckets name the same symbol.
pub open spec fn distinct_syms(s: Seq<Bucket>) -> bool {
    forall|i: int, j: int| 0 <= i < j < s.len() ==> s[i].sym != s[j].sym
}

/// The bucket list a symbol maps to, extended by one more file; a symbol not
/// yet present starts a fresh one-element list.
pub open spec fn append_entry(m: Map<usize, Seq<usize>>, sym: usize, file: usize) -> Seq<usize> {
    if m.dom().contains(sym) {
        m[sym].push(file)
    } else {
        seq![file]
    }
}

/// With distinct symbols, each bucket is exactly its symbol's map entry, and
/// every key of the map comes from some bucket.
pub proof fn lemma_buckets_map_props(s: Seq<Bucket>)
    requires
        distinct_syms(s),
    ensures
        forall|i: int|
            0 <= i < s.len() ==> buckets_map(s).dom().contains(#[trigger] s[i].sym),
        forall|i: int| 0 <= i < s.len() ==> buckets_map(s)[#[trigger] s[i].sym] == s[i].files@,
        forall|k: usize|
            #[trigger] buckets_map(s).dom().contains(k) ==> exists|i: int|
                0 <= i < s.len() && s[i].sym == k,
    decreases s.len(),
{
    if s.len() == 0 {
    } else {
        let pre = s.drop_last();
        lemma_buckets_map_props(pre);
        assert(forall|i: int| 0 <= i < pre.len() ==> pre[i] == s[i]);
        assert forall|i: int|
            0 <= i < s.len() implies buckets_map(s).dom().contains(#[trigger] s[i].sym)
            && buckets_map(s)[s[i].sym] == s[i].files@ by {
            if i < s.len() - 1 {
                assert(pre[i] == s[i]);
                assert(s[i].sym != s.last().sym);
            }
        }
        assert forall|k: usize| #[trigger] buckets_map(s).dom().contains(k) implies exists|i: int|
            0 <= i < s.len() && s[i].sym == k by {
            if k == s.last().sym {
                assert(s[s.len() - 1].sym == k);
            } else {
                assert(buckets_map(pre).dom().contains(k));
                let i = choose|i: int| 0 <= i < pre.len() && pre[i].sym == k;
                assert(s[i].sym == k);
            }
        }
    }
}

/// Replacing bucket `i` by one with the same symbol updates only that
/// symbol's map entry.
pub proof fn lemma_buckets_map_update(s: Seq<Bucket>, i: int, b: Bucket)
    requires
        distinct_syms(s),
        0 <= i < s.len(),
        b.sym == s[i].sym,
    ensures
        buckets_map(s.update(i, b)) == buckets_map(s).insert(b.sym, b.files@),
        distinct_syms(s.update(i, b)),
    decreases s.len(),
{
    let s2 = s.update(i, b);
    assert(distinct_syms(s2));
    if i == s.len() - 1 {
        assert(s2.drop_last() =~= s.drop_last());
        assert(s2.last() == b);
        assert(buckets_map(s.drop_last()).insert(s.last().sym, s.last().files@).insert(
            b.sym,
            b.files@,
        ) =~= buckets_map(s.drop_last()).insert(b.sym, b.files@));
    } else {
        lemma_buckets_map_update(s.drop_last(), i, b);
        assert(s2.drop_last() =~= s.drop_last().update(i, b));
        assert(s2.last() == s.last());
        let m0 = buckets_map(s.drop_last());
        assert(buckets_map(s2) == m0.insert(b.sym, b.files@).insert(s.last().sym, s.last().files@));
        assert(b.sym != s.last().sym);
        assert(m0.insert(b.sym, b.files@).insert(s.last().sym, s.last().files@) =~= m0.insert(
            s.last().sym,
            s.last().files@,
        ).insert(b.sym, b.files@));
    }
}

/// Appending a bucket whose symbol is fresh inserts its entry and keeps the
/// symbols distinct.
pub proof fn lemma_buckets_map_push(s: Seq<Bucket>, b: Bucket)
    requires
        distinct_syms(s),
        forall|i: int| 0 <= i < s.len() ==> (#[trigger] s[i].sym) != b.sym,
    ensures
        buckets_map(s.push(b)) == buckets_map(s).insert(b.sym, b.files@),
        distinct_syms(s.push(b)),
{
    assert(s.push(b).drop_last() =~= s);
    assert(s.push(b).last() == b);
    assert(forall|i: int| 0 <= i < s.len() ==> s.push(b)[i] == s[i]);
}

/// Removing bucket `i` removes exactly its symbol's map entry.
pub proof fn lemma_buckets_map_remove(s: Seq<Bucket>, i: int)
    requires
        distinct_syms(s),
        0 <= i < s.len(),
    ensures
        buckets_map(s.remove(i)) == buckets_map(s).remove(s[i].sym),
        distinct_syms(s.remove(i)),
    decreases s.len(),
{
    let s2 = s.remove(i);
    assert(distinct_syms(s2)) by {
        assert(forall|j: int| 0 <= j < i ==> s2[j] == s[j]);
        assert(forall|j: int| i <= j < s2.len() ==> s2[j] == s[j + 1]);
    }
    lemma_buckets_map_props(s);
    if i == s.len() - 1 {
        assert(s2 =~= s.drop_last());
        let m0 = buckets_map(s.drop_last());
        assert(!m0.dom().contains(s[i].sym)) by {
            lemma_buckets_map_props(s.drop_last());
            if m0.dom().contains(s[i].sym) {
                let j = choose|j: int|
                    0 <= j < s.drop_last().len() && s.drop_last()[j].sym == s[i].sym;
                assert(s[j].sym == s[i].sym);
            }
        }
        assert(m0.insert(s.last().sym, s.last().files@).remove(s[i].sym) =~= m0);
    } else {
        lemma_buckets_map_remove(s.drop_last(), i);
        assert(s2.drop_last() =~= s.drop_last().remove(i));
        assert(s2.last() == s.last());
        let m0 = buckets_map(s.drop_last());
        assert(s[i].sym != s.last().sym);
        assert(m0.remove(s[i].sym).insert(s.last().sym, s.last().files@) =~= m0.insert(
            s.last().sym,
            s.last().files@,
        ).remove(s[i].sym));
    }
}

/// The index: buckets with distinct symbols, read as a map.
pub struct SymIndex {
    pub entries: Vec<Bucket>,
}

impl View for SymIndex {
    type V = Map<usize, Seq<usize>>;

    open spec fn view(&self) -> Map<usize, Seq<usize>> {
        buckets_map(self.entries@)
    }
}

impl SymIndex {
    /// Every symbol has at most one bucket.
    pub open spec fn wf(&self) -> bool {
        distinct_syms(self.entries@)
    }

    /// An empty index.
    pub fn new() -> (r: SymIndex)
        ensures
            r@ == Map::<usize, Seq<usize>>::empty(),
            r.wf(),
    {
        SymIndex { entries: Vec::new() }
    }

    /// Index of the bucket naming `sym`, when there is one.
    fn position(&self, sym: usize) -> (r: Option<usize>)
        ensures
            r matches Some(i) ==> i < self.entries@.len() && self.entries@[i as int].sym == sym,
            r is None ==> forall|j: int|
                0 <= j < self.entries@.len() ==> (#[trigger] self.entries@[j].sym) != sym,
    {
        let mut i: usize = 0;
        let n = self.entries.len();
        while i < n
            invariant
                i <= n,
                n == self.entries@.len(),
                forall|j: int| 0 <= j < i ==> (#[trigger] self.entries@[j].sym) != sym,
            decreases n - i,
        {
            if self.entries[i].sym == sym {
                return Some(i);
            }
            i += 1;
        }
        None
    }

    /// The files recorded for `sym`, when any are.
    pub fn get(&self, sym: usize) -> (r: Option<&Vec<usize>>)
        requires
            self.wf(),
        ensures
            self@.dom().contains(sym) ==> (r matches Some(v) && v@ == self@[sym]),
            !self@.dom().contains(sym) ==> r is None,
    {
        proof {
            lemma_buckets_map_props(self.entries@);
        }
        match self.position(sym) {
            Some(i) => Some(&self.entries[i].files),
            None => {
                proof {
                    if self@.dom().contains(sym) {
                        let j = choose|j: int|
                            0 <= j < self.entries@.len() && self.entries@[j].sym == sym;
                        assert(self.entries@[j].sym == sym);
                    }
                }
                None
            },
        }
    }

    /// Record one more file for `sym`: appended to its bucket, or starting a
    /// fresh bucket when `sym` had none.
    pub fn append(&mut self, sym: usize, file: usize)
        requires
            old(self).wf(),
        ensures
            final(self).wf(),
            final(self)@ == old(self)@.insert(sym, append_entry(old(self)@, sym, file)),
    {
        proof {
            lemma_buckets_map_props(self.entries@);
        }
        let ghost s0 = self.entries@;
        match self.position(sym) {
            Some(i) => {
                let mut b = self.entries.remove(i);
                b.files.push(file);
                proof {
                    lemma_buckets_map_remove(s0, i as int);
                }
                let ghost s1 = self.entries@;
                let ghost bsnap = b;
                self.entries.push(b);
                proof {
                    lemma_buckets_map_props(s1);
                    assert(forall|j: int|
                        0 <= j < s1.len() ==> (#[trigger] s1[j].sym) != sym) by {
                        assert(forall|j: int| 0 <= j < i ==> s1[j] == s0[j]);
                        assert(forall|j: int| i <= j < s1.len() ==> s1[j] == s0[j + 1]);
                    }
                    lemma_buckets_map_push(s1, bsnap);
                    assert(buckets_map(s1).insert(sym, bsnap.files@) =~= buckets_map(s0).insert(
                        sym,
                        append_entry(buckets_map(s0), sym, file),
                    ));
                }
            },
            None => {
                let mut files: Vec<usize> = Vec::new();
                files.push(file);
                let ghost bnew = Bucket { sym, files };
                self.entries.push(Bucket { sym, files });
                proof {
                    lemma_buckets_map_push(s0, bnew);
                    if buckets_map(s0).dom().contains(sym) {
                        let j = choose|j: int| 0 <= j < s0.len() && s0[j].sym == sym;
                        assert(s0[j].sym == sym);
                        assert(false);
                    }
                    assert(bnew.files@ =~= seq![file]);
                }
            },
        }
    }

    /// Take the whole bucket of `sym` out of the index, when there is one.
    pub fn remove(&mut self, sym: usize) -> (r: Option<Vec<usize>>)
        requires
            old(self).wf(),
        ensures
            final(self).wf(),
            old(self)@.dom().contains(sym) ==> (r matches Some(v) && v@ == old(self)@[sym]
                && final(self)@ == old(self)@.remove(sym)),
            !old(self)@.dom().contains(sym) ==> (r is None && final(self)@ == old(self)@),
    {
        proof {
            lemma_buckets_map_props(self.entries@);
        }
        let ghost s0 = self.entries@;
        match self.position(sym) {
            Some(i) => {
                let b = self.entries.remove(i);
                proof {
                    lemma_buckets_map_remove(s0, i as int);
                }
                Some(b.files)
            },
            None => {
                proof {
                    if buckets_map(s0).dom().contains(sym) {
                        let j = choose|j: int| 0 <= j < s0.len() && s0[j].sym == sym;
                        assert(s0[j].sym == sym);
                    }
                }
                None
            },
        }
    }
}

} // verus!
