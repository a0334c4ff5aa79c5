use vstd::prelude::*;
use vstd::multiset::Multiset;
use vstd::pervasive::VecAdditionalExecFns;
use crate::paths::{path_view, paths_view, bytes_eq};

verus! {

broadcast use vstd::seq_lib::group_to_multiset_ensures;

/// One bucket of the index: every recorded path whose content hashed to
/// `digest`.
pub struct IndexEntry {
    pub digest: Vec<u8>,
    pub paths: Vec<Vec<Vec<u8>>>,
}

/// The frozen content index: a mapping from digest to the paths sharing it,
/// grouped into buckets with pairwise distinct digests. The order of buckets
/// and the order of paths inside a bucket reflect recording order and carry
/// no meaning.
pub struct ContentIndex {
    pub entries: Vec<IndexEntry>,
}

impl ContentIndex {
    /// Buckets hold pairwise distinct digests.
    pub open spec fn wf(self) -> bool {
        forall|i: int, j: int|
            0 <= i < j < self.entries@.len() ==> self.entries@[i].digest@ != self.entries@[j].digest@
    }

    pub open spec fn has_digest(self, d: Seq<u8>) -> bool {
        exists|i: int| 0 <= i < self.entries@.len() && self.entries@[i].digest@ == d
    }

    pub open spec fn digest_index(self, d: Seq<u8>) -> int {
        choose|i: int| 0 <= i < self.entries@.len() && self.entries@[i].digest@ == d
    }

    /// The recorded paths sharing digest `d`, in recording order.
    pub open spec fn bucket_view(self, d: Seq<u8>) -> Seq<Seq<Seq<u8>>> {
        if self.has_digest(d) {
            paths_view(self.entries@[self.digest_index(d)].paths@)
        } else {
            Seq::empty()
        }
    }

    /// The index as a mapping from digest to the multiset of paths sharing
    /// it: the form in which recording order is already forgotten.
    pub open spec fn contents(self) -> Map<Seq<u8>, Multiset<Seq<Seq<u8>>>> {
        Map::new(
            |d: Seq<u8>| self.has_digest(d),
            |d: Seq<u8>| self.bucket_view(d).to_multiset(),
        )
    }

    /// Under `wf`, the bucket of a present digest is the unique one holding
    /// it.
    pub proof fn lemma_digest_index(self, d: Seq<u8>)
        requires
            self.wf(),
            self.has_digest(d),
        ensures
            0 <= self.digest_index(d) < self.entries@.len(),
            self.entries@[self.digest_index(d)].digest@ == d,
            forall|j: int|
                0 <= j < self.entries@.len() && self.entries@[j].digest@ == d ==> j
                    == self.digest_index(d),
    {
        let i = self.digest_index(d);
        assert(0 <= i < self.entries@.len() && self.entries@[i].digest@ == d);
    }

    /// An empty index.
    pub fn new() -> (r: ContentIndex)
        ensures
            r.wf(),
            r.entries@.len() == 0,
            r.contents() == Map::<Seq<u8>, Multiset<Seq<Seq<u8>>>>::empty(),
    {
        let r = ContentIndex { entries: Vec::new() };
        proof {
            assert(r.contents() =~= Map::<Seq<u8>, Multiset<Seq<Seq<u8>>>>::empty());
        }
        r
    }

    /// Index of the bucket holding digest `d`, if one does.
    fn find_digest(&self, d: &Vec<u8>) -> (r: Option<usize>)
        ensures
            match r {
                Some(i) => i < self.entries@.len() && self.entries@[i as int].digest@ == d@,
                None => forall|k: int|
                    0 <= k < self.entries@.len() ==> self.entries@[k].digest@ != d@,
            },
    {
        let mut i: usize = 0;
        while i < self.entries.len()
            invariant
                i <= self.entries@.len(),
                forall|k: int| 0 <= k < i ==> self.entries@[k].digest@ != d@,
            decreases self.entries@.len() - i,
        {
            if bytes_eq(&self.entries[i].digest, d) {
                return Some(i);
            }
            i += 1;
        }
        None
    }

    /// Record that the file at `path` hashed to `digest`: append the path to
    /// the bucket of that digest, opening the bucket if it is new.
    pub fn insert(&mut self, digest: Vec<u8>, path: Vec<Vec<u8>>)
        requires
            old(self).wf(),
        ensures
            final(self).wf(),
            final(self).bucket_view(digest@) == old(self).bucket_view(digest@).push(
                path_view(path@),
            ),
            forall|d: Seq<u8>|
                d != digest@ ==> final(self).bucket_view(d) == old(self).bucket_view(d),
            forall|d: Seq<u8>|
                final(self).has_digest(d) <==> (old(self).has_digest(d) || d == digest@),
            final(self).contents() == record(old(self).contents(), digest@, path_view(path@)),
    {
        let ghost pre = *self;
        let ghost dg = digest@;
        let ghost pv = path_view(path@);
        match self.find_digest(&digest) {
            Some(i) => {
                let mut tmp = IndexEntry { digest: Vec::new(), paths: Vec::new() };
                self.entries.set_and_swap(i, &mut tmp);
                tmp.paths.push(path);
                self.entries.set_and_swap(i, &mut tmp);
                proof {
                    let iv = i as int;
                    assert(forall|k: int|
                        0 <= k < self.entries@.len() && k != iv ==> self.entries@[k]
                            == pre.entries@[k]);
                    assert(self.entries@[iv].digest@ == dg);
                    assert(self.entries@[iv].paths@ == pre.entries@[iv].paths@.push(path));
                    pre.lemma_digest_index(dg);
                    assert(pre.digest_index(dg) == iv);
                    self.lemma_same_digests(pre);
                    self.lemma_digest_index(dg);
                    assert(self.digest_index(dg) == iv);
                    assert(paths_view(self.entries@[iv].paths@) =~= paths_view(
                        pre.entries@[iv].paths@,
                    ).push(pv));
                    assert forall|d: Seq<u8>| d != dg implies self.bucket_view(d)
                        == pre.bucket_view(d) by {
                        if pre.has_digest(d) {
                            pre.lemma_digest_index(d);
                            self.lemma_digest_index(d);
                            assert(pre.entries@[pre.digest_index(d)].digest@ == d);
                            assert(self.entries@[pre.digest_index(d)].digest@ == d);
                            assert(self.digest_index(d) == pre.digest_index(d));
                            assert(pre.digest_index(d) != iv);
                            assert(paths_view(self.entries@[self.digest_index(d)].paths@)
                                =~= paths_view(pre.entries@[pre.digest_index(d)].paths@));
                        }
                    }
                    lemma_contents_record(pre, *self, dg, pv);
                }
            },
            None => {
                let mut ps: Vec<Vec<Vec<u8>>> = Vec::new();
                ps.push(path);
                self.entries.push(IndexEntry { digest, paths: ps });
                proof {
                    let n = pre.entries@.len() as int;
                    assert(self.entries@.len() == n + 1);
                    assert(forall|k: int| 0 <= k < n ==> self.entries@[k] == pre.entries@[k]);
                    assert(self.entries@[n].digest@ == dg);
                    assert(self.wf());
                    assert(self.has_digest(dg));
                    self.lemma_digest_index(dg);
                    assert(self.digest_index(dg) == n);
                    assert(paths_view(self.entries@[n].paths@) =~= Seq::<Seq<Seq<u8>>>::empty().push(pv));
                    assert(!pre.has_digest(dg));
                    assert(pre.bucket_view(dg) == Seq::<Seq<Seq<u8>>>::empty());
                    assert forall|d: Seq<u8>| d != dg implies self.bucket_view(d)
                        == pre.bucket_view(d) by {
                        assert(self.has_digest(d) <==> pre.has_digest(d));
                        if pre.has_digest(d) {
                            pre.lemma_digest_index(d);
                            self.lemma_digest_index(d);
                            assert(self.entries@[pre.digest_index(d)].digest@ == d);
                            assert(self.digest_index(d) == pre.digest_index(d));
                            assert(paths_view(self.entries@[self.digest_index(d)].paths@)
                                =~= paths_view(pre.entries@[pre.digest_index(d)].paths@));
                        }
                    }
                    lemma_contents_record(pre, *self, dg, pv);
                }
            },
        }
    }

    /// The duplicate finder: the buckets holding more than one path, each a
    /// group of files with identical content. Returns the bucket positions,
    /// in increasing order, of exactly those buckets.
    pub fn duplicate_group_indices(&self) -> (r: Vec<usize>)
        ensures
            forall|k: int|
                0 <= k < r@.len() ==> r@[k] < self.entries@.len() && self.entries@[
                    r@[k] as int
                ].paths@.len() > 1,
            forall|i: int|
                0 <= i < self.entries@.len() && self.entries@[i].paths@.len() > 1 ==> r@.contains(
                    i as usize,
                ),
            forall|k: int, l: int| 0 <= k < l < r@.len() ==> r@[k] < r@[l],
    {
        let mut r: Vec<usize> = Vec::new();
        let mut i: usize = 0;
        while i < self.entries.len()
            invariant
                i <= self.entries@.len(),
                forall|k: int|
                    0 <= k < r@.len() ==> r@[k] < i && self.entries@[r@[k] as int].paths@.len()
                        > 1,
                forall|j: int|
                    0 <= j < i && self.entries@[j].paths@.len() > 1 ==> r@.contains(j as usize),
                forall|k: int, l: int| 0 <= k < l < r@.len() ==> r@[k] < r@[l],
            decreases self.entries@.len() - i,
        {
            let ghost r0 = r@;
            if self.entries[i].paths.len() > 1 {
                r.push(i);
            }
            proof {
                assert forall|j: int|
                    0 <= j < i + 1 && self.entries@[j].paths@.len() > 1 implies r@.contains(
                    j as usize,
                ) by {
                    if j < i {
                        let k = choose|k: int| 0 <= k < r0.len() && r0[k] == j as usize;
                        assert(r@[k] == j as usize);
                    } else {
                        assert(r@[r@.len() - 1] == i as usize);
                    }
                }
            }
            i += 1;
        }
        r
    }

    /// Two indexes whose buckets carry pointwise equal digests agree on
    /// `has_digest` and on `digest_index`.
    proof fn lemma_same_digests(self, other: ContentIndex)
        requires
            self.entries@.len() == other.entries@.len(),
            forall|k: int|
                0 <= k < self.entries@.len() ==> self.entries@[k].digest@ == other.entries@[
                    k
                ].digest@,
        ensures
            forall|d: Seq<u8>| self.has_digest(d) <==> other.has_digest(d),
    {
        assert forall|d: Seq<u8>| self.has_digest(d) implies other.has_digest(d) by {
            let i = choose|i: int|
                0 <= i < self.entries@.len() && self.entries@[i].digest@ == d;
            assert(other.entries@[i].digest@ == d);
        }
        assert forall|d: Seq<u8>| other.has_digest(d) implies self.has_digest(d) by {
            let i = choose|i: int|
                0 <= i < other.entries@.len() && other.entries@[i].digest@ == d;
            assert(self.entries@[i].digest@ == d);
        }
    }
}

/// Record one (digest, path) result in the abstract index: add the path to
/// the multiset under that digest, opening the bucket if it is new.
pub open spec fn record(
    m: Map<Seq<u8>, Multiset<Seq<Seq<u8>>>>,
    d: Seq<u8>,
    p: Seq<Seq<u8>>,
) -> Map<Seq<u8>, Multiset<Seq<Seq<u8>>>> {
    m.insert(d, (if m.contains_key(d) { m[d] } else { Multiset::empty() }).insert(p))
}

/// From bucket-level facts to `contents`-level: if `post` differs from `pre`
/// only by one path pushed onto the bucket of `d`, then `post`'s contents are
/// `pre`'s with `p` recorded under `d`.
proof fn lemma_contents_record(pre: ContentIndex, post: ContentIndex, d: Seq<u8>, p: Seq<Seq<u8>>)
    requires
        post.bucket_view(d) == pre.bucket_view(d).push(p),
        forall|e: Seq<u8>| e != d ==> post.bucket_view(e) == pre.bucket_view(e),
        forall|e: Seq<u8>| post.has_digest(e) <==> (pre.has_digest(e) || e == d),
    ensures
        post.contents() == record(pre.contents(), d, p),
{
    let lhs = post.contents();
    let rhs = record(pre.contents(), d, p);
    assert(Seq::<Seq<Seq<u8>>>::empty().to_multiset() =~= Multiset::<Seq<Seq<u8>>>::empty());
    assert(pre.bucket_view(d).push(p).to_multiset() =~= pre.bucket_view(d).to_multiset().insert(p));
    if !pre.has_digest(d) {
        assert(pre.bucket_view(d) == Seq::<Seq<Seq<u8>>>::empty());
    }
    assert(lhs =~= rhs);
}

/// Recording results commutes: the frozen digest-to-paths mapping does not
/// depend on the order in which two hashing workers append their findings.
pub proof fn lemma_record_commutes(
    m: Map<Seq<u8>, Multiset<Seq<Seq<u8>>>>,
    d1: Seq<u8>,
    p1: Seq<Seq<u8>>,
    d2: Seq<u8>,
    p2: Seq<Seq<u8>>,
)
    ensures
        record(record(m, d1, p1), d2, p2) == record(record(m, d2, p2), d1, p1),
{
    if d1 == d2 {
        let base = if m.contains_key(d1) { m[d1] } else { Multiset::empty() };
        assert(base.insert(p1).insert(p2) =~= base.insert(p2).insert(p1));
        assert(record(record(m, d1, p1), d2, p2) =~= record(record(m, d2, p2), d1, p1));
    } else {
        assert(record(record(m, d1, p1), d2, p2) =~= record(record(m, d2, p2), d1, p1));
    }
}

/// Files with differing digests never share a bucket: recording two paths
/// under two distinct digests, the index maps each digest to its own
/// singleton bucket.
pub proof fn lemma_distinct_digests_separate(
    m: Map<Seq<u8>, Multiset<Seq<Seq<u8>>>>,
    d1: Seq<u8>,
    p1: Seq<Seq<u8>>,
    d2: Seq<u8>,
    p2: Seq<Seq<u8>>,
)
    requires
        d1 != d2,
        !m.contains_key(d1),
        !m.contains_key(d2),
    ensures
        record(record(m, d1, p1), d2, p2)[d1] == Multiset::<Seq<Seq<u8>>>::empty().insert(p1),
        record(record(m, d1, p1), d2, p2)[d2] == Multiset::<Seq<Seq<u8>>>::empty().insert(p2),
{
}

/// The frozen contents of an index built by recording the given (digest,
/// path) results in order, starting empty.
pub open spec fn contents_of(events: Seq<(Seq<u8>, Seq<Seq<u8>>)>) -> Map<
    Seq<u8>,
    Multiset<Seq<Seq<u8>>>,
>
    decreases events.len(),
{
    if events.len() == 0 {
        Map::empty()
    } else {
        record(contents_of(events.drop_last()), events.last().0, events.last().1)
    }
}

/// Any single result can be recorded last: recording commutes, so pulling
/// one event out of the middle does not change the frozen contents.
proof fn lemma_contents_extract(e: Seq<(Seq<u8>, Seq<Seq<u8>>)>, j: int)
    requires
        0 <= j < e.len(),
    ensures
        contents_of(e) == record(contents_of(e.remove(j)), e[j].0, e[j].1),
    decreases e.len(),
{
    if j == e.len() - 1 {
        assert(e.remove(j) =~= e.drop_last());
    } else {
        lemma_contents_extract(e.drop_last(), j);
        let c = contents_of(e.drop_last().remove(j));
        lemma_record_commutes(c, e[j].0, e[j].1, e.last().0, e.last().1);
        assert(e.remove(j).drop_last() =~= e.drop_last().remove(j));
        assert(e.remove(j).last() == e.last());
    }
}

/// Indexing an unchanged tree twice yields the same frozen digest-to-paths
/// mapping: two runs that record the same multiset of (digest, path) results,
/// in whatever order worker completion dictated, freeze to equal contents.
pub proof fn lemma_index_order_immaterial(
    e1: Seq<(Seq<u8>, Seq<Seq<u8>>)>,
    e2: Seq<(Seq<u8>, Seq<Seq<u8>>)>,
)
    requires
        e1.to_multiset() == e2.to_multiset(),
    ensures
        contents_of(e1) == contents_of(e2),
    decreases e1.len(),
{
    if e1.len() == 0 {
        assert(e2.to_multiset().len() == 0);
        assert(e2.len() == 0);
    } else {
        let x = e1.last();
        assert(e1.contains(x));
        assert(e1.to_multiset().count(x) > 0);
        assert(e2.contains(x));
        let j = choose|j: int| 0 <= j < e2.len() && e2[j] == x;
        assert(e1.drop_last() =~= e1.remove(e1.len() - 1));
        assert(e1.remove(e1.len() - 1).to_multiset() =~= e1.to_multiset().remove(x));
        assert(e2.remove(j).to_multiset() =~= e2.to_multiset().remove(x));
        assert(e1.drop_last().to_multiset() == e2.remove(j).to_multiset());
        lemma_index_order_immaterial(e1.drop_last(), e2.remove(j));
        lemma_contents_extract(e2, j);
    }
}

} // verus!
