use vstd::prelude::*;
use crate::index::{ContentIndex, IndexEntry};
use crate::paths::{
    path_view, is_prefix_of, strip_prefix, path_lt, paths_eq, clone_path,
    join_components, spec_join, lemma_path_lt_trichotomy, lemma_path_lt_trans, path_lt_exec,
};

verus! {

/// The status a relative path receives from the diff engine. Every relative
/// path seen under either root receives exactly one of these.
#[derive(Clone, Copy, PartialEq, Eq, Structural, Debug)]
pub enum FileDiff {
    Changed,
    Created,
    Deleted,
    Unchanged,
}

/// Why no diff can be produced from an index.
#[derive(Clone, Copy, PartialEq, Eq, Structural, Debug)]
pub enum DiffError {
    /// A recorded path lies under neither root.
    ForeignPath,
    /// One relative path was recorded more than once on one side: the index
    /// is corrupted, and overwriting a status silently would hide it.
    InconsistentIndex,
}

/// Position (`i`, `j`) is a recorded path: the `j`th path of the `i`th
/// bucket.
pub open spec fn occ_valid(es: Seq<IndexEntry>, i: int, j: int) -> bool {
    0 <= i < es.len() && 0 <= j < es[i].paths@.len()
}

pub open spec fn occ_path(es: Seq<IndexEntry>, i: int, j: int) -> Seq<Seq<u8>> {
    path_view(es[i].paths@[j]@)
}

/// The recorded path at (`i`, `j`) lies under `root` with relative form
/// `rel`.
pub open spec fn occ_rel_is(
    es: Seq<IndexEntry>,
    i: int,
    j: int,
    root: Seq<Seq<u8>>,
    rel: Seq<Seq<u8>>,
) -> bool {
    occ_valid(es, i, j) && occ_path(es, i, j) == root + rel
}

/// Bucket `i` holds a path under `root` whose relative form is `rel`.
pub open spec fn entry_has_rel(
    es: Seq<IndexEntry>,
    i: int,
    root: Seq<Seq<u8>>,
    rel: Seq<Seq<u8>>,
) -> bool {
    exists|j: int| occ_rel_is(es, i, j, root, rel)
}

/// Some bucket holds a path under `root` whose relative form is `rel`.
pub open spec fn in_side(es: Seq<IndexEntry>, root: Seq<Seq<u8>>, rel: Seq<Seq<u8>>) -> bool {
    exists|i: int| #[trigger] entry_has_rel(es, i, root, rel)
}

/// One bucket holds `rel` under both roots: same relative path, same
/// content.
pub open spec fn same_bucket(
    es: Seq<IndexEntry>,
    old_root: Seq<Seq<u8>>,
    new_root: Seq<Seq<u8>>,
    rel: Seq<Seq<u8>>,
) -> bool {
    exists|i: int|
        #[trigger] entry_has_rel(es, i, old_root, rel) && entry_has_rel(es, i, new_root, rel)
}

/// The status of one relative path: Unchanged when it lies under both roots
/// with the same content, Changed when under both with different content,
/// Deleted when only under the old root, Created when only under the new.
#[verifier::opaque]
pub open spec fn spec_status(
    es: Seq<IndexEntry>,
    old_root: Seq<Seq<u8>>,
    new_root: Seq<Seq<u8>>,
    rel: Seq<Seq<u8>>,
) -> FileDiff {
    if in_side(es, old_root, rel) && in_side(es, new_root, rel) {
        if same_bucket(es, old_root, new_root, rel) {
            FileDiff::Unchanged
        } else {
            FileDiff::Changed
        }
    } else if in_side(es, old_root, rel) {
        FileDiff::Deleted
    } else {
        FileDiff::Created
    }
}

/// Every recorded path lies under one of the two roots.
pub open spec fn covered(es: Seq<IndexEntry>, old_root: Seq<Seq<u8>>, new_root: Seq<Seq<u8>>) -> bool {
    forall|i: int, j: int|
        occ_valid(es, i, j) ==> is_prefix_of(old_root, #[trigger] occ_path(es, i, j))
            || is_prefix_of(new_root, occ_path(es, i, j))
}

/// No relative path is recorded twice under `root`: distinct recorded
/// positions never carry the same relative form.
pub open spec fn side_unique(es: Seq<IndexEntry>, root: Seq<Seq<u8>>) -> bool {
    forall|i: int, j: int, i2: int, j2: int, rel: Seq<Seq<u8>>|
        #[trigger] occ_rel_is(es, i, j, root, rel) && #[trigger] occ_rel_is(es, i2, j2, root, rel)
            ==> i == i2 && j == j2
}

/// A prefixed path is its root followed by its relative form.
pub proof fn lemma_prefix_skip(root: Seq<Seq<u8>>, p: Seq<Seq<u8>>)
    requires
        is_prefix_of(root, p),
    ensures
        p == root + p.skip(root.len() as int),
{
    assert(p =~= root + p.skip(root.len() as int));
}

/// The relative form under a root is unique.
pub proof fn lemma_rel_cancel(root: Seq<Seq<u8>>, r1: Seq<Seq<u8>>, r2: Seq<Seq<u8>>)
    requires
        root + r1 == root + r2,
    ensures
        r1 == r2,
{
    assert(r1 =~= (root + r1).skip(root.len() as int));
    assert(r2 =~= (root + r2).skip(root.len() as int));
}

/// A root concatenated with a relative form is prefixed by that root.
pub proof fn lemma_concat_is_prefix(root: Seq<Seq<u8>>, rel: Seq<Seq<u8>>)
    ensures
        is_prefix_of(root, root + rel),
{
    assert(root =~= (root + rel).subrange(0, root.len() as int));
}

/// Two prefixes of one path are comparable: one of them prefixes the other.
pub proof fn lemma_prefixes_comparable(a: Seq<Seq<u8>>, b: Seq<Seq<u8>>, p: Seq<Seq<u8>>)
    requires
        is_prefix_of(a, p),
        is_prefix_of(b, p),
    ensures
        is_prefix_of(a, b) || is_prefix_of(b, a),
{
    if a.len() <= b.len() {
        assert(a =~= b.subrange(0, a.len() as int));
    } else {
        assert(b =~= a.subrange(0, b.len() as int));
    }
}

/// One recorded path that lies under a root, as handed to the later diff
/// stages: its relative form, the bucket it sits in, and (for the proof
/// alone) its position inside the bucket.
pub struct Occ {
    pub rel: Vec<Vec<u8>>,
    pub bucket: usize,
    pub pos: Ghost<int>,
}

/// Every element of the list is a recorded path under `root` with the stated
/// relative form.
pub open spec fn occ_list_ok(es: Seq<IndexEntry>, root: Seq<Seq<u8>>, list: Seq<Occ>) -> bool {
    forall|k: int|
        0 <= k < list.len() ==> occ_rel_is(
            es,
            #[trigger] list[k].bucket as int,
            list[k].pos@,
            root,
            path_view(list[k].rel@),
        )
}

/// Every recorded path under `root` has an element in the list.
pub open spec fn occ_list_complete(es: Seq<IndexEntry>, root: Seq<Seq<u8>>, list: Seq<Occ>) -> bool {
    forall|i: int, j: int, rel: Seq<Seq<u8>>|
        #[trigger] occ_rel_is(es, i, j, root, rel) ==> exists|k: int|
            0 <= k < list.len() && (#[trigger] list[k].bucket) as int == i && list[k].pos@ == j
}

/// Distinct list elements stand for distinct recorded positions.
pub open spec fn occ_list_injective(list: Seq<Occ>) -> bool {
    forall|k: int, l: int|
        0 <= k < l < list.len() ==> !((#[trigger] list[k].bucket) == (#[trigger] list[l].bucket)
            && list[k].pos@ == list[l].pos@)
}

/// Partition every recorded path of the index by the root it lies under,
/// keeping its relative form and its bucket. A path under neither root is
/// refused.
pub fn split_occurrences(
    index: &ContentIndex,
    old_root: &Vec<Vec<u8>>,
    new_root: &Vec<Vec<u8>>,
) -> (r: Result<(Vec<Occ>, Vec<Occ>), DiffError>)
    requires
        !is_prefix_of(path_view(old_root@), path_view(new_root@)),
        !is_prefix_of(path_view(new_root@), path_view(old_root@)),
    ensures
        match r {
            Ok(lists) => {
                &&& covered(index.entries@, path_view(old_root@), path_view(new_root@))
                &&& occ_list_ok(index.entries@, path_view(old_root@), lists.0@)
                &&& occ_list_complete(index.entries@, path_view(old_root@), lists.0@)
                &&& occ_list_injective(lists.0@)
                &&& occ_list_ok(index.entries@, path_view(new_root@), lists.1@)
                &&& occ_list_complete(index.entries@, path_view(new_root@), lists.1@)
                &&& occ_list_injective(lists.1@)
            },
            Err(e) => e == DiffError::ForeignPath && !covered(
                index.entries@,
                path_view(old_root@),
                path_view(new_root@),
            ),
        },
{
    let ghost es = index.entries@;
    let ghost ov = path_view(old_root@);
    let ghost nv = path_view(new_root@);
    let mut old_list: Vec<Occ> = Vec::new();
    let mut new_list: Vec<Occ> = Vec::new();
    let mut i: usize = 0;
    while i < index.entries.len()
        invariant
            i <= es.len(),
            es == index.entries@,
            ov == path_view(old_root@),
            nv == path_view(new_root@),
            !is_prefix_of(ov, nv),
            !is_prefix_of(nv, ov),
            occ_list_ok(es, ov, old_list@),
            occ_list_ok(es, nv, new_list@),
            occ_list_injective(old_list@),
            occ_list_injective(new_list@),
            forall|k: int| 0 <= k < old_list@.len() ==> (#[trigger] old_list@[k].bucket) < i,
            forall|k: int| 0 <= k < new_list@.len() ==> (#[trigger] new_list@[k].bucket) < i,
            forall|i2: int, j2: int|
                occ_valid(es, i2, j2) && i2 < i ==> is_prefix_of(ov, #[trigger] occ_path(es, i2, j2))
                    || is_prefix_of(nv, occ_path(es, i2, j2)),
            forall|i2: int, j2: int, rel: Seq<Seq<u8>>|
                #[trigger] occ_rel_is(es, i2, j2, ov, rel) && i2 < i ==> exists|k: int|
                    0 <= k < old_list@.len() && (#[trigger] old_list@[k].bucket) as int == i2
                        && old_list@[k].pos@ == j2,
            forall|i2: int, j2: int, rel: Seq<Seq<u8>>|
                #[trigger] occ_rel_is(es, i2, j2, nv, rel) && i2 < i ==> exists|k: int|
                    0 <= k < new_list@.len() && (#[trigger] new_list@[k].bucket) as int == i2
                        && new_list@[k].pos@ == j2,
        decreases es.len() - i,
    {
        let mut j: usize = 0;
        while j < index.entries[i].paths.len()
            invariant
                i < es.len(),
                j <= es[i as int].paths@.len(),
                es == index.entries@,
                ov == path_view(old_root@),
                nv == path_view(new_root@),
                !is_prefix_of(ov, nv),
                !is_prefix_of(nv, ov),
                occ_list_ok(es, ov, old_list@),
                occ_list_ok(es, nv, new_list@),
                occ_list_injective(old_list@),
                occ_list_injective(new_list@),
                forall|k: int|
                    0 <= k < old_list@.len() ==> (#[trigger] old_list@[k].bucket) < i || (
                    old_list@[k].bucket == i && old_list@[k].pos@ < j),
                forall|k: int|
                    0 <= k < new_list@.len() ==> (#[trigger] new_list@[k].bucket) < i || (
                    new_list@[k].bucket == i && new_list@[k].pos@ < j),
                forall|i2: int, j2: int|
                    occ_valid(es, i2, j2) && (i2 < i || (i2 == i && j2 < j)) ==> is_prefix_of(
                        ov,
                        #[trigger] occ_path(es, i2, j2),
                    ) || is_prefix_of(nv, occ_path(es, i2, j2)),
                forall|i2: int, j2: int, rel: Seq<Seq<u8>>|
                    #[trigger] occ_rel_is(es, i2, j2, ov, rel) && (i2 < i || (i2 == i && j2 < j))
                        ==> exists|k: int|
                        0 <= k < old_list@.len() && (#[trigger] old_list@[k].bucket) as int == i2
                            && old_list@[k].pos@ == j2,
                forall|i2: int, j2: int, rel: Seq<Seq<u8>>|
                    #[trigger] occ_rel_is(es, i2, j2, nv, rel) && (i2 < i || (i2 == i && j2 < j))
                        ==> exists|k: int|
                        0 <= k < new_list@.len() && (#[trigger] new_list@[k].bucket) as int == i2
                            && new_list@[k].pos@ == j2,
            decreases es[i as int].paths@.len() - j,
        {
            let p = &index.entries[i].paths[j];
            let ghost pvw = path_view(p@);
            match strip_prefix(old_root, p) {
                Some(rel) => {
                    proof {
                        lemma_prefix_skip(ov, pvw);
                        assert(occ_rel_is(es, i as int, j as int, ov, path_view(rel@)));
                        assert forall|i2: int, j2: int, rel2: Seq<Seq<u8>>|
                            #[trigger] occ_rel_is(es, i2, j2, nv, rel2) implies !(i2 == i && j2
                            == j) by {
                            if i2 == i && j2 == j {
                                lemma_concat_is_prefix(nv, rel2);
                                lemma_prefixes_comparable(ov, nv, pvw);
                            }
                        }
                    }
                    let ghost l0 = old_list@;
                    old_list.push(Occ { rel, bucket: i, pos: Ghost(j as int) });
                    proof {
                        assert forall|i2: int, j2: int, rel2: Seq<Seq<u8>>|
                            #[trigger] occ_rel_is(es, i2, j2, ov, rel2) && (i2 < i || (i2 == i && j2
                            < j + 1)) implies exists|k: int|
                            0 <= k < old_list@.len() && (#[trigger] old_list@[k].bucket) as int
                                == i2 && old_list@[k].pos@ == j2 by {
                            if i2 == i && j2 == j {
                                assert(old_list@[old_list@.len() - 1].bucket as int == i2
                                    && old_list@[old_list@.len() - 1].pos@ == j2);
                            } else {
                                let k = choose|k: int|
                                    0 <= k < l0.len() && (#[trigger] l0[k].bucket) as int == i2
                                        && l0[k].pos@ == j2;
                                assert(old_list@[k].bucket as int == i2 && old_list@[k].pos@ == j2);
                            }
                        }
                    }
                },
                None => {
                    match strip_prefix(new_root, p) {
                        Some(rel) => {
                            proof {
                                lemma_prefix_skip(nv, pvw);
                                assert(occ_rel_is(es, i as int, j as int, nv, path_view(rel@)));
                                assert forall|i2: int, j2: int, rel2: Seq<Seq<u8>>|
                                    #[trigger] occ_rel_is(es, i2, j2, ov, rel2) implies !(i2 == i
                                    && j2 == j) by {
                                    if i2 == i && j2 == j {
                                        lemma_concat_is_prefix(ov, rel2);
                                    }
                                }
                            }
                            let ghost l1 = new_list@;
                            new_list.push(Occ { rel, bucket: i, pos: Ghost(j as int) });
                            proof {
                                assert forall|i2: int, j2: int, rel2: Seq<Seq<u8>>|
                                    #[trigger] occ_rel_is(es, i2, j2, nv, rel2) && (i2 < i || (i2
                                    == i && j2 < j + 1)) implies exists|k: int|
                                    0 <= k < new_list@.len() && (#[trigger] new_list@[
                                    k].bucket) as int == i2 && new_list@[k].pos@ == j2 by {
                                    if i2 == i && j2 == j {
                                        assert(new_list@[new_list@.len() - 1].bucket as int == i2
                                            && new_list@[new_list@.len() - 1].pos@ == j2);
                                    } else {
                                        let k = choose|k: int|
                                            0 <= k < l1.len() && (#[trigger] l1[k].bucket) as int
                                                == i2 && l1[k].pos@ == j2;
                                        assert(new_list@[k].bucket as int == i2 && new_list@[
                                        k].pos@ == j2);
                                    }
                                }
                            }
                        },
                        None => {
                            proof {
                                assert(occ_valid(es, i as int, j as int));
                                assert(!is_prefix_of(ov, occ_path(es, i as int, j as int)));
                                assert(!is_prefix_of(nv, occ_path(es, i as int, j as int)));
                            }
                            return Err(DiffError::ForeignPath);
                        },
                    }
                },
            }
            j += 1;
        }
        i += 1;
    }
    Ok((old_list, new_list))
}

/// Do two list elements carry the same relative form? The exec mirror of a
/// duplicated side.
pub fn has_dup_rel(list: &Vec<Occ>) -> (r: bool)
    ensures
        r <==> exists|k: int, l: int|
            0 <= k < l < list@.len() && path_view((#[trigger] list@[k]).rel@) == path_view(
                (#[trigger] list@[l]).rel@,
            ),
{
    let mut k: usize = 0;
    while k < list.len()
        invariant
            k <= list@.len(),
            forall|k2: int, l2: int|
                0 <= k2 < l2 < list@.len() && k2 < k ==> path_view((#[trigger] list@[k2]).rel@)
                    != path_view((#[trigger] list@[l2]).rel@),
        decreases list@.len() - k,
    {
        let mut l: usize = k + 1;
        while l < list.len()
            invariant
                k < l <= list@.len() || (k >= list@.len() && l == k + 1),
                k < list@.len(),
                forall|l2: int|
                    k < l2 < l ==> path_view(list@[k as int].rel@) != path_view(
                        (#[trigger] list@[l2]).rel@,
                    ),
            decreases list@.len() - l,
        {
            if paths_eq(&list[k].rel, &list[l].rel) {
                return true;
            }
            l += 1;
        }
        k += 1;
    }
    false
}

/// A side is free of duplicated relative paths exactly when the list built
/// from it is.
pub proof fn lemma_dup_side(es: Seq<IndexEntry>, root: Seq<Seq<u8>>, list: Seq<Occ>)
    requires
        occ_list_ok(es, root, list),
        occ_list_complete(es, root, list),
        occ_list_injective(list),
    ensures
        side_unique(es, root) <==> (forall|k: int, l: int|
            0 <= k < l < list.len() ==> path_view((#[trigger] list[k]).rel@) != path_view(
                (#[trigger] list[l]).rel@,
            )),
{
    if side_unique(es, root) {
        assert forall|k: int, l: int| 0 <= k < l < list.len() implies path_view(
            (#[trigger] list[k]).rel@,
        ) != path_view((#[trigger] list[l]).rel@) by {
            let rk = path_view(list[k].rel@);
            let rl = path_view(list[l].rel@);
            assert(occ_rel_is(es, list[k].bucket as int, list[k].pos@, root, rk));
            assert(occ_rel_is(es, list[l].bucket as int, list[l].pos@, root, rl));
            if rk == rl {
                assert(list[k].bucket as int == list[l].bucket as int && list[k].pos@
                    == list[l].pos@);
                assert(false);
            }
        }
    }
    if (forall|k: int, l: int|
        0 <= k < l < list.len() ==> path_view((#[trigger] list[k]).rel@) != path_view(
            (#[trigger] list[l]).rel@,
        )) {
        assert forall|i: int, j: int, i2: int, j2: int, rel: Seq<Seq<u8>>|
            #[trigger] occ_rel_is(es, i, j, root, rel) && #[trigger] occ_rel_is(
            es,
            i2,
            j2,
            root,
            rel,
        ) implies i == i2 && j == j2 by {
            let k = choose|k: int|
                0 <= k < list.len() && (#[trigger] list[k].bucket) as int == i && list[k].pos@
                    == j;
            let l = choose|l: int|
                0 <= l < list.len() && (#[trigger] list[l].bucket) as int == i2 && list[l].pos@
                    == j2;
            assert(occ_rel_is(es, i, j, root, path_view(list[k].rel@)));
            lemma_rel_cancel(root, path_view(list[k].rel@), rel);
            assert(occ_rel_is(es, i2, j2, root, path_view(list[l].rel@)));
            lemma_rel_cancel(root, path_view(list[l].rel@), rel);
            if k != l {
                assert(path_view(list[k].rel@) != path_view(list[l].rel@));
                assert(false);
            }
        }
    }
}

/// The element of the list carrying `rel`, if one does.
pub fn find_rel(list: &Vec<Occ>, rel: &Vec<Vec<u8>>) -> (r: Option<usize>)
    ensures
        match r {
            Some(k) => k < list@.len() && path_view(list@[k as int].rel@) == path_view(rel@),
            None => forall|k: int|
                0 <= k < list@.len() ==> path_view((#[trigger] list@[k]).rel@) != path_view(rel@),
        },
{
    let mut k: usize = 0;
    while k < list.len()
        invariant
            k <= list@.len(),
            forall|k2: int|
                0 <= k2 < k ==> path_view((#[trigger] list@[k2]).rel@) != path_view(rel@),
        decreases list@.len() - k,
    {
        if paths_eq(&list[k].rel, rel) {
            return Some(k);
        }
        k += 1;
    }
    None
}

/// Diff lines listed in strictly increasing path order.
pub open spec fn entries_sorted(s: Seq<(Vec<Vec<u8>>, FileDiff)>) -> bool {
    forall|k: int, l: int|
        0 <= k < l < s.len() ==> path_lt(
            path_view((#[trigger] s[k]).0@),
            path_view((#[trigger] s[l]).0@),
        )
}

/// First position whose path comes after `rel`.
pub fn find_insert_pos(out: &Vec<(Vec<Vec<u8>>, FileDiff)>, rel: &Vec<Vec<u8>>) -> (p: usize)
    requires
        entries_sorted(out@),
        forall|m: int|
            0 <= m < out@.len() ==> path_view((#[trigger] out@[m]).0@) != path_view(rel@),
    ensures
        p <= out@.len(),
        forall|m: int| 0 <= m < p ==> path_lt(path_view((#[trigger] out@[m]).0@), path_view(rel@)),
        p < out@.len() ==> path_lt(path_view(rel@), path_view(out@[p as int].0@)),
{
    let mut p: usize = 0;
    while p < out.len()
        invariant
            p <= out@.len(),
            forall|m: int|
                0 <= m < p ==> path_lt(path_view((#[trigger] out@[m]).0@), path_view(rel@)),
            forall|m: int|
                0 <= m < out@.len() ==> path_view((#[trigger] out@[m]).0@) != path_view(rel@),
        decreases out@.len() - p,
    {
        if path_lt_exec(rel, &out[p].0) {
            return p;
        }
        proof {
            lemma_path_lt_trichotomy(path_view(out@[p as int].0@), path_view(rel@));
        }
        p += 1;
    }
    p
}

/// Every line of `post` is the inserted pair or a line of `pre`.
pub open spec fn insert_keeps(
    pre: Seq<(Vec<Vec<u8>>, FileDiff)>,
    post: Seq<(Vec<Vec<u8>>, FileDiff)>,
    rv: Seq<Seq<u8>>,
    st: FileDiff,
) -> bool {
    forall|m: int|
        0 <= m < post.len() ==> (path_view((#[trigger] post[m]).0@) == rv && post[m].1 == st)
            || exists|m2: int|
            0 <= m2 < pre.len() && path_view((#[trigger] pre[m2]).0@) == path_view(post[m].0@)
                && pre[m2].1 == post[m].1
}

/// Every line of `pre` stands in `post`.
pub open spec fn insert_covers(
    pre: Seq<(Vec<Vec<u8>>, FileDiff)>,
    post: Seq<(Vec<Vec<u8>>, FileDiff)>,
) -> bool {
    forall|m2: int|
        0 <= m2 < pre.len() ==> exists|m: int|
            0 <= m < post.len() && path_view((#[trigger] post[m]).0@) == path_view(
                (#[trigger] pre[m2]).0@,
            ) && post[m].1 == pre[m2].1
}

/// The pair stands somewhere in `s`.
pub open spec fn holds_pair(s: Seq<(Vec<Vec<u8>>, FileDiff)>, rv: Seq<Seq<u8>>, st: FileDiff) -> bool {
    exists|m: int|
        0 <= m < s.len() && path_view((#[trigger] s[m]).0@) == rv && s[m].1 == st
}

/// Every line of `a` is one of the first `bound` lines of `v`.
pub open spec fn pairs_in(
    a: Seq<(Vec<Vec<u8>>, FileDiff)>,
    v: Seq<(Vec<Vec<u8>>, FileDiff)>,
    bound: int,
) -> bool {
    forall|m: int|
        0 <= m < a.len() ==> exists|m2: int|
            0 <= m2 < bound && path_view((#[trigger] a[m]).0@) == path_view(
                (#[trigger] v[m2]).0@,
            ) && a[m].1 == v[m2].1
}

/// Each of the first `bound` lines of `v` stands in `a`.
pub open spec fn pairs_cover(
    a: Seq<(Vec<Vec<u8>>, FileDiff)>,
    v: Seq<(Vec<Vec<u8>>, FileDiff)>,
    bound: int,
) -> bool {
    forall|m2: int|
        0 <= m2 < bound ==> exists|m: int|
            0 <= m < a.len() && path_view((#[trigger] a[m]).0@) == path_view(
                (#[trigger] v[m2]).0@,
            ) && a[m].1 == v[m2].1
}

/// Insert one diff line, keeping the listing sorted; the path must be new.
#[verifier::rlimit(30)]
#[verifier::spinoff_prover]
pub fn insert_sorted(out: &mut Vec<(Vec<Vec<u8>>, FileDiff)>, rel: Vec<Vec<u8>>, st: FileDiff)
    requires
        entries_sorted(old(out)@),
        forall|m: int|
            0 <= m < old(out)@.len() ==> path_view((#[trigger] old(out)@[m]).0@) != path_view(
                rel@,
            ),
    ensures
        entries_sorted(final(out)@),
        final(out)@.len() == old(out)@.len() + 1,
        insert_keeps(old(out)@, final(out)@, path_view(rel@), st),
        insert_covers(old(out)@, final(out)@),
        holds_pair(final(out)@, path_view(rel@), st),
{
    let ghost pre = out@;
    let ghost rv = path_view(rel@);
    let p = find_insert_pos(out, &rel);
    out.insert(p, (rel, st));
    proof {
        let pv = p as int;
        assert(out@ == pre.insert(pv, out@[pv]));
        assert(path_view(out@[pv].0@) == rv && out@[pv].1 == st);
        assert forall|m: int| 0 <= m < out@.len() && m != pv implies out@[m] == pre[
            if m < pv { m } else { m - 1 }
        ] by {}
        assert forall|k: int, l: int| 0 <= k < l < out@.len() implies path_lt(
            path_view((#[trigger] out@[k]).0@),
            path_view((#[trigger] out@[l]).0@),
        ) by {
            let ko = if k < pv { k } else { k - 1 };
            let lo = if l < pv { l } else { l - 1 };
            if k == pv {
                if lo > pv {
                    lemma_path_lt_trans(rv, path_view(pre[pv].0@), path_view(pre[lo].0@));
                }
            } else if l == pv {
                if ko < pv {
                }
            } else {
                if ko < pv && lo >= pv && ko == lo {
                    assert(false);
                }
            }
        }
        assert forall|m: int|
            0 <= m < out@.len() implies (path_view((#[trigger] out@[m]).0@) == rv && out@[m].1
            == st) || exists|m2: int|
            0 <= m2 < pre.len() && path_view((#[trigger] pre[m2]).0@) == path_view(out@[m].0@)
                && pre[m2].1 == out@[m].1 by {
            if m != pv {
                let m2 = if m < pv { m } else { m - 1 };
                assert(pre[m2] == out@[m]);
                assert(0 <= m2 < pre.len() && path_view(pre[m2].0@) == path_view(out@[m].0@)
                    && pre[m2].1 == out@[m].1);
            }
        }
        assert(insert_keeps(pre, out@, rv, st));
        assert forall|m2: int| 0 <= m2 < pre.len() implies exists|m: int|
            0 <= m < out@.len() && path_view((#[trigger] out@[m]).0@) == path_view(
                (#[trigger] pre[m2]).0@,
            ) && out@[m].1 == pre[m2].1 by {
            let m = if m2 < pv { m2 } else { m2 + 1 };
            assert(out@[m] == pre[m2]);
            assert(0 <= m < out@.len() && path_view(out@[m].0@) == path_view(pre[m2].0@)
                && out@[m].1 == pre[m2].1);
        }
        assert(insert_covers(pre, out@));
        assert(0 <= pv < out@.len() && path_view(out@[pv].0@) == rv && out@[pv].1 == st);
        assert(holds_pair(out@, rv, st));
    }
}

/// Relative-path lists free of duplicates.
pub open spec fn rels_distinct(list: Seq<Occ>) -> bool {
    forall|k: int, l: int|
        0 <= k < l < list.len() ==> path_view((#[trigger] list[k]).rel@) != path_view(
            (#[trigger] list[l]).rel@,
        )
}

/// Everything the diff engine produces: the status of every relative path
/// seen under either root in listing order, the copy hints from new path to
/// chosen old source, and the derived reverse map from old source to
/// destinations.
pub struct DiffReport {
    pub entries: Vec<(Vec<Vec<u8>>, FileDiff)>,
    pub copies_from: Vec<(Vec<Vec<u8>>, Vec<Vec<u8>>)>,
    pub copies_to: Vec<(Vec<Vec<u8>>, Vec<Vec<Vec<u8>>>)>,
}

/// The Levenshtein distance between two slash-joined names, each read as
/// UTF-8 (lossily). It depends on the two byte strings alone.
pub uninterp spec fn edit_distance_of(a: Seq<u8>, b: Seq<u8>) -> nat;

/// Relies on edit_distance::edit_distance, a function of the two byte
/// strings alone.
#[verifier::external_body]
fn edit_distance_bytes(a: &Vec<u8>, b: &Vec<u8>) -> (r: usize)
    ensures
        r as nat == edit_distance_of(a@, b@),
{
    edit_distance::edit_distance(
        &String::from_utf8_lossy(a.as_slice()),
        &String::from_utf8_lossy(b.as_slice()),
    )
}

/// The status of the `k`th old-side path: Unchanged when its bucket also
/// holds it under the new root, Changed when another bucket does, Deleted
/// when none does.
fn status_of(
    Ghost(es): Ghost<Seq<IndexEntry>>,
    Ghost(ov): Ghost<Seq<Seq<u8>>>,
    Ghost(nv): Ghost<Seq<Seq<u8>>>,
    old_list: &Vec<Occ>,
    new_list: &Vec<Occ>,
    k: usize,
) -> (st: FileDiff)
    requires
        occ_list_ok(es, ov, old_list@),
        occ_list_ok(es, nv, new_list@),
        occ_list_complete(es, nv, new_list@),
        side_unique(es, ov),
        side_unique(es, nv),
        k < old_list@.len(),
    ensures
        st == spec_status(es, ov, nv, path_view(old_list@[k as int].rel@)),
{
    let ghost rv = path_view(old_list@[k as int].rel@);
    let ghost bk = old_list@[k as int].bucket as int;
    let ghost pk = old_list@[k as int].pos@;
    proof {
        assert(occ_rel_is(es, bk, pk, ov, rv));
        assert(entry_has_rel(es, bk, ov, rv));
        assert(in_side(es, ov, rv));
    }
    let mut st = FileDiff::Deleted;
    match find_rel(new_list, &old_list[k].rel) {
        Some(l) => {
            let ghost bl = new_list@[l as int].bucket as int;
            let ghost pl = new_list@[l as int].pos@;
            proof {
                assert(occ_rel_is(es, bl, pl, nv, rv));
                assert(entry_has_rel(es, bl, nv, rv));
                assert(in_side(es, nv, rv));
            }
            if new_list[l].bucket == old_list[k].bucket {
                st = FileDiff::Unchanged;
                proof {
                    assert(entry_has_rel(es, bk, ov, rv) && entry_has_rel(es, bk, nv, rv));
                    assert(same_bucket(es, ov, nv, rv));
                }
            } else {
                st = FileDiff::Changed;
                proof {
                    if same_bucket(es, ov, nv, rv) {
                        let i = choose|i: int|
                            #[trigger] entry_has_rel(es, i, ov, rv) && entry_has_rel(es, i, nv, rv);
                        let jo = choose|j: int| occ_rel_is(es, i, j, ov, rv);
                        let jn = choose|j: int| occ_rel_is(es, i, j, nv, rv);
                        assert(occ_rel_is(es, i, jo, ov, rv) && occ_rel_is(es, bk, pk, ov, rv));
                        assert(i == bk);
                        assert(occ_rel_is(es, i, jn, nv, rv) && occ_rel_is(es, bl, pl, nv, rv));
                        assert(i == bl);
                        assert(false);
                    }
                }
            }
        },
        None => {
            proof {
                if in_side(es, nv, rv) {
                    let i = choose|i: int| #[trigger] entry_has_rel(es, i, nv, rv);
                    let j = choose|j: int| occ_rel_is(es, i, j, nv, rv);
                    assert(occ_rel_is(es, i, j, nv, rv));
                    let k2 = choose|k2: int|
                        0 <= k2 < new_list@.len() && (#[trigger] new_list@[k2].bucket) as int == i
                            && new_list@[k2].pos@ == j;
                    assert(occ_rel_is(es, i, j, nv, path_view(new_list@[k2].rel@)));
                    lemma_rel_cancel(nv, path_view(new_list@[k2].rel@), rv);
                    assert(false);
                }
            }
        },
    }
    proof {
        reveal(spec_status);
    }
    st
}

/// Is the `l`th new-side path absent from the old side? When it is, its
/// status is Created.
fn created_check(
    Ghost(es): Ghost<Seq<IndexEntry>>,
    Ghost(ov): Ghost<Seq<Seq<u8>>>,
    Ghost(nv): Ghost<Seq<Seq<u8>>>,
    old_list: &Vec<Occ>,
    new_list: &Vec<Occ>,
    l: usize,
) -> (r: bool)
    requires
        occ_list_ok(es, ov, old_list@),
        occ_list_complete(es, ov, old_list@),
        occ_list_ok(es, nv, new_list@),
        l < new_list@.len(),
    ensures
        r <==> !in_side(es, ov, path_view(new_list@[l as int].rel@)),
        r ==> spec_status(es, ov, nv, path_view(new_list@[l as int].rel@)) == FileDiff::Created,
{
    let ghost rv = path_view(new_list@[l as int].rel@);
    let ghost bl = new_list@[l as int].bucket as int;
    let ghost pl = new_list@[l as int].pos@;
    proof {
        assert(occ_rel_is(es, bl, pl, nv, rv));
        assert(entry_has_rel(es, bl, nv, rv));
        assert(in_side(es, nv, rv));
    }
    match find_rel(old_list, &new_list[l].rel) {
        Some(k) => {
            proof {
                let ghost bk = old_list@[k as int].bucket as int;
                assert(occ_rel_is(es, bk, old_list@[k as int].pos@, ov, rv));
                assert(entry_has_rel(es, bk, ov, rv));
                assert(in_side(es, ov, rv));
            }
            false
        },
        None => {
            proof {
                if in_side(es, ov, rv) {
                    let i = choose|i: int| #[trigger] entry_has_rel(es, i, ov, rv);
                    let j = choose|j: int| occ_rel_is(es, i, j, ov, rv);
                    assert(occ_rel_is(es, i, j, ov, rv));
                    let k2 = choose|k2: int|
                        0 <= k2 < old_list@.len() && (#[trigger] old_list@[k2].bucket) as int == i
                            && old_list@[k2].pos@ == j;
                    assert(occ_rel_is(es, i, j, ov, path_view(old_list@[k2].rel@)));
                    lemma_rel_cancel(ov, path_view(old_list@[k2].rel@), rv);
                    assert(false);
                }
                reveal(spec_status);
            }
            true
        },
    }
}

/// The status-assignment stage: every relative path seen under either root
/// receives exactly one entry, carrying its status.
fn compute_statuses(
    Ghost(es): Ghost<Seq<IndexEntry>>,
    Ghost(ov): Ghost<Seq<Seq<u8>>>,
    Ghost(nv): Ghost<Seq<Seq<u8>>>,
    old_list: &Vec<Occ>,
    new_list: &Vec<Occ>,
) -> (out: Vec<(Vec<Vec<u8>>, FileDiff)>)
    requires
        occ_list_ok(es, ov, old_list@),
        occ_list_complete(es, ov, old_list@),
        occ_list_ok(es, nv, new_list@),
        occ_list_complete(es, nv, new_list@),
        side_unique(es, ov),
        side_unique(es, nv),
        rels_distinct(old_list@),
        rels_distinct(new_list@),
    ensures
        forall|m: int, m2: int|
            0 <= m < m2 < out@.len() ==> path_view((#[trigger] out@[m]).0@) != path_view(
                (#[trigger] out@[m2]).0@,
            ),
        forall|m: int|
            0 <= m < out@.len() ==> (#[trigger] out@[m]).1 == spec_status(
                es,
                ov,
                nv,
                path_view(out@[m].0@),
            ),
        forall|rel: Seq<Seq<u8>>|
            (in_side(es, ov, rel) || in_side(es, nv, rel)) <==> exists|m: int|
                0 <= m < out@.len() && path_view((#[trigger] out@[m]).0@) == rel,
{
    let mut out: Vec<(Vec<Vec<u8>>, FileDiff)> = Vec::new();
    let mut k: usize = 0;
    while k < old_list.len()
        invariant
            k <= old_list@.len(),
            occ_list_ok(es, ov, old_list@),
            occ_list_complete(es, ov, old_list@),
            occ_list_ok(es, nv, new_list@),
            occ_list_complete(es, nv, new_list@),
            side_unique(es, ov),
            side_unique(es, nv),
            rels_distinct(old_list@),
            rels_distinct(new_list@),
            out@.len() == k,
            forall|m: int|
                0 <= m < k ==> path_view((#[trigger] out@[m]).0@) == path_view(
                    old_list@[m].rel@,
                ),
            forall|m: int|
                0 <= m < out@.len() ==> (#[trigger] out@[m]).1 == spec_status(
                    es,
                    ov,
                    nv,
                    path_view(out@[m].0@),
                ),
        decreases old_list@.len() - k,
    {
        let st = status_of(Ghost(es), Ghost(ov), Ghost(nv), old_list, new_list, k);
        let rel = clone_path(&old_list[k].rel);
        out.push((rel, st));
        k += 1;
    }
    let ghost n_old = old_list@.len() as int;
    let mut l: usize = 0;
    while l < new_list.len()
        invariant
            l <= new_list@.len(),
            occ_list_ok(es, ov, old_list@),
            occ_list_complete(es, ov, old_list@),
            occ_list_ok(es, nv, new_list@),
            occ_list_complete(es, nv, new_list@),
            side_unique(es, ov),
            side_unique(es, nv),
            rels_distinct(old_list@),
            rels_distinct(new_list@),
            n_old == old_list@.len(),
            n_old <= out@.len(),
            forall|m: int|
                0 <= m < n_old ==> path_view((#[trigger] out@[m]).0@) == path_view(
                    old_list@[m].rel@,
                ),
            forall|m: int|
                n_old <= m < out@.len() ==> exists|l2: int|
                    0 <= l2 < l && path_view((#[trigger] out@[m]).0@) == path_view(
                        new_list@[l2].rel@,
                    ),
            forall|m: int|
                n_old <= m < out@.len() ==> !in_side(es, ov, path_view((#[trigger] out@[m]).0@)),
            forall|m: int|
                0 <= m < out@.len() ==> (#[trigger] out@[m]).1 == spec_status(
                    es,
                    ov,
                    nv,
                    path_view(out@[m].0@),
                ),
            forall|l2: int|
                0 <= l2 < l && !in_side(es, ov, path_view((#[trigger] new_list@[l2]).rel@))
                    ==> exists|m: int|
                    n_old <= m < out@.len() && path_view((#[trigger] out@[m]).0@) == path_view(
                        new_list@[l2].rel@,
                    ),
            forall|m: int, m2: int|
                n_old <= m < m2 < out@.len() ==> path_view((#[trigger] out@[m]).0@) != path_view(
                    (#[trigger] out@[m2]).0@,
                ),
        decreases new_list@.len() - l,
    {
        if created_check(Ghost(es), Ghost(ov), Ghost(nv), old_list, new_list, l) {
            let ghost rv = path_view(new_list@[l as int].rel@);
            proof {
                assert forall|m: int| n_old <= m < out@.len() implies path_view(
                    (#[trigger] out@[m]).0@,
                ) != rv by {
                    let l2 = choose|l2: int|
                        0 <= l2 < l && path_view(out@[m].0@) == path_view(
                            (#[trigger] new_list@[l2]).rel@,
                        );
                    assert(path_view(new_list@[l2].rel@) != path_view(new_list@[l as int].rel@));
                }
            }
            let rel = clone_path(&new_list[l].rel);
            let ghost out_pre = out@;
            out.push((rel, FileDiff::Created));
            proof {
                assert forall|l2: int|
                    0 <= l2 < l + 1 && !in_side(
                        es,
                        ov,
                        path_view((#[trigger] new_list@[l2]).rel@),
                    ) implies exists|m: int|
                    n_old <= m < out@.len() && path_view((#[trigger] out@[m]).0@) == path_view(
                        new_list@[l2].rel@,
                    ) by {
                    if l2 == l {
                        assert(path_view(out@[out@.len() - 1].0@) == path_view(
                            new_list@[l2].rel@,
                        ));
                    } else {
                        let m = choose|m: int|
                            n_old <= m < out_pre.len() && path_view(
                                (#[trigger] out_pre[m]).0@,
                            ) == path_view(new_list@[l2].rel@);
                        assert(n_old <= m < out@.len() && path_view(out@[m].0@) == path_view(
                            new_list@[l2].rel@,
                        ));
                    }
                }
            }
        }
        l += 1;
    }
    proof {
        assert forall|m: int, m2: int| 0 <= m < m2 < out@.len() implies path_view(
            (#[trigger] out@[m]).0@,
        ) != path_view((#[trigger] out@[m2]).0@) by {
            if m2 < n_old {
                assert(path_view(old_list@[m].rel@) != path_view(old_list@[m2].rel@));
            } else if m < n_old {
                assert(occ_rel_is(
                    es,
                    old_list@[m].bucket as int,
                    old_list@[m].pos@,
                    ov,
                    path_view(old_list@[m].rel@),
                ));
                assert(entry_has_rel(es, old_list@[m].bucket as int, ov, path_view(out@[m].0@)));
                assert(in_side(es, ov, path_view(out@[m].0@)));
                assert(!in_side(es, ov, path_view(out@[m2].0@)));
            } else {
            }
        }
        assert forall|rel: Seq<Seq<u8>>|
            (in_side(es, ov, rel) || in_side(es, nv, rel)) implies exists|m: int|
            0 <= m < out@.len() && path_view((#[trigger] out@[m]).0@) == rel by {
            if in_side(es, ov, rel) {
                let i = choose|i: int| #[trigger] entry_has_rel(es, i, ov, rel);
                let j = choose|j: int| occ_rel_is(es, i, j, ov, rel);
                assert(occ_rel_is(es, i, j, ov, rel));
                let k2 = choose|k2: int|
                    0 <= k2 < old_list@.len() && (#[trigger] old_list@[k2].bucket) as int == i
                        && old_list@[k2].pos@ == j;
                assert(occ_rel_is(es, i, j, ov, path_view(old_list@[k2].rel@)));
                lemma_rel_cancel(ov, path_view(old_list@[k2].rel@), rel);
                assert(0 <= k2 < out@.len() && path_view(out@[k2].0@) == rel);
            } else {
                let i = choose|i: int| #[trigger] entry_has_rel(es, i, nv, rel);
                let j = choose|j: int| occ_rel_is(es, i, j, nv, rel);
                assert(occ_rel_is(es, i, j, nv, rel));
                let l2 = choose|l2: int|
                    0 <= l2 < new_list@.len() && (#[trigger] new_list@[l2].bucket) as int == i
                        && new_list@[l2].pos@ == j;
                assert(occ_rel_is(es, i, j, nv, path_view(new_list@[l2].rel@)));
                lemma_rel_cancel(nv, path_view(new_list@[l2].rel@), rel);
                let m = choose|m: int|
                    n_old <= m < out@.len() && path_view((#[trigger] out@[m]).0@) == path_view(
                        new_list@[l2].rel@,
                    );
                assert(0 <= m < out@.len() && path_view(out@[m].0@) == rel);
            }
        }
        assert forall|rel: Seq<Seq<u8>>|
            (exists|m: int| 0 <= m < out@.len() && path_view((#[trigger] out@[m]).0@) == rel)
            implies (in_side(es, ov, rel) || in_side(es, nv, rel)) by {
            let m = choose|m: int|
                0 <= m < out@.len() && path_view((#[trigger] out@[m]).0@) == rel;
            if m < n_old {
                assert(occ_rel_is(
                    es,
                    old_list@[m].bucket as int,
                    old_list@[m].pos@,
                    ov,
                    path_view(old_list@[m].rel@),
                ));
                assert(entry_has_rel(es, old_list@[m].bucket as int, ov, rel));
            } else {
                let l2 = choose|l2: int|
                    0 <= l2 < new_list@.len() && path_view(out@[m].0@) == path_view(
                        (#[trigger] new_list@[l2]).rel@,
                    );
                assert(occ_rel_is(
                    es,
                    new_list@[l2].bucket as int,
                    new_list@[l2].pos@,
                    nv,
                    path_view(new_list@[l2].rel@),
                ));
                assert(entry_has_rel(es, new_list@[l2].bucket as int, nv, rel));
            }
        }
    }
    out
}
/// After one sorted insertion, every held pair is one of the first `t + 1`
/// pairs of `v`.
proof fn lemma_sort_step_fwd(
    v: Seq<(Vec<Vec<u8>>, FileDiff)>,
    pre: Seq<(Vec<Vec<u8>>, FileDiff)>,
    post: Seq<(Vec<Vec<u8>>, FileDiff)>,
    t: int,
    rv: Seq<Seq<u8>>,
    st: FileDiff,
)
    requires
        0 <= t < v.len(),
        rv == path_view(v[t].0@),
        st == v[t].1,
        pairs_in(pre, v, t),
        insert_keeps(pre, post, rv, st),
    ensures
        pairs_in(post, v, t + 1),
{
    assert forall|m: int| 0 <= m < post.len() implies exists|m2: int|
        0 <= m2 < t + 1 && path_view((#[trigger] post[m]).0@) == path_view(
            (#[trigger] v[m2]).0@,
        ) && post[m].1 == v[m2].1 by {
        let x = post[m];
        let y = v[t];
        if path_view(post[m].0@) == rv && post[m].1 == st {
            assert(0 <= t < t + 1 && path_view(post[m].0@) == path_view(v[t].0@) && post[m].1
                == v[t].1);
        } else {
            let m2 = choose|m2: int|
                0 <= m2 < pre.len() && path_view((#[trigger] pre[m2]).0@) == path_view(
                    post[m].0@,
                ) && pre[m2].1 == post[m].1;
            let z = pre[m2];
            let m3 = choose|m3: int|
                0 <= m3 < t && path_view(pre[m2].0@) == path_view((#[trigger] v[m3]).0@)
                    && pre[m2].1 == v[m3].1;
            assert(0 <= m3 < t + 1 && path_view(post[m].0@) == path_view(v[m3].0@) && post[m].1
                == v[m3].1);
        }
    }
    assert(pairs_in(post, v, t + 1));
}

/// After one sorted insertion, each of the first `t + 1` pairs of `v` is
/// held.
proof fn lemma_sort_step_bwd(
    v: Seq<(Vec<Vec<u8>>, FileDiff)>,
    pre: Seq<(Vec<Vec<u8>>, FileDiff)>,
    post: Seq<(Vec<Vec<u8>>, FileDiff)>,
    t: int,
    rv: Seq<Seq<u8>>,
    st: FileDiff,
)
    requires
        0 <= t < v.len(),
        rv == path_view(v[t].0@),
        st == v[t].1,
        pairs_cover(pre, v, t),
        insert_covers(pre, post),
        holds_pair(post, rv, st),
    ensures
        pairs_cover(post, v, t + 1),
{
    assert forall|m2: int| 0 <= m2 < t + 1 implies exists|m: int|
        0 <= m < post.len() && path_view((#[trigger] post[m]).0@) == path_view(
            (#[trigger] v[m2]).0@,
        ) && post[m].1 == v[m2].1 by {
        let y = v[m2];
        if m2 == t {
            let m = choose|m: int|
                0 <= m < post.len() && path_view((#[trigger] post[m]).0@) == rv && post[m].1
                    == st;
            assert(0 <= m < post.len() && path_view(post[m].0@) == path_view(v[m2].0@)
                && post[m].1 == v[m2].1);
        } else {
            let mp = choose|mp: int|
                0 <= mp < pre.len() && path_view((#[trigger] pre[mp]).0@) == path_view(
                    v[m2].0@,
                ) && pre[mp].1 == v[m2].1;
            let z = pre[mp];
            let m = choose|m: int|
                0 <= m < post.len() && path_view((#[trigger] post[m]).0@) == path_view(
                    pre[mp].0@,
                ) && post[m].1 == pre[mp].1;
            assert(0 <= m < post.len() && path_view(post[m].0@) == path_view(v[m2].0@)
                && post[m].1 == v[m2].1);
        }
    }
    assert(pairs_cover(post, v, t + 1));
}

/// The pair to insert next is not yet held: its path differs from every held
/// path.
proof fn lemma_sort_fresh(
    v: Seq<(Vec<Vec<u8>>, FileDiff)>,
    pre: Seq<(Vec<Vec<u8>>, FileDiff)>,
    t: int,
)
    requires
        0 <= t < v.len(),
        forall|m: int, m2: int|
            0 <= m < m2 < v.len() ==> path_view((#[trigger] v[m]).0@) != path_view(
                (#[trigger] v[m2]).0@,
            ),
        pairs_in(pre, v, t),
    ensures
        forall|m: int|
            0 <= m < pre.len() ==> path_view((#[trigger] pre[m]).0@) != path_view(v[t].0@),
{
    assert forall|m: int| 0 <= m < pre.len() implies path_view((#[trigger] pre[m]).0@)
        != path_view(v[t].0@) by {
        let x = pre[m];
        let m2 = choose|m2: int|
            0 <= m2 < t && path_view(pre[m].0@) == path_view((#[trigger] v[m2]).0@) && pre[m].1
                == v[m2].1;
        assert(path_view(v[m2].0@) != path_view(v[t].0@));
    }
}

/// Order the diff lines by path: the listing order of the report. The pairs
/// are kept exactly; only their order changes.
fn sort_entries(v: &Vec<(Vec<Vec<u8>>, FileDiff)>) -> (out: Vec<(Vec<Vec<u8>>, FileDiff)>)
    requires
        forall|m: int, m2: int|
            0 <= m < m2 < v@.len() ==> path_view((#[trigger] v@[m]).0@) != path_view(
                (#[trigger] v@[m2]).0@,
            ),
    ensures
        entries_sorted(out@),
        out@.len() == v@.len(),
        pairs_in(out@, v@, v@.len() as int),
        pairs_cover(out@, v@, v@.len() as int),
{
    let mut out: Vec<(Vec<Vec<u8>>, FileDiff)> = Vec::new();
    let mut t: usize = 0;
    while t < v.len()
        invariant
            t <= v@.len(),
            forall|m: int, m2: int|
                0 <= m < m2 < v@.len() ==> path_view((#[trigger] v@[m]).0@) != path_view(
                    (#[trigger] v@[m2]).0@,
                ),
            entries_sorted(out@),
            out@.len() == t,
            pairs_in(out@, v@, t as int),
            pairs_cover(out@, v@, t as int),
        decreases v@.len() - t,
    {
        proof {
            lemma_sort_fresh(v@, out@, t as int);
        }
        let rel = clone_path(&v[t].0);
        let ghost rv = path_view(rel@);
        let st = v[t].1;
        let ghost out_pre = out@;
        insert_sorted(&mut out, rel, st);
        proof {
            lemma_sort_step_fwd(v@, out_pre, out@, t as int, rv, st);
            lemma_sort_step_bwd(v@, out_pre, out@, t as int, rv, st);
        }
        t += 1;
    }
    out
}

/// The chosen copy source for `newr`: an old path of the same bucket whose
/// distance to `newr` is maximal over that bucket, the pairing the
/// descending-distance, first-write-wins walk of the bucket records.
pub open spec fn copy_pair_ok(
    es: Seq<IndexEntry>,
    ov: Seq<Seq<u8>>,
    nv: Seq<Seq<u8>>,
    newr: Seq<Seq<u8>>,
    oldr: Seq<Seq<u8>>,
) -> bool {
    exists|i: int|
        #[trigger] entry_has_rel(es, i, nv, newr) && entry_has_rel(es, i, ov, oldr) && (forall|
            o2: Seq<Seq<u8>>,
        |
            #[trigger] entry_has_rel(es, i, ov, o2) ==> edit_distance_of(
                spec_join(o2),
                spec_join(newr),
            ) <= edit_distance_of(spec_join(oldr), spec_join(newr)))
}

/// Every copy key is the relative form of one of the first `bound` new-side
/// paths.
pub open spec fn cf_from_new(
    cf: Seq<(Vec<Vec<u8>>, Vec<Vec<u8>>)>,
    new_list: Seq<Occ>,
    bound: int,
) -> bool {
    forall|m: int|
        0 <= m < cf.len() ==> exists|l2: int|
            0 <= l2 < bound && path_view((#[trigger] cf[m]).0@) == path_view(
                (#[trigger] new_list[l2]).rel@,
            )
}

/// Each of the first `bound` new-side paths whose bucket also holds an
/// old-side path has a copy key.
pub open spec fn cf_covers(
    cf: Seq<(Vec<Vec<u8>>, Vec<Vec<u8>>)>,
    old_list: Seq<Occ>,
    new_list: Seq<Occ>,
    bound: int,
) -> bool {
    forall|l2: int|
        #![trigger new_list[l2]]
        0 <= l2 < bound && (exists|k: int|
            0 <= k < old_list.len() && (#[trigger] old_list[k]).bucket == new_list[l2].bucket)
            ==> exists|m: int|
            0 <= m < cf.len() && path_view((#[trigger] cf[m]).0@) == path_view(
                new_list[l2].rel@,
            )
}

/// Every new-side path that shares a bucket with an old-side path has a copy
/// key.
pub open spec fn copies_complete(
    es: Seq<IndexEntry>,
    ov: Seq<Seq<u8>>,
    nv: Seq<Seq<u8>>,
    cf: Seq<(Vec<Vec<u8>>, Vec<Vec<u8>>)>,
) -> bool {
    forall|i: int, rel: Seq<Seq<u8>>|
        #[trigger] entry_has_rel(es, i, nv, rel) && (exists|o2: Seq<Seq<u8>>|
            #[trigger] entry_has_rel(es, i, ov, o2)) ==> exists|m: int|
            0 <= m < cf.len() && path_view((#[trigger] cf[m]).0@) == rel
}

/// The copy-resolution stage: give every new path that shares content with
/// some old path one source, the most distant old path of its bucket.
fn resolve_copies(
    Ghost(es): Ghost<Seq<IndexEntry>>,
    Ghost(ov): Ghost<Seq<Seq<u8>>>,
    Ghost(nv): Ghost<Seq<Seq<u8>>>,
    old_list: &Vec<Occ>,
    new_list: &Vec<Occ>,
) -> (cf: Vec<(Vec<Vec<u8>>, Vec<Vec<u8>>)>)
    requires
        occ_list_ok(es, ov, old_list@),
        occ_list_complete(es, ov, old_list@),
        occ_list_ok(es, nv, new_list@),
        occ_list_complete(es, nv, new_list@),
        side_unique(es, ov),
        side_unique(es, nv),
        rels_distinct(old_list@),
        rels_distinct(new_list@),
    ensures
        forall|m: int|
            0 <= m < cf@.len() ==> copy_pair_ok(
                es,
                ov,
                nv,
                path_view((#[trigger] cf@[m]).0@),
                path_view(cf@[m].1@),
            ),
        forall|m: int, m2: int|
            0 <= m < m2 < cf@.len() ==> path_view((#[trigger] cf@[m]).0@) != path_view(
                (#[trigger] cf@[m2]).0@,
            ),
        copies_complete(es, ov, nv, cf@),
{
    let mut cf: Vec<(Vec<Vec<u8>>, Vec<Vec<u8>>)> = Vec::new();
    let mut l: usize = 0;
    while l < new_list.len()
        invariant
            l <= new_list@.len(),
            occ_list_ok(es, ov, old_list@),
            occ_list_complete(es, ov, old_list@),
            occ_list_ok(es, nv, new_list@),
            occ_list_complete(es, nv, new_list@),
            side_unique(es, ov),
            side_unique(es, nv),
            rels_distinct(old_list@),
            rels_distinct(new_list@),
            forall|m: int|
                0 <= m < cf@.len() ==> copy_pair_ok(
                    es,
                    ov,
                    nv,
                    path_view((#[trigger] cf@[m]).0@),
                    path_view(cf@[m].1@),
                ),
            cf_from_new(cf@, new_list@, l as int),
            forall|m: int, m2: int|
                0 <= m < m2 < cf@.len() ==> path_view((#[trigger] cf@[m]).0@) != path_view(
                    (#[trigger] cf@[m2]).0@,
                ),
            cf_covers(cf@, old_list@, new_list@, l as int),
        decreases new_list@.len() - l,
    {
        let ghost rv = path_view(new_list@[l as int].rel@);
        let ghost bl = new_list@[l as int].bucket as int;
        let njoined = join_components(&new_list[l].rel);
        let mut best: Option<usize> = None;
        let mut best_dist: usize = 0;
        let mut k: usize = 0;
        while k < old_list.len()
            invariant
                k <= old_list@.len(),
                l < new_list@.len(),
                occ_list_ok(es, ov, old_list@),
                rv == path_view(new_list@[l as int].rel@),
                bl == new_list@[l as int].bucket as int,
                njoined@ == spec_join(rv),
                match best {
                    Some(kb) => {
                        &&& (kb as int) < k
                        &&& old_list@[kb as int].bucket as int == bl
                        &&& best_dist as nat == edit_distance_of(
                            spec_join(path_view(old_list@[kb as int].rel@)),
                            spec_join(rv),
                        )
                        &&& forall|k2: int|
                            0 <= k2 < k && (#[trigger] old_list@[k2]).bucket as int == bl
                                ==> edit_distance_of(
                                spec_join(path_view(old_list@[k2].rel@)),
                                spec_join(rv),
                            ) <= best_dist as nat
                    },
                    None => forall|k2: int|
                        0 <= k2 < k ==> (#[trigger] old_list@[k2]).bucket as int != bl,
                },
            decreases old_list@.len() - k,
        {
            if old_list[k].bucket == new_list[l].bucket {
                let ojoined = join_components(&old_list[k].rel);
                let d = edit_distance_bytes(&ojoined, &njoined);
                let replace = match best {
                    None => true,
                    Some(_) => d > best_dist,
                };
                if replace {
                    best = Some(k);
                    best_dist = d;
                }
            }
            k += 1;
        }
        match best {
            Some(kb) => {
                let ghost cf_pre = cf@;
                let newc = clone_path(&new_list[l].rel);
                let oldc = clone_path(&old_list[kb].rel);
                let ghost orv = path_view(old_list@[kb as int].rel@);
                cf.push((newc, oldc));
                proof {
                    assert(occ_rel_is(es, bl, new_list@[l as int].pos@, nv, rv));
                    assert(entry_has_rel(es, bl, nv, rv));
                    assert(occ_rel_is(
                        es,
                        old_list@[kb as int].bucket as int,
                        old_list@[kb as int].pos@,
                        ov,
                        orv,
                    ));
                    assert(entry_has_rel(es, bl, ov, orv));
                    assert forall|o2: Seq<Seq<u8>>| #[trigger] entry_has_rel(es, bl, ov, o2)
                        implies edit_distance_of(spec_join(o2), spec_join(rv))
                        <= edit_distance_of(spec_join(orv), spec_join(rv)) by {
                        let j = choose|j: int| occ_rel_is(es, bl, j, ov, o2);
                        assert(occ_rel_is(es, bl, j, ov, o2));
                        let k2 = choose|k2: int|
                            0 <= k2 < old_list@.len() && (#[trigger] old_list@[k2].bucket) as int
                                == bl && old_list@[k2].pos@ == j;
                        assert(occ_rel_is(es, bl, j, ov, path_view(old_list@[k2].rel@)));
                        lemma_rel_cancel(ov, path_view(old_list@[k2].rel@), o2);
                        assert(edit_distance_of(
                            spec_join(path_view(old_list@[k2].rel@)),
                            spec_join(rv),
                        ) <= best_dist as nat);
                    }
                    assert(copy_pair_ok(es, ov, nv, rv, orv));
                    assert(path_view(cf@[cf@.len() - 1].0@) == rv);
                    assert(path_view(cf@[cf@.len() - 1].1@) == orv);
                    assert forall|m: int| 0 <= m < cf@.len() implies copy_pair_ok(
                        es,
                        ov,
                        nv,
                        path_view((#[trigger] cf@[m]).0@),
                        path_view(cf@[m].1@),
                    ) by {
                        if m < cf_pre.len() {
                            assert(cf@[m] == cf_pre[m]);
                        }
                    }
                    assert forall|m: int| 0 <= m < cf@.len() implies exists|l2: int|
                        0 <= l2 < l + 1 && path_view((#[trigger] cf@[m]).0@) == path_view(
                            (#[trigger] new_list@[l2]).rel@,
                        ) by {
                        let y = new_list@[l as int];
                        if m < cf_pre.len() {
                            assert(cf@[m] == cf_pre[m]);
                            let l2 = choose|l2: int|
                                0 <= l2 < l && path_view((#[trigger] cf_pre[m]).0@) == path_view(
                                    (#[trigger] new_list@[l2]).rel@,
                                );
                            assert(0 <= l2 < l + 1 && path_view(cf@[m].0@) == path_view(
                                new_list@[l2].rel@,
                            ));
                        } else {
                            assert(0 <= l < l + 1 && path_view(cf@[m].0@) == path_view(
                                new_list@[l as int].rel@,
                            ));
                        }
                    }
                    assert(cf_from_new(cf@, new_list@, l + 1));
                    assert forall|m: int, m2: int| 0 <= m < m2 < cf@.len() implies path_view(
                        (#[trigger] cf@[m]).0@,
                    ) != path_view((#[trigger] cf@[m2]).0@) by {
                        if m2 == cf@.len() - 1 {
                            assert(cf@[m] == cf_pre[m]);
                            let l2 = choose|l2: int|
                                0 <= l2 < l && path_view((#[trigger] cf_pre[m]).0@) == path_view(
                                    (#[trigger] new_list@[l2]).rel@,
                                );
                            assert(path_view(new_list@[l2].rel@) != path_view(
                                new_list@[l as int].rel@,
                            ));
                        } else {
                            assert(cf@[m] == cf_pre[m] && cf@[m2] == cf_pre[m2]);
                        }
                    }
                    assert forall|l2: int|
                        #![trigger new_list@[l2]]
                        0 <= l2 < l + 1 && (exists|k2: int|
                            0 <= k2 < old_list@.len() && (#[trigger] old_list@[k2]).bucket
                                == new_list@[l2].bucket) implies exists|m: int|
                        0 <= m < cf@.len() && path_view((#[trigger] cf@[m]).0@) == path_view(
                            new_list@[l2].rel@,
                        ) by {
                        if l2 == l {
                            assert(0 <= cf@.len() - 1 < cf@.len() && path_view(
                                cf@[cf@.len() - 1].0@,
                            ) == path_view(new_list@[l2].rel@));
                        } else {
                            let m = choose|m: int|
                                0 <= m < cf_pre.len() && path_view((#[trigger] cf_pre[m]).0@)
                                    == path_view(new_list@[l2].rel@);
                            assert(cf@[m] == cf_pre[m]);
                            assert(0 <= m < cf@.len() && path_view(cf@[m].0@) == path_view(
                                new_list@[l2].rel@,
                            ));
                        }
                    }
                    assert(cf_covers(cf@, old_list@, new_list@, l + 1));
                }
            },
            None => {
                proof {
                    assert forall|l2: int|
                        #![trigger new_list@[l2]]
                        0 <= l2 < l + 1 && (exists|k2: int|
                            0 <= k2 < old_list@.len() && (#[trigger] old_list@[k2]).bucket
                                == new_list@[l2].bucket) implies exists|m: int|
                        0 <= m < cf@.len() && path_view((#[trigger] cf@[m]).0@) == path_view(
                            new_list@[l2].rel@,
                        ) by {
                        if l2 == l {
                            let k2 = choose|k2: int|
                                0 <= k2 < old_list@.len() && (#[trigger] old_list@[k2]).bucket
                                    == new_list@[l2].bucket;
                            assert(old_list@[k2].bucket as int != bl);
                            assert(false);
                        } else {
                            let m = choose|m: int|
                                0 <= m < cf@.len() && path_view((#[trigger] cf@[m]).0@)
                                    == path_view(new_list@[l2].rel@);
                            assert(0 <= m < cf@.len() && path_view(cf@[m].0@) == path_view(
                                new_list@[l2].rel@,
                            ));
                        }
                    }
                    assert(cf_covers(cf@, old_list@, new_list@, l + 1));
                    assert(cf_from_new(cf@, new_list@, l + 1)) by {
                        assert forall|m: int| 0 <= m < cf@.len() implies exists|l2: int|
                            0 <= l2 < l + 1 && path_view((#[trigger] cf@[m]).0@) == path_view(
                                (#[trigger] new_list@[l2]).rel@,
                            ) by {
                            let x = cf@[m];
                            let l2 = choose|l2: int|
                                0 <= l2 < l && path_view(cf@[m].0@) == path_view(
                                    (#[trigger] new_list@[l2]).rel@,
                                );
                            assert(0 <= l2 < l + 1 && path_view(cf@[m].0@) == path_view(
                                new_list@[l2].rel@,
                            ));
                        }
                    }
                }
            },
        }
        l += 1;
    }
    proof {
        assert forall|i: int, rel: Seq<Seq<u8>>|
            #[trigger] entry_has_rel(es, i, nv, rel) && (exists|o2: Seq<Seq<u8>>|
                #[trigger] entry_has_rel(es, i, ov, o2)) implies exists|m: int|
            0 <= m < cf@.len() && path_view((#[trigger] cf@[m]).0@) == rel by {
            let j = choose|j: int| occ_rel_is(es, i, j, nv, rel);
            assert(occ_rel_is(es, i, j, nv, rel));
            let l2 = choose|l2: int|
                0 <= l2 < new_list@.len() && (#[trigger] new_list@[l2].bucket) as int == i
                    && new_list@[l2].pos@ == j;
            assert(occ_rel_is(es, i, j, nv, path_view(new_list@[l2].rel@)));
            lemma_rel_cancel(nv, path_view(new_list@[l2].rel@), rel);
            let o2 = choose|o2: Seq<Seq<u8>>| #[trigger] entry_has_rel(es, i, ov, o2);
            let j2 = choose|j2: int| occ_rel_is(es, i, j2, ov, o2);
            assert(occ_rel_is(es, i, j2, ov, o2));
            let k2 = choose|k2: int|
                0 <= k2 < old_list@.len() && (#[trigger] old_list@[k2].bucket) as int == i
                    && old_list@[k2].pos@ == j2;
            assert(old_list@[k2].bucket == new_list@[l2].bucket);
            let y = new_list@[l2];
            let m = choose|m: int|
                0 <= m < cf@.len() && path_view((#[trigger] cf@[m]).0@) == path_view(
                    new_list@[l2].rel@,
                );
            assert(0 <= m < cf@.len() && path_view(cf@[m].0@) == rel);
        }
        assert(copies_complete(es, ov, nv, cf@));
    }
    cf
}

/// The `d`th destination of group `g` is a recorded copy pair.
pub open spec fn dest_listed(
    cf: Seq<(Vec<Vec<u8>>, Vec<Vec<u8>>)>,
    ct: Seq<(Vec<Vec<u8>>, Vec<Vec<Vec<u8>>>)>,
    g: int,
    d: int,
) -> bool {
    exists|m: int|
        0 <= m < cf.len() && path_view((#[trigger] cf[m]).0@) == path_view(ct[g].1@[d]@)
            && path_view(cf[m].1@) == path_view(ct[g].0@)
}

/// Every destination listed under a source is a recorded copy pair.
pub open spec fn groups_sound(
    cf: Seq<(Vec<Vec<u8>>, Vec<Vec<u8>>)>,
    ct: Seq<(Vec<Vec<u8>>, Vec<Vec<Vec<u8>>>)>,
) -> bool {
    forall|g: int, d: int|
        0 <= g < ct.len() && 0 <= d < ct[g].1@.len() ==> #[trigger] dest_listed(cf, ct, g, d)
}

/// The `m`th copy pair stands in the reverse map: its source is a key and
/// its new path is among that key's destinations.
pub open spec fn pair_grouped(
    cf: Seq<(Vec<Vec<u8>>, Vec<Vec<u8>>)>,
    ct: Seq<(Vec<Vec<u8>>, Vec<Vec<Vec<u8>>>)>,
    m: int,
) -> bool {
    exists|g: int, d: int|
        #![trigger ct[g].1@[d]]
        0 <= g < ct.len() && 0 <= d < ct[g].1@.len() && path_view(ct[g].0@) == path_view(
            cf[m].1@,
        ) && path_view(ct[g].1@[d]@) == path_view(cf[m].0@)
}

/// Every recorded copy pair is listed: its source is a key and its new path
/// stands among that key's destinations.
pub open spec fn groups_complete(
    cf: Seq<(Vec<Vec<u8>>, Vec<Vec<u8>>)>,
    ct: Seq<(Vec<Vec<u8>>, Vec<Vec<Vec<u8>>>)>,
) -> bool {
    forall|m: int| 0 <= m < cf.len() ==> #[trigger] pair_grouped(cf, ct, m)
}

/// The destinations under `src` in the reverse map, if `src` is a key.
fn find_group(ct: &Vec<(Vec<Vec<u8>>, Vec<Vec<Vec<u8>>>)>, src: &Vec<Vec<u8>>) -> (r: Option<
    usize,
>)
    ensures
        match r {
            Some(g) => g < ct@.len() && path_view(ct@[g as int].0@) == path_view(src@),
            None => forall|g: int|
                0 <= g < ct@.len() ==> path_view((#[trigger] ct@[g]).0@) != path_view(src@),
        },
{
    let mut g: usize = 0;
    while g < ct.len()
        invariant
            g <= ct@.len(),
            forall|g2: int|
                0 <= g2 < g ==> path_view((#[trigger] ct@[g2]).0@) != path_view(src@),
        decreases ct@.len() - g,
    {
        if paths_eq(&ct[g].0, src) {
            return Some(g);
        }
        g += 1;
    }
    None
}

/// The derived reverse multimap: one entry per chosen source, carrying every
/// new path it was chosen for.
#[verifier::rlimit(30)]
#[verifier::spinoff_prover]
fn group_copies(cf: &Vec<(Vec<Vec<u8>>, Vec<Vec<u8>>)>) -> (ct: Vec<
    (Vec<Vec<u8>>, Vec<Vec<Vec<u8>>>),
>)
    ensures
        groups_sound(cf@, ct@),
        groups_complete(cf@, ct@),
        forall|g: int, g2: int|
            0 <= g < g2 < ct@.len() ==> path_view((#[trigger] ct@[g]).0@) != path_view(
                (#[trigger] ct@[g2]).0@,
            ),
        forall|g: int| 0 <= g < ct@.len() ==> (#[trigger] ct@[g]).1@.len() > 0,
{
    let mut ct: Vec<(Vec<Vec<u8>>, Vec<Vec<Vec<u8>>>)> = Vec::new();
    let mut m: usize = 0;
    while m < cf.len()
        invariant
            m <= cf@.len(),
            groups_sound(cf@.take(m as int), ct@),
            groups_complete(cf@.take(m as int), ct@),
            forall|g: int, g2: int|
                0 <= g < g2 < ct@.len() ==> path_view((#[trigger] ct@[g]).0@) != path_view(
                    (#[trigger] ct@[g2]).0@,
                ),
            forall|g: int| 0 <= g < ct@.len() ==> (#[trigger] ct@[g]).1@.len() > 0,
        decreases cf@.len() - m,
    {
        let ghost taken_pre = cf@.take(m as int);
        let ghost taken_post = cf@.take(m + 1);
        proof {
            assert(taken_post.drop_last() =~= taken_pre);
            assert(taken_post.last() == cf@[m as int]);
            assert(forall|m2: int| 0 <= m2 < m ==> taken_post[m2] == taken_pre[m2]);
            assert(taken_post[m as int] == cf@[m as int]);
        }
        let dst = clone_path(&cf[m].0);
        match find_group(&ct, &cf[m].1) {
            Some(g) => {
                let ghost ct_pre = ct@;
                let mut tmp: (Vec<Vec<u8>>, Vec<Vec<Vec<u8>>>) = (Vec::new(), Vec::new());
                ct.set_and_swap(g, &mut tmp);
                tmp.1.push(dst);
                ct.set_and_swap(g, &mut tmp);
                proof {
                    let gv = g as int;
                    assert(forall|g2: int|
                        0 <= g2 < ct@.len() && g2 != gv ==> ct@[g2] == ct_pre[g2]);
                    assert(ct@[gv].0 == ct_pre[gv].0);
                    assert(ct@[gv].1@ == ct_pre[gv].1@.push(ct@[gv].1@[ct@[gv].1@.len() - 1]));
                    assert(path_view(ct@[gv].1@[ct@[gv].1@.len() - 1]@) == path_view(
                        cf@[m as int].0@,
                    ));
                    assert forall|g2: int, d: int|
                        0 <= g2 < ct@.len() && 0 <= d < ct@[g2].1@.len() implies #[trigger] dest_listed(
                        taken_post,
                        ct@,
                        g2,
                        d,
                    ) by {
                        if g2 == gv && d == ct@[gv].1@.len() - 1 {
                            assert(0 <= m < taken_post.len() && path_view(
                                (#[trigger] taken_post[m as int]).0@,
                            ) == path_view(ct@[g2].1@[d]@) && path_view(taken_post[m as int].1@)
                                == path_view(ct@[g2].0@));
                        } else {
                            if g2 == gv {
                                assert(0 <= d < ct_pre[g2].1@.len());
                                assert(ct_pre[g2].1@[d] == ct@[g2].1@[d]);
                            } else {
                                assert(ct@[g2] == ct_pre[g2]);
                            }
                            assert(dest_listed(taken_pre, ct_pre, g2, d));
                            let m2 = choose|m2: int|
                                0 <= m2 < taken_pre.len() && path_view(
                                    (#[trigger] taken_pre[m2]).0@,
                                ) == path_view(ct_pre[g2].1@[d]@) && path_view(taken_pre[m2].1@)
                                    == path_view(ct_pre[g2].0@);
                            assert(taken_post[m2] == taken_pre[m2]);
                            assert(0 <= m2 < taken_post.len() && path_view(
                                (#[trigger] taken_post[m2]).0@,
                            ) == path_view(ct@[g2].1@[d]@) && path_view(taken_post[m2].1@)
                                == path_view(ct@[g2].0@));
                        }
                    }
                    assert(groups_sound(taken_post, ct@));
                    assert forall|m2: int| 0 <= m2 < taken_post.len() implies #[trigger] pair_grouped(
                        taken_post,
                        ct@,
                        m2,
                    ) by {
                        if m2 < m {
                            assert(pair_grouped(taken_pre, ct_pre, m2));
                            let (g2, d) = choose|g2: int, d: int|
                                #![trigger ct_pre[g2].1@[d]]
                                0 <= g2 < ct_pre.len() && 0 <= d < ct_pre[g2].1@.len()
                                    && path_view(ct_pre[g2].0@) == path_view(
                                    taken_pre[m2].1@,
                                ) && path_view(ct_pre[g2].1@[d]@) == path_view(
                                    taken_pre[m2].0@,
                                );
                            if g2 == gv {
                                assert(ct@[gv].1@[d] == ct_pre[gv].1@[d]);
                                assert(0 <= g2 < ct@.len() && 0 <= d < ct@[g2].1@.len()
                                    && path_view(ct@[g2].0@) == path_view(taken_post[m2].1@)
                                    && path_view((#[trigger] ct@[g2].1@[d])@) == path_view(
                                    taken_post[m2].0@,
                                ));
                            } else {
                                assert(ct@[g2] == ct_pre[g2]);
                                assert(0 <= g2 < ct@.len() && 0 <= d < ct@[g2].1@.len()
                                    && path_view(ct@[g2].0@) == path_view(taken_post[m2].1@)
                                    && path_view((#[trigger] ct@[g2].1@[d])@) == path_view(
                                    taken_post[m2].0@,
                                ));
                            }
                        } else {
                            let d = ct@[gv].1@.len() - 1;
                            assert(0 <= gv < ct@.len() && 0 <= d < ct@[gv].1@.len() && path_view(
                                ct@[gv].0@,
                            ) == path_view(taken_post[m2].1@) && path_view(
                                (#[trigger] ct@[gv].1@[d])@,
                            ) == path_view(taken_post[m2].0@));
                        }
                    }
                    assert(groups_complete(taken_post, ct@));
                }
            },
            None => {
                let ghost ct_pre = ct@;
                let src = clone_path(&cf[m].1);
                let mut ds: Vec<Vec<Vec<u8>>> = Vec::new();
                ds.push(dst);
                ct.push((src, ds));
                proof {
                    let gv = ct@.len() - 1;
                    assert(forall|g2: int| 0 <= g2 < gv ==> ct@[g2] == ct_pre[g2]);
                    assert(path_view(ct@[gv].0@) == path_view(cf@[m as int].1@));
                    assert(ct@[gv].1@.len() == 1);
                    assert(path_view(ct@[gv].1@[0]@) == path_view(cf@[m as int].0@));
                    assert forall|g2: int, d: int|
                        0 <= g2 < ct@.len() && 0 <= d < ct@[g2].1@.len() implies #[trigger] dest_listed(
                        taken_post,
                        ct@,
                        g2,
                        d,
                    ) by {
                        if g2 == gv {
                            assert(d == 0);
                            assert(0 <= m < taken_post.len() && path_view(
                                (#[trigger] taken_post[m as int]).0@,
                            ) == path_view(ct@[g2].1@[d]@) && path_view(taken_post[m as int].1@)
                                == path_view(ct@[g2].0@));
                        } else {
                            assert(ct@[g2] == ct_pre[g2]);
                            assert(dest_listed(taken_pre, ct_pre, g2, d));
                            let m2 = choose|m2: int|
                                0 <= m2 < taken_pre.len() && path_view(
                                    (#[trigger] taken_pre[m2]).0@,
                                ) == path_view(ct_pre[g2].1@[d]@) && path_view(taken_pre[m2].1@)
                                    == path_view(ct_pre[g2].0@);
                            assert(taken_post[m2] == taken_pre[m2]);
                            assert(0 <= m2 < taken_post.len() && path_view(
                                (#[trigger] taken_post[m2]).0@,
                            ) == path_view(ct@[g2].1@[d]@) && path_view(taken_post[m2].1@)
                                == path_view(ct@[g2].0@));
                        }
                    }
                    assert(groups_sound(taken_post, ct@));
                    assert forall|m2: int| 0 <= m2 < taken_post.len() implies #[trigger] pair_grouped(
                        taken_post,
                        ct@,
                        m2,
                    ) by {
                        if m2 < m {
                            assert(pair_grouped(taken_pre, ct_pre, m2));
                            let (g2, d) = choose|g2: int, d: int|
                                #![trigger ct_pre[g2].1@[d]]
                                0 <= g2 < ct_pre.len() && 0 <= d < ct_pre[g2].1@.len()
                                    && path_view(ct_pre[g2].0@) == path_view(
                                    taken_pre[m2].1@,
                                ) && path_view(ct_pre[g2].1@[d]@) == path_view(
                                    taken_pre[m2].0@,
                                );
                            assert(ct@[g2] == ct_pre[g2]);
                            assert(0 <= g2 < ct@.len() && 0 <= d < ct@[g2].1@.len() && path_view(
                                ct@[g2].0@,
                            ) == path_view(taken_post[m2].1@) && path_view(
                                (#[trigger] ct@[g2].1@[d])@,
                            ) == path_view(taken_post[m2].0@));
                        } else {
                            assert(0 <= gv < ct@.len() && 0 <= 0 < ct@[gv].1@.len() && path_view(
                                ct@[gv].0@,
                            ) == path_view(taken_post[m2].1@) && path_view(
                                (#[trigger] ct@[gv].1@[0])@,
                            ) == path_view(taken_post[m2].0@));
                        }
                    }
                    assert(groups_complete(taken_post, ct@));
                }
            },
        }
        m += 1;
    }
    proof {
        assert(cf@.take(cf@.len() as int) =~= cf@);
    }
    ct
}

/// The diff engine. From an index built over exactly the two given,
/// non-nested roots, produce per-path statuses in listing order and
/// copy/rename hints. Fails with ForeignPath when a recorded path lies under
/// neither root, and with InconsistentIndex when one relative path was
/// recorded twice on one side; succeeds exactly otherwise.
pub fn compute_diff(index: &ContentIndex, old_root: &Vec<Vec<u8>>, new_root: &Vec<Vec<u8>>) -> (r:
    Result<DiffReport, DiffError>)
    requires
        !is_prefix_of(path_view(old_root@), path_view(new_root@)),
        !is_prefix_of(path_view(new_root@), path_view(old_root@)),
    ensures
        match r {
            Ok(rep) => {
                &&& covered(index.entries@, path_view(old_root@), path_view(new_root@))
                &&& side_unique(index.entries@, path_view(old_root@))
                &&& side_unique(index.entries@, path_view(new_root@))
                &&& entries_sorted(rep.entries@)
                &&& forall|m: int|
                    0 <= m < rep.entries@.len() ==> (#[trigger] rep.entries@[m]).1 == spec_status(
                        index.entries@,
                        path_view(old_root@),
                        path_view(new_root@),
                        path_view(rep.entries@[m].0@),
                    )
                &&& forall|rel: Seq<Seq<u8>>|
                    (in_side(index.entries@, path_view(old_root@), rel) || in_side(
                        index.entries@,
                        path_view(new_root@),
                        rel,
                    )) <==> exists|m: int|
                        0 <= m < rep.entries@.len() && path_view(
                            (#[trigger] rep.entries@[m]).0@,
                        ) == rel
                &&& forall|m: int|
                    0 <= m < rep.copies_from@.len() ==> copy_pair_ok(
                        index.entries@,
                        path_view(old_root@),
                        path_view(new_root@),
                        path_view((#[trigger] rep.copies_from@[m]).0@),
                        path_view(rep.copies_from@[m].1@),
                    )
                &&& forall|m: int, m2: int|
                    0 <= m < m2 < rep.copies_from@.len() ==> path_view(
                        (#[trigger] rep.copies_from@[m]).0@,
                    ) != path_view((#[trigger] rep.copies_from@[m2]).0@)
                &&& copies_complete(
                    index.entries@,
                    path_view(old_root@),
                    path_view(new_root@),
                    rep.copies_from@,
                )
                &&& groups_sound(rep.copies_from@, rep.copies_to@)
                &&& groups_complete(rep.copies_from@, rep.copies_to@)
                &&& forall|g: int, g2: int|
                    0 <= g < g2 < rep.copies_to@.len() ==> path_view(
                        (#[trigger] rep.copies_to@[g]).0@,
                    ) != path_view((#[trigger] rep.copies_to@[g2]).0@)
                &&& forall|g: int|
                    0 <= g < rep.copies_to@.len() ==> (#[trigger] rep.copies_to@[g]).1@.len() > 0
            },
            Err(e) => match e {
                DiffError::ForeignPath => !covered(
                    index.entries@,
                    path_view(old_root@),
                    path_view(new_root@),
                ),
                DiffError::InconsistentIndex => covered(
                    index.entries@,
                    path_view(old_root@),
                    path_view(new_root@),
                ) && (!side_unique(index.entries@, path_view(old_root@)) || !side_unique(
                    index.entries@,
                    path_view(new_root@),
                )),
            },
        },
{
    let ghost es = index.entries@;
    let ghost ov = path_view(old_root@);
    let ghost nv = path_view(new_root@);
    let (old_list, new_list) = match split_occurrences(index, old_root, new_root) {
        Ok(t) => t,
        Err(e) => {
            return Err(e);
        },
    };
    proof {
        lemma_dup_side(es, ov, old_list@);
        lemma_dup_side(es, nv, new_list@);
    }
    if has_dup_rel(&old_list) || has_dup_rel(&new_list) {
        return Err(DiffError::InconsistentIndex);
    }
    let entries0 = compute_statuses(Ghost(es), Ghost(ov), Ghost(nv), &old_list, &new_list);
    let entries = sort_entries(&entries0);
    let copies_from = resolve_copies(Ghost(es), Ghost(ov), Ghost(nv), &old_list, &new_list);
    let copies_to = group_copies(&copies_from);
    proof {
        let n0 = entries0@.len() as int;
        assert(pairs_in(entries@, entries0@, n0));
        assert(pairs_cover(entries@, entries0@, n0));
        assert forall|m: int| 0 <= m < entries@.len() implies (#[trigger] entries@[m]).1
            == spec_status(es, ov, nv, path_view(entries@[m].0@)) by {
            let x = entries@[m];
            let m2 = choose|m2: int|
                0 <= m2 < n0 && path_view(entries@[m].0@) == path_view(
                    (#[trigger] entries0@[m2]).0@,
                ) && entries@[m].1 == entries0@[m2].1;
            assert(entries0@[m2].1 == spec_status(es, ov, nv, path_view(entries0@[m2].0@)));
        }
        assert forall|rel: Seq<Seq<u8>>|
            (in_side(es, ov, rel) || in_side(es, nv, rel)) implies exists|m: int|
            0 <= m < entries@.len() && path_view((#[trigger] entries@[m]).0@) == rel by {
            let m2 = choose|m2: int|
                0 <= m2 < entries0@.len() && path_view((#[trigger] entries0@[m2]).0@) == rel;
            let y = entries0@[m2];
            let m = choose|m: int|
                0 <= m < entries@.len() && path_view((#[trigger] entries@[m]).0@) == path_view(
                    (#[trigger] entries0@[m2]).0@,
                ) && entries@[m].1 == entries0@[m2].1;
            assert(0 <= m < entries@.len() && path_view(entries@[m].0@) == rel);
        }
        assert forall|rel: Seq<Seq<u8>>|
            (exists|m: int|
                0 <= m < entries@.len() && path_view((#[trigger] entries@[m]).0@) == rel) implies (
        in_side(es, ov, rel) || in_side(es, nv, rel)) by {
            let m = choose|m: int|
                0 <= m < entries@.len() && path_view((#[trigger] entries@[m]).0@) == rel;
            let x = entries@[m];
            let m2 = choose|m2: int|
                0 <= m2 < n0 && path_view(entries@[m].0@) == path_view(
                    (#[trigger] entries0@[m2]).0@,
                ) && entries@[m].1 == entries0@[m2].1;
            assert(exists|m3: int|
                0 <= m3 < entries0@.len() && path_view((#[trigger] entries0@[m3]).0@) == rel);
        }
    }
    Ok(DiffReport { entries, copies_from, copies_to })
}

} // verus!
