use vstd::prelude::*;

verus! {

/// A path is an ordered sequence of name components; each component is a
/// sequence of bytes. The mathematical form of an executable path.
pub open spec fn path_view(p: Seq<Vec<u8>>) -> Seq<Seq<u8>> {
    Seq::new(p.len(), |i: int| p[i]@)
}

/// The mathematical form of a list of executable paths.
pub open spec fn paths_view(s: Seq<Vec<Vec<u8>>>) -> Seq<Seq<Seq<u8>>> {
    Seq::new(s.len(), |i: int| path_view(s[i]@))
}

pub open spec fn is_prefix_of(p: Seq<Seq<u8>>, q: Seq<Seq<u8>>) -> bool {
    p.len() <= q.len() && p == q.subrange(0, p.len() as int)
}

/// Length of the longest shared leading run of components of `a` and `b`.
pub open spec fn common_prefix_len(a: Seq<Seq<u8>>, b: Seq<Seq<u8>>) -> nat
    decreases a.len(),
{
    if a.len() == 0 || b.len() == 0 || a[0] != b[0] {
        0
    } else {
        1 + common_prefix_len(a.skip(1), b.skip(1))
    }
}

/// `common_prefix_len` is exactly characterized by: all components before it
/// match, and the components at it (when both present) differ.
pub proof fn lemma_common_prefix_len_char(a: Seq<Seq<u8>>, b: Seq<Seq<u8>>, i: int)
    requires
        0 <= i <= a.len(),
        i <= b.len(),
        forall|k: int| 0 <= k < i ==> a[k] == b[k],
        i < a.len() && i < b.len() ==> a[i] != b[i],
    ensures
        i == common_prefix_len(a, b),
    decreases i,
{
    if i == 0 {
    } else {
        assert(a[0] == b[0]);
        lemma_common_prefix_len_char(a.skip(1), b.skip(1), i - 1);
    }
}

/// Basic facts about `common_prefix_len`: it is bounded by both lengths, the
/// run before it matches, and it is maximal.
pub proof fn lemma_common_prefix_len_props(a: Seq<Seq<u8>>, b: Seq<Seq<u8>>)
    ensures
        common_prefix_len(a, b) <= a.len(),
        common_prefix_len(a, b) <= b.len(),
        forall|k: int| 0 <= k < common_prefix_len(a, b) ==> a[k] == b[k],
        common_prefix_len(a, b) < a.len() && common_prefix_len(a, b) < b.len() ==> a[
            common_prefix_len(a, b) as int
        ] != b[common_prefix_len(a, b) as int],
    decreases a.len(),
{
    if a.len() == 0 || b.len() == 0 || a[0] != b[0] {
    } else {
        lemma_common_prefix_len_props(a.skip(1), b.skip(1));
        let c = common_prefix_len(a, b);
        assert forall|k: int| 0 <= k < c implies a[k] == b[k] by {
            if k > 0 {
                assert(a.skip(1)[k - 1] == b.skip(1)[k - 1]);
            }
        }
        if c < a.len() && c < b.len() {
            assert(a.skip(1)[c - 1] != b.skip(1)[c - 1]);
        }
    }
}

/// Copy a byte vector.
pub fn clone_bytes(v: &Vec<u8>) -> (r: Vec<u8>)
    ensures
        r@ == v@,
{
    let mut r: Vec<u8> = Vec::new();
    let mut i: usize = 0;
    while i < v.len()
        invariant
            i <= v@.len(),
            r@ == v@.subrange(0, i as int),
        decreases v@.len() - i,
    {
        r.push(v[i]);
        assert(r@ =~= v@.subrange(0, i + 1 as int));
        i += 1;
    }
    proof {
        assert(r@ =~= v@);
    }
    r
}

/// Copy a component path.
pub fn clone_path(p: &Vec<Vec<u8>>) -> (r: Vec<Vec<u8>>)
    ensures
        path_view(r@) == path_view(p@),
{
    let mut r: Vec<Vec<u8>> = Vec::new();
    let mut i: usize = 0;
    while i < p.len()
        invariant
            i <= p@.len(),
            r@.len() == i,
            forall|k: int| 0 <= k < i ==> r@[k]@ == p@[k]@,
        decreases p@.len() - i,
    {
        let c = clone_bytes(&p[i]);
        r.push(c);
        i += 1;
    }
    proof {
        assert(path_view(r@) =~= path_view(p@));
    }
    r
}

/// Byte-for-byte equality of two byte vectors.
pub fn bytes_eq(a: &Vec<u8>, b: &Vec<u8>) -> (r: bool)
    ensures
        r <==> a@ == b@,
{
    if a.len() != b.len() {
        return false;
    }
    let mut i: usize = 0;
    while i < a.len()
        invariant
            i <= a@.len(),
            a@.len() == b@.len(),
            forall|k: int| 0 <= k < i ==> a@[k] == b@[k],
        decreases a@.len() - i,
    {
        if a[i] != b[i] {
            assert(a@ != b@);
            return false;
        }
        i += 1;
    }
    proof {
        assert(a@ =~= b@);
    }
    true
}

/// Component-for-component equality of two paths.
pub fn paths_eq(a: &Vec<Vec<u8>>, b: &Vec<Vec<u8>>) -> (r: bool)
    ensures
        r <==> path_view(a@) == path_view(b@),
{
    if a.len() != b.len() {
        assert(path_view(a@).len() != path_view(b@).len());
        return false;
    }
    let mut i: usize = 0;
    while i < a.len()
        invariant
            i <= a@.len(),
            a@.len() == b@.len(),
            forall|k: int| 0 <= k < i ==> a@[k]@ == b@[k]@,
        decreases a@.len() - i,
    {
        if !bytes_eq(&a[i], &b[i]) {
            assert(path_view(a@)[i as int] != path_view(b@)[i as int]);
            return false;
        }
        i += 1;
    }
    proof {
        assert(path_view(a@) =~= path_view(b@));
    }
    true
}

/// Does `root` stand as a leading run of components of `path`?
pub fn is_path_prefix(root: &Vec<Vec<u8>>, path: &Vec<Vec<u8>>) -> (r: bool)
    ensures
        r <==> is_prefix_of(path_view(root@), path_view(path@)),
{
    if root.len() > path.len() {
        return false;
    }
    let mut i: usize = 0;
    while i < root.len()
        invariant
            i <= root@.len(),
            root@.len() <= path@.len(),
            forall|k: int| 0 <= k < i ==> root@[k]@ == path@[k]@,
        decreases root@.len() - i,
    {
        if !bytes_eq(&root[i], &path[i]) {
            assert(path_view(root@)[i as int] != path_view(path@).subrange(
                0,
                path_view(root@).len() as int,
            )[i as int]);
            return false;
        }
        i += 1;
    }
    proof {
        assert(path_view(root@) =~= path_view(path@).subrange(0, path_view(root@).len() as int));
    }
    true
}

/// Two roots overlap when either is a component-wise prefix of the other;
/// nested diff roots are rejected before any index is built.
pub fn roots_overlap(a: &Vec<Vec<u8>>, b: &Vec<Vec<u8>>) -> (r: bool)
    ensures
        r <==> (is_prefix_of(path_view(a@), path_view(b@)) || is_prefix_of(
            path_view(b@),
            path_view(a@),
        )),
{
    is_path_prefix(a, b) || is_path_prefix(b, a)
}

/// Strip `root` from the front of `path`, if it stands there.
pub fn strip_prefix(root: &Vec<Vec<u8>>, path: &Vec<Vec<u8>>) -> (r: Option<Vec<Vec<u8>>>)
    ensures
        r is Some <==> is_prefix_of(path_view(root@), path_view(path@)),
        r is Some ==> path_view(r.unwrap()@) == path_view(path@).subrange(
            path_view(root@).len() as int,
            path_view(path@).len() as int,
        ),
{
    if !is_path_prefix(root, path) {
        return None;
    }
    let mut r: Vec<Vec<u8>> = Vec::new();
    let mut i: usize = root.len();
    while i < path.len()
        invariant
            root@.len() <= i <= path@.len(),
            r@.len() == i - root@.len(),
            forall|k: int| 0 <= k < r@.len() ==> r@[k]@ == path@[k + root@.len()]@,
        decreases path@.len() - i,
    {
        let c = clone_bytes(&path[i]);
        r.push(c);
        i += 1;
    }
    proof {
        assert(path_view(r@) =~= path_view(path@).subrange(
            path_view(root@).len() as int,
            path_view(path@).len() as int,
        ));
    }
    Some(r)
}

/// Longest shared leading run of components between two paths.
pub fn common_prefix(a: &Vec<Vec<u8>>, b: &Vec<Vec<u8>>) -> (r: Vec<Vec<u8>>)
    ensures
        r@.len() == common_prefix_len(path_view(a@), path_view(b@)),
        path_view(r@) == path_view(a@).subrange(0, r@.len() as int),
{
    let mut i: usize = 0;
    while i < a.len() && i < b.len() && bytes_eq(&a[i], &b[i])
        invariant
            i <= a@.len(),
            i <= b@.len(),
            forall|k: int| 0 <= k < i ==> a@[k]@ == b@[k]@,
        decreases a@.len() - i,
    {
        i += 1;
    }
    proof {
        lemma_common_prefix_len_char(path_view(a@), path_view(b@), i as int);
    }
    let mut r: Vec<Vec<u8>> = Vec::new();
    let mut j: usize = 0;
    while j < i
        invariant
            j <= i,
            i <= a@.len(),
            i <= b@.len(),
            r@.len() == j,
            forall|k: int| 0 <= k < j ==> r@[k]@ == a@[k]@,
        decreases i - j,
    {
        let c = clone_bytes(&a[j]);
        r.push(c);
        j += 1;
    }
    proof {
        assert(path_view(r@) =~= path_view(a@).subrange(0, r@.len() as int));
    }
    r
}

/// The two-byte component `..`.
pub open spec fn dotdot() -> Seq<u8> {
    seq![46u8, 46u8]
}

/// Byte-wise lexicographic order; a proper prefix comes first.
pub open spec fn bytes_lt(a: Seq<u8>, b: Seq<u8>) -> bool
    decreases a.len(),
{
    if b.len() == 0 {
        false
    } else if a.len() == 0 {
        true
    } else if a[0] == b[0] {
        bytes_lt(a.skip(1), b.skip(1))
    } else {
        a[0] < b[0]
    }
}

/// Component-wise lexicographic order on paths; a proper prefix comes first.
/// This is the order in which diff entries are listed.
pub open spec fn path_lt(a: Seq<Seq<u8>>, b: Seq<Seq<u8>>) -> bool
    decreases a.len(),
{
    if b.len() == 0 {
        false
    } else if a.len() == 0 {
        true
    } else if a[0] == b[0] {
        path_lt(a.skip(1), b.skip(1))
    } else {
        bytes_lt(a[0], b[0])
    }
}

/// Of two distinct byte sequences, exactly one comes first.
pub proof fn lemma_bytes_lt_trichotomy(a: Seq<u8>, b: Seq<u8>)
    ensures
        a == b || bytes_lt(a, b) || bytes_lt(b, a),
        bytes_lt(a, b) ==> !bytes_lt(b, a) && a != b,
    decreases a.len(),
{
    if a.len() != 0 && b.len() != 0 && a[0] == b[0] {
        lemma_bytes_lt_trichotomy(a.skip(1), b.skip(1));
        if a.skip(1) == b.skip(1) {
            assert(a.len() == b.len());
            assert forall|k: int| 0 <= k < a.len() implies a[k] == b[k] by {
                if k > 0 {
                    assert(a.skip(1)[k - 1] == b.skip(1)[k - 1]);
                }
            }
            assert(a =~= b);
        }
    } else if a.len() == 0 && b.len() == 0 {
        assert(a =~= b);
    }
}

/// Byte-wise order is transitive.
pub proof fn lemma_bytes_lt_trans(a: Seq<u8>, b: Seq<u8>, c: Seq<u8>)
    requires
        bytes_lt(a, b),
        bytes_lt(b, c),
    ensures
        bytes_lt(a, c),
    decreases a.len(),
{
    if a.len() != 0 && b.len() != 0 && c.len() != 0 {
        if a[0] == b[0] && b[0] == c[0] {
            lemma_bytes_lt_trans(a.skip(1), b.skip(1), c.skip(1));
        }
    }
}

/// Of two distinct paths, exactly one comes first.
pub proof fn lemma_path_lt_trichotomy(a: Seq<Seq<u8>>, b: Seq<Seq<u8>>)
    ensures
        a == b || path_lt(a, b) || path_lt(b, a),
        path_lt(a, b) ==> !path_lt(b, a) && a != b,
    decreases a.len(),
{
    if a.len() != 0 && b.len() != 0 {
        lemma_bytes_lt_trichotomy(a[0], b[0]);
        if a[0] == b[0] {
            lemma_path_lt_trichotomy(a.skip(1), b.skip(1));
            if a.skip(1) == b.skip(1) {
                assert(a.len() == b.len());
                assert forall|k: int| 0 <= k < a.len() implies a[k] == b[k] by {
                    if k > 0 {
                        assert(a.skip(1)[k - 1] == b.skip(1)[k - 1]);
                    }
                }
                assert(a =~= b);
            }
        }
    } else if a.len() == 0 && b.len() == 0 {
        assert(a =~= b);
    }
}

/// Path order is transitive.
pub proof fn lemma_path_lt_trans(a: Seq<Seq<u8>>, b: Seq<Seq<u8>>, c: Seq<Seq<u8>>)
    requires
        path_lt(a, b),
        path_lt(b, c),
    ensures
        path_lt(a, c),
    decreases a.len(),
{
    if a.len() != 0 && b.len() != 0 && c.len() != 0 {
        lemma_bytes_lt_trichotomy(a[0], b[0]);
        lemma_bytes_lt_trichotomy(b[0], c[0]);
        if a[0] == b[0] && b[0] == c[0] {
            lemma_path_lt_trans(a.skip(1), b.skip(1), c.skip(1));
        } else if a[0] == b[0] {
        } else if b[0] == c[0] {
        } else {
            lemma_bytes_lt_trans(a[0], b[0], c[0]);
        }
    }
}

/// Does `a` come strictly before `b` in byte-wise order?
pub fn bytes_lt_exec(a: &Vec<u8>, b: &Vec<u8>) -> (r: bool)
    ensures
        r <==> bytes_lt(a@, b@),
    decreases a@.len(),
{
    let mut i: usize = 0;
    proof {
        assert(a@.skip(0) =~= a@);
        assert(b@.skip(0) =~= b@);
    }
    loop
        invariant
            i <= a@.len(),
            i <= b@.len(),
            forall|k: int| 0 <= k < i ==> a@[k] == b@[k],
            bytes_lt(a@, b@) <==> bytes_lt(a@.skip(i as int), b@.skip(i as int)),
        decreases a@.len() - i,
    {
        proof {
            lemma_bytes_skip_step(a@, b@, i as int);
        }
        if i >= b.len() {
            return false;
        }
        if i >= a.len() {
            return true;
        }
        if a[i] != b[i] {
            return a[i] < b[i];
        }
        i += 1;
    }
}

/// Stepping one matched byte: the order of the tails at `i` equals the order
/// of the tails at `i + 1` when the heads match, and is decided when they do
/// not.
proof fn lemma_bytes_skip_step(a: Seq<u8>, b: Seq<u8>, i: int)
    requires
        0 <= i <= a.len(),
        0 <= i <= b.len(),
    ensures
        i < a.len() && i < b.len() && a[i] == b[i] ==> (bytes_lt(a.skip(i), b.skip(i)) <==> bytes_lt(
            a.skip(i + 1),
            b.skip(i + 1),
        )),
        i >= b.len() ==> !bytes_lt(a.skip(i), b.skip(i)),
        i >= a.len() && i < b.len() ==> bytes_lt(a.skip(i), b.skip(i)),
        i < a.len() && i < b.len() && a[i] != b[i] ==> (bytes_lt(a.skip(i), b.skip(i)) <==> a[i]
            < b[i]),
{
    if i < a.len() && i < b.len() {
        assert(a.skip(i).skip(1) =~= a.skip(i + 1));
        assert(b.skip(i).skip(1) =~= b.skip(i + 1));
    }
}

/// Does `a` come strictly before `b` in path order?
pub fn path_lt_exec(a: &Vec<Vec<u8>>, b: &Vec<Vec<u8>>) -> (r: bool)
    ensures
        r <==> path_lt(path_view(a@), path_view(b@)),
{
    let ghost av = path_view(a@);
    let ghost bv = path_view(b@);
    let mut i: usize = 0;
    proof {
        assert(av.skip(0) =~= av);
        assert(bv.skip(0) =~= bv);
    }
    loop
        invariant
            i <= av.len(),
            i <= bv.len(),
            av == path_view(a@),
            bv == path_view(b@),
            path_lt(av, bv) <==> path_lt(av.skip(i as int), bv.skip(i as int)),
        decreases av.len() - i,
    {
        proof {
            lemma_path_skip_step(av, bv, i as int);
        }
        if i >= b.len() {
            return false;
        }
        if i >= a.len() {
            return true;
        }
        if !bytes_eq(&a[i], &b[i]) {
            return bytes_lt_exec(&a[i], &b[i]);
        }
        i += 1;
    }
}

/// The path analogue of `lemma_bytes_skip_step`.
proof fn lemma_path_skip_step(a: Seq<Seq<u8>>, b: Seq<Seq<u8>>, i: int)
    requires
        0 <= i <= a.len(),
        0 <= i <= b.len(),
    ensures
        i < a.len() && i < b.len() && a[i] == b[i] ==> (path_lt(a.skip(i), b.skip(i)) <==> path_lt(
            a.skip(i + 1),
            b.skip(i + 1),
        )),
        i >= b.len() ==> !path_lt(a.skip(i), b.skip(i)),
        i >= a.len() && i < b.len() ==> path_lt(a.skip(i), b.skip(i)),
        i < a.len() && i < b.len() && a[i] != b[i] ==> (path_lt(a.skip(i), b.skip(i)) <==> bytes_lt(
            a[i],
            b[i],
        )),
{
    if i < a.len() && i < b.len() {
        assert(a.skip(i).skip(1) =~= a.skip(i + 1));
        assert(b.skip(i).skip(1) =~= b.skip(i + 1));
    }
}

/// The slash character.
pub open spec fn slash() -> Seq<u8> {
    seq![47u8]
}

/// The components of a path joined with `/` into one name.
pub open spec fn spec_join(p: Seq<Seq<u8>>) -> Seq<u8>
    decreases p.len(),
{
    if p.len() == 0 {
        Seq::empty()
    } else if p.len() == 1 {
        p[0]
    } else {
        spec_join(p.drop_last()) + slash() + p.last()
    }
}

/// Join the components of a path with `/` into one name.
pub fn join_components(p: &Vec<Vec<u8>>) -> (r: Vec<u8>)
    ensures
        r@ == spec_join(path_view(p@)),
{
    let ghost pv = path_view(p@);
    let mut r: Vec<u8> = Vec::new();
    let mut i: usize = 0;
    while i < p.len()
        invariant
            i <= p@.len(),
            pv == path_view(p@),
            r@ == spec_join(pv.take(i as int)),
        decreases p@.len() - i,
    {
        if i > 0 {
            r.push(47u8);
        }
        let mut c = clone_bytes(&p[i]);
        r.append(&mut c);
        proof {
            assert(pv.take(i + 1).drop_last() =~= pv.take(i as int));
            assert(pv.take(i + 1).last() == pv[i as int]);
            if i == 0 {
                assert(r@ =~= spec_join(pv.take(i + 1)));
            } else {
                assert(r@ =~= spec_join(pv.take(i as int)) + slash() + pv[i as int]);
            }
        }
        i += 1;
    }
    proof {
        assert(pv.take(pv.len() as int) =~= pv);
    }
    r
}

/// The components that lead from the directory of `from` to `to`: one `..`
/// for each component of `from` past their common prefix, then the rest of
/// `to`.
pub fn relative_to(from: &Vec<Vec<u8>>, to: &Vec<Vec<u8>>) -> (r: Vec<Vec<u8>>)
    ensures
        path_view(r@) == Seq::new(
            (path_view(from@).len() - common_prefix_len(path_view(from@), path_view(to@))) as nat,
            |k: int| dotdot(),
        ) + path_view(to@).skip(
            common_prefix_len(path_view(from@), path_view(to@)) as int,
        ),
{
    let c = common_prefix(from, to);
    let i = c.len();
    proof {
        lemma_common_prefix_len_props(path_view(from@), path_view(to@));
    }
    let mut r: Vec<Vec<u8>> = Vec::new();
    let mut j: usize = i;
    while j < from.len()
        invariant
            i <= j,
            j <= from@.len() || j == i,
            r@.len() == j - i,
            forall|k: int| 0 <= k < r@.len() ==> r@[k]@ == dotdot(),
        decreases from@.len() - j,
    {
        let mut d: Vec<u8> = Vec::new();
        d.push(46u8);
        d.push(46u8);
        assert(d@ =~= dotdot());
        r.push(d);
        j += 1;
    }
    let ghost n_up = r@.len();
    let mut j2: usize = i;
    while j2 < to.len()
        invariant
            i <= j2,
            j2 <= to@.len() || j2 == i,
            i <= to@.len(),
            r@.len() == n_up + (j2 - i),
            forall|k: int| 0 <= k < n_up ==> r@[k]@ == dotdot(),
            forall|k: int| n_up <= k < r@.len() ==> r@[k]@ == to@[k - n_up + i]@,
        decreases to@.len() - j2,
    {
        let c2 = clone_bytes(&to[j2]);
        r.push(c2);
        j2 += 1;
    }
    proof {
        let iv = i as int;
        assert(path_view(r@) =~= Seq::new((path_view(from@).len() - iv) as nat, |k: int| dotdot())
            + path_view(to@).skip(iv));
    }
    r
}

} // verus!
