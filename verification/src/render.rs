use vstd::prelude::*;
use crate::diff::{DiffReport, FileDiff};
use crate::paths::{
    path_view, common_prefix, common_prefix_len, clone_bytes, paths_eq, join_components,
    spec_join, dotdot, relative_to,
};

verus! {

/// One line of the hierarchical diff listing: either a shared ancestor
/// directory, printed once (`status` is None), or a leaf carrying its status
/// and its copy hints, each hint already slash-joined.
pub struct RenderLine {
    pub indent: usize,
    pub name: Vec<u8>,
    pub status: Option<FileDiff>,
    pub copy_from: Option<Vec<u8>>,
    pub copy_to: Vec<Vec<u8>>,
}

/// The components that lead from the directory of `from` to `to`.
pub open spec fn spec_relative_to(from: Seq<Seq<u8>>, to: Seq<Seq<u8>>) -> Seq<Seq<u8>> {
    Seq::new((from.len() - common_prefix_len(from, to)) as nat, |k: int| dotdot()) + to.skip(
        common_prefix_len(from, to) as int,
    )
}

/// A copy hint as printed: the other path, slash-joined, made relative to the
/// entry when asked for.
pub open spec fn hint_text(entry: Seq<Seq<u8>>, other: Seq<Seq<u8>>, relative: bool) -> Seq<u8> {
    if relative {
        spec_join(spec_relative_to(entry, other))
    } else {
        spec_join(other)
    }
}

/// The chosen source of `p`, if the copy map has one.
pub open spec fn spec_source_of(cf: Seq<(Vec<Vec<u8>>, Vec<Vec<u8>>)>, p: Seq<Seq<u8>>) -> Option<
    Seq<Seq<u8>>,
> {
    if exists|m: int| 0 <= m < cf.len() && path_view((#[trigger] cf[m]).0@) == p {
        let m = choose|m: int| 0 <= m < cf.len() && path_view((#[trigger] cf[m]).0@) == p;
        Some(path_view(cf[m].1@))
    } else {
        None
    }
}

/// The destinations recorded under `p` in the reverse map, if any.
pub open spec fn spec_dests_of(
    ct: Seq<(Vec<Vec<u8>>, Vec<Vec<Vec<u8>>>)>,
    p: Seq<Seq<u8>>,
) -> Option<Seq<Vec<Vec<u8>>>> {
    if exists|g: int| 0 <= g < ct.len() && path_view((#[trigger] ct[g]).0@) == p {
        let g = choose|g: int| 0 <= g < ct.len() && path_view((#[trigger] ct[g]).0@) == p;
        Some(ct[g].1@)
    } else {
        None
    }
}

/// The entries a diff listing prints: those whose status is not Unchanged.
pub open spec fn visible(s: Seq<(Vec<Vec<u8>>, FileDiff)>) -> Seq<(Vec<Vec<u8>>, FileDiff)> {
    s.filter(|e: (Vec<Vec<u8>>, FileDiff)| e.1 != FileDiff::Unchanged)
}

/// The leaf lines of a rendering.
pub open spec fn leaves(s: Seq<RenderLine>) -> Seq<RenderLine> {
    s.filter(|ln: RenderLine| ln.status is Some)
}

/// A leaf line prints entry `e` faithfully: the file name at its depth, the
/// status, and the copy hints the report records for it.
pub open spec fn leaf_matches(
    rep: DiffReport,
    relative: bool,
    ln: RenderLine,
    e: (Vec<Vec<u8>>, FileDiff),
) -> bool {
    let p = path_view(e.0@);
    &&& ln.status == Some(e.1)
    &&& ln.indent == p.len() - 1
    &&& ln.name@ == p.last()
    &&& (match spec_source_of(rep.copies_from@, p) {
        Some(src) => ln.copy_from is Some && ln.copy_from.unwrap()@ == hint_text(
            p,
            src,
            relative,
        ),
        None => ln.copy_from is None,
    })
    &&& (match spec_dests_of(rep.copies_to@, p) {
        Some(ds) => ln.copy_to@.len() == ds.len() && forall|d: int|
            0 <= d < ds.len() ==> (#[trigger] ln.copy_to@[d])@ == hint_text(
                p,
                path_view(ds[d]@),
                relative,
            ),
        None => ln.copy_to@.len() == 0,
    })
}

/// The directory line at position `m` of a rendering names an ancestor
/// component, at its depth, of the next printed entry, and carries no status
/// and no hints: shared ancestors are printed once, above the entries they
/// cover.
pub open spec fn dir_line_matches(
    entries: Seq<(Vec<Vec<u8>>, FileDiff)>,
    s: Seq<RenderLine>,
    m: int,
) -> bool {
    let lc = leaves(s.take(m)).len() as int;
    &&& lc < visible(entries).len()
    &&& s[m].indent + 1 < path_view(visible(entries)[lc].0@).len()
    &&& s[m].name@ == path_view(visible(entries)[lc].0@)[s[m].indent as int]
    &&& s[m].copy_from is None
    &&& s[m].copy_to@.len() == 0
}

/// First copy-map entry whose key is `p`.
fn find_source(cf: &Vec<(Vec<Vec<u8>>, Vec<Vec<u8>>)>, p: &Vec<Vec<u8>>) -> (r: Option<usize>)
    ensures
        match r {
            Some(m) => m < cf@.len() && path_view(cf@[m as int].0@) == path_view(p@),
            None => forall|m: int|
                0 <= m < cf@.len() ==> path_view((#[trigger] cf@[m]).0@) != path_view(p@),
        },
{
    let mut m: usize = 0;
    while m < cf.len()
        invariant
            m <= cf@.len(),
            forall|m2: int|
                0 <= m2 < m ==> path_view((#[trigger] cf@[m2]).0@) != path_view(p@),
        decreases cf@.len() - m,
    {
        if paths_eq(&cf[m].0, p) {
            return Some(m);
        }
        m += 1;
    }
    None
}

/// First reverse-map entry whose key is `p`.
fn find_dests(ct: &Vec<(Vec<Vec<u8>>, Vec<Vec<Vec<u8>>>)>, p: &Vec<Vec<u8>>) -> (r: Option<usize>)
    ensures
        match r {
            Some(g) => g < ct@.len() && path_view(ct@[g as int].0@) == path_view(p@),
            None => forall|g: int|
                0 <= g < ct@.len() ==> path_view((#[trigger] ct@[g]).0@) != path_view(p@),
        },
{
    let mut g: usize = 0;
    while g < ct.len()
        invariant
            g <= ct@.len(),
            forall|g2: int|
                0 <= g2 < g ==> path_view((#[trigger] ct@[g2]).0@) != path_view(p@),
        decreases ct@.len() - g,
    {
        if paths_eq(&ct[g].0, p) {
            return Some(g);
        }
        g += 1;
    }
    None
}

/// One hint, joined, made relative to `entry` when asked for.
fn hint_of(entry: &Vec<Vec<u8>>, other: &Vec<Vec<u8>>, relative: bool) -> (r: Vec<u8>)
    ensures
        r@ == hint_text(path_view(entry@), path_view(other@), relative),
{
    if relative {
        let rel = relative_to(entry, other);
        join_components(&rel)
    } else {
        join_components(other)
    }
}

/// Render the report as the diff tool lists it: entries in order, Unchanged
/// entries dropped, ancestor directories shared between consecutive entries
/// printed once, and every printed leaf carrying its status and its copy
/// hints. The leaf lines are exactly the visible entries, in order.
pub fn render_report(rep: &DiffReport, relative_copy_paths: bool) -> (out: Vec<RenderLine>)
    requires
        forall|m: int| 0 <= m < rep.entries@.len() ==> (#[trigger] rep.entries@[m]).0@.len() > 0,
        forall|m: int, m2: int|
            0 <= m < m2 < rep.copies_from@.len() ==> path_view(
                (#[trigger] rep.copies_from@[m]).0@,
            ) != path_view((#[trigger] rep.copies_from@[m2]).0@),
        forall|g: int, g2: int|
            0 <= g < g2 < rep.copies_to@.len() ==> path_view((#[trigger] rep.copies_to@[g]).0@)
                != path_view((#[trigger] rep.copies_to@[g2]).0@),
    ensures
        leaves(out@).len() == visible(rep.entries@).len(),
        forall|t: int|
            0 <= t < visible(rep.entries@).len() ==> leaf_matches(
                *rep,
                relative_copy_paths,
                #[trigger] leaves(out@)[t],
                visible(rep.entries@)[t],
            ),
        forall|m: int|
            0 <= m < out@.len() && (#[trigger] out@[m]).status is None ==> dir_line_matches(
                rep.entries@,
                out@,
                m,
            ),
{
    let mut out: Vec<RenderLine> = Vec::new();
    let mut cur_dir: Vec<Vec<u8>> = Vec::new();
    let mut t: usize = 0;
    proof {
        reveal(Seq::filter);
        assert(rep.entries@.take(0) =~= Seq::<(Vec<Vec<u8>>, FileDiff)>::empty());
        assert(leaves(out@) =~= Seq::<RenderLine>::empty());
        assert(visible(rep.entries@.take(0)) =~= Seq::<(Vec<Vec<u8>>, FileDiff)>::empty());
    }
    while t < rep.entries.len()
        invariant
            t <= rep.entries@.len(),
            forall|m: int|
                0 <= m < rep.entries@.len() ==> (#[trigger] rep.entries@[m]).0@.len() > 0,
            forall|m: int, m2: int|
                0 <= m < m2 < rep.copies_from@.len() ==> path_view(
                    (#[trigger] rep.copies_from@[m]).0@,
                ) != path_view((#[trigger] rep.copies_from@[m2]).0@),
            forall|g: int, g2: int|
                0 <= g < g2 < rep.copies_to@.len() ==> path_view(
                    (#[trigger] rep.copies_to@[g]).0@,
                ) != path_view((#[trigger] rep.copies_to@[g2]).0@),
            leaves(out@).len() == visible(rep.entries@.take(t as int)).len(),
            forall|t2: int|
                0 <= t2 < visible(rep.entries@.take(t as int)).len() ==> leaf_matches(
                    *rep,
                    relative_copy_paths,
                    #[trigger] leaves(out@)[t2],
                    visible(rep.entries@.take(t as int))[t2],
                ),
            forall|m: int|
                0 <= m < out@.len() && (#[trigger] out@[m]).status is None ==> dir_line_matches(
                    rep.entries@.take(t as int),
                    out@,
                    m,
                ),
        decreases rep.entries@.len() - t,
    {
        let ghost taken_pre = rep.entries@.take(t as int);
        let ghost entry = rep.entries@[t as int];
        proof {
            reveal(Seq::filter);
            assert(rep.entries@.take(t + 1).drop_last() =~= taken_pre);
            assert(rep.entries@.take(t + 1).last() == entry);
        }
        let status = rep.entries[t].1;
        if status != FileDiff::Unchanged {
            proof {
                assert(visible(rep.entries@.take(t + 1)) =~= visible(taken_pre).push(entry));
                assert forall|m: int|
                    0 <= m < out@.len() && (#[trigger] out@[m]).status is None implies dir_line_matches(
                    rep.entries@.take(t + 1),
                    out@,
                    m,
                ) by {
                    let lc = leaves(out@.take(m)).len() as int;
                    assert(dir_line_matches(taken_pre, out@, m));
                    assert(visible(rep.entries@.take(t + 1))[lc] == visible(taken_pre)[lc]);
                }
            }
            let path = &rep.entries[t].0;
            let ghost pv = path_view(path@);
            let base = common_prefix(&cur_dir, path);
            cur_dir = base;
            while cur_dir.len() < path.len() - 1
                invariant
                    path@.len() > 0,
                    path@ == rep.entries@[t as int].0@,
                    t < rep.entries@.len(),
                    leaves(out@).len() == visible(taken_pre).len(),
                    forall|t2: int|
                        0 <= t2 < visible(taken_pre).len() ==> leaf_matches(
                            *rep,
                            relative_copy_paths,
                            #[trigger] leaves(out@)[t2],
                            visible(taken_pre)[t2],
                        ),
                    visible(rep.entries@.take(t + 1)) == visible(taken_pre).push(
                        rep.entries@[t as int],
                    ),
                    rep.entries@[t as int].1 != FileDiff::Unchanged,
                    forall|m: int|
                        0 <= m < out@.len() && (#[trigger] out@[m]).status is None
                            ==> dir_line_matches(rep.entries@.take(t + 1), out@, m),
                decreases path@.len() - cur_dir@.len(),
            {
                let comp = clone_bytes(&path[cur_dir.len()]);
                let ghost out_pre = out@;
                out.push(
                    RenderLine {
                        indent: cur_dir.len(),
                        name: comp,
                        status: None,
                        copy_from: None,
                        copy_to: Vec::new(),
                    },
                );
                proof {
                    reveal(Seq::filter);
                    assert(out@.drop_last() =~= out_pre);
                    assert(leaves(out@) =~= leaves(out_pre));
                    let big = out@.len() - 1;
                    assert(out@.take(big) =~= out_pre);
                    assert(leaves(out@.take(big)).len() as int == visible(taken_pre).len() as int);
                    assert(visible(rep.entries@.take(t + 1))[visible(taken_pre).len() as int]
                        == rep.entries@[t as int]);
                    assert(out@[big].name@ == path_view(rep.entries@[t as int].0@)[
                        out@[big].indent as int
                    ]);
                    assert(dir_line_matches(rep.entries@.take(t + 1), out@, big));
                    assert forall|m: int|
                        0 <= m < out@.len() && (#[trigger] out@[m]).status is None
                            implies dir_line_matches(rep.entries@.take(t + 1), out@, m) by {
                        if m < big {
                            assert(out@[m] == out_pre[m]);
                            assert(out@.take(m) =~= out_pre.take(m));
                            assert(dir_line_matches(rep.entries@.take(t + 1), out_pre, m));
                        }
                    }
                }
                let comp2 = clone_bytes(&path[cur_dir.len()]);
                cur_dir.push(comp2);
            }
            let name = clone_bytes(&path[path.len() - 1]);
            let found_src = find_source(&rep.copies_from, path);
            let copy_from = match found_src {
                Some(m) => Some(hint_of(path, &rep.copies_from[m].1, relative_copy_paths)),
                None => None,
            };
            proof {
                match found_src {
                    Some(m) => {
                        let m2 = choose|m2: int|
                            0 <= m2 < rep.copies_from@.len() && path_view(
                                (#[trigger] rep.copies_from@[m2]).0@,
                            ) == pv;
                        assert(m2 == m as int);
                        assert(spec_source_of(rep.copies_from@, pv) == Some(
                            path_view(rep.copies_from@[m as int].1@),
                        ));
                    },
                    None => {
                        assert(spec_source_of(rep.copies_from@, pv) is None);
                    },
                }
            }
            let mut copy_to: Vec<Vec<u8>> = Vec::new();
            let found_dst = find_dests(&rep.copies_to, path);
            match found_dst {
                Some(g) => {
                    proof {
                        let g2 = choose|g2: int|
                            0 <= g2 < rep.copies_to@.len() && path_view(
                                (#[trigger] rep.copies_to@[g2]).0@,
                            ) == pv;
                        assert(g2 == g as int);
                        assert(spec_dests_of(rep.copies_to@, pv) == Some(
                            rep.copies_to@[g as int].1@,
                        ));
                    }
                    let mut d: usize = 0;
                    while d < rep.copies_to[g].1.len()
                        invariant
                            g < rep.copies_to@.len(),
                            d <= rep.copies_to@[g as int].1@.len(),
                            copy_to@.len() == d,
                            pv == path_view(path@),
                            path@ == rep.entries@[t as int].0@,
                            t < rep.entries@.len(),
                            forall|d2: int|
                                0 <= d2 < d ==> (#[trigger] copy_to@[d2])@ == hint_text(
                                    pv,
                                    path_view(rep.copies_to@[g as int].1@[d2]@),
                                    relative_copy_paths,
                                ),
                        decreases rep.copies_to@[g as int].1@.len() - d,
                    {
                        let h = hint_of(path, &rep.copies_to[g].1[d], relative_copy_paths);
                        copy_to.push(h);
                        d += 1;
                    }
                },
                None => {
                    proof {
                        assert(spec_dests_of(rep.copies_to@, pv) is None);
                    }
                },
            }
            let indent = path.len() - 1;
            let ghost out_pre = out@;
            out.push(RenderLine { indent, name, status: Some(status), copy_from, copy_to });
            proof {
                reveal(Seq::filter);
                assert(out@.drop_last() =~= out_pre);
                let lnp = out@.last();
                assert(leaves(out@) =~= leaves(out_pre).push(lnp));
                assert(leaf_matches(*rep, relative_copy_paths, lnp, entry));
                assert forall|t2: int|
                    0 <= t2 < visible(rep.entries@.take(t + 1)).len() implies leaf_matches(
                    *rep,
                    relative_copy_paths,
                    #[trigger] leaves(out@)[t2],
                    visible(rep.entries@.take(t + 1))[t2],
                ) by {
                    if t2 < visible(taken_pre).len() {
                        assert(leaves(out@)[t2] == leaves(out_pre)[t2]);
                        assert(visible(rep.entries@.take(t + 1))[t2] == visible(taken_pre)[t2]);
                    }
                }
                assert forall|m: int|
                    0 <= m < out@.len() && (#[trigger] out@[m]).status is None
                        implies dir_line_matches(rep.entries@.take(t + 1), out@, m) by {
                    assert(m < out@.len() - 1);
                    assert(out@[m] == out_pre[m]);
                    assert(out@.take(m) =~= out_pre.take(m));
                    assert(dir_line_matches(rep.entries@.take(t + 1), out_pre, m));
                }
            }
        } else {
            proof {
                assert(visible(rep.entries@.take(t + 1)) =~= visible(taken_pre));
                assert forall|m: int|
                    0 <= m < out@.len() && (#[trigger] out@[m]).status is None
                        implies dir_line_matches(rep.entries@.take(t + 1), out@, m) by {
                    let lc = leaves(out@.take(m)).len() as int;
                    assert(dir_line_matches(taken_pre, out@, m));
                    assert(visible(rep.entries@.take(t + 1)) == visible(taken_pre));
                }
            }
        }
        t += 1;
    }
    proof {
        assert(rep.entries@.take(rep.entries@.len() as int) =~= rep.entries@);
    }
    out
}

} // verus!
