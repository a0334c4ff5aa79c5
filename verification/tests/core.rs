use treeutils::diff::{compute_diff, has_dup_rel, split_occurrences, DiffError, DiffReport, FileDiff};
use treeutils::hashing::digest_of_chunks;
use treeutils::index::ContentIndex;
use treeutils::paths::{common_prefix, join_components, relative_to, roots_overlap, strip_prefix};
use treeutils::render::render_report;

fn p(s: &str) -> Vec<Vec<u8>> {
    s.split('/').map(|c| c.as_bytes().to_vec()).collect()
}

#[test]
fn digest_matches_blake3() {
    let chunks = vec![b"hello".to_vec()];
    let d = digest_of_chunks(&chunks);
    let expected = blake3::hash(b"hello");
    assert_eq!(d.as_slice(), expected.as_bytes());
    assert_eq!(d.len(), 32);
}

#[test]
fn digest_ignores_chunking() {
    let whole = digest_of_chunks(&vec![b"AA".to_vec()]);
    let split = digest_of_chunks(&vec![b"A".to_vec(), b"A".to_vec()]);
    assert_eq!(whole, split);
    let other = digest_of_chunks(&vec![b"BB".to_vec()]);
    assert_ne!(whole, other);
}

#[test]
fn index_insert_and_duplicates() {
    let mut idx = ContentIndex::new();
    let da = digest_of_chunks(&vec![b"AA".to_vec()]);
    let db = digest_of_chunks(&vec![b"BB".to_vec()]);
    idx.insert(da.clone(), p("root/x/1.bin"));
    idx.insert(da.clone(), p("root/x/2.bin"));
    idx.insert(db.clone(), p("root/y/3.bin"));
    let groups = idx.duplicate_group_indices();
    assert_eq!(groups.len(), 1);
    let g = &idx.entries[groups[0]];
    assert_eq!(g.digest, da);
    assert_eq!(g.paths, vec![p("root/x/1.bin"), p("root/x/2.bin")]);
}

#[test]
fn index_insert_order_immaterial() {
    let da = digest_of_chunks(&vec![b"AA".to_vec()]);
    let db = digest_of_chunks(&vec![b"BB".to_vec()]);
    let mut one = ContentIndex::new();
    one.insert(da.clone(), p("r/a"));
    one.insert(db.clone(), p("r/b"));
    let mut two = ContentIndex::new();
    two.insert(db.clone(), p("r/b"));
    two.insert(da.clone(), p("r/a"));
    for e in one.entries.iter() {
        let mate = two.entries.iter().find(|f| f.digest == e.digest).unwrap();
        assert_eq!(e.paths, mate.paths);
    }
    assert_eq!(one.entries.len(), two.entries.len());
}

#[test]
fn overlapping_roots_rejected() {
    assert!(roots_overlap(&p("a/b"), &p("a/b/c")));
    assert!(roots_overlap(&p("a/b/c"), &p("a/b")));
    assert!(roots_overlap(&p("a/b"), &p("a/b")));
    assert!(!roots_overlap(&p("a/b"), &p("a/c")));
}

#[test]
fn common_prefix_and_relative() {
    assert_eq!(common_prefix(&p("a/b/c"), &p("a/b/d")), p("a/b"));
    assert_eq!(common_prefix(&p("a"), &p("b")), Vec::<Vec<u8>>::new());
    assert_eq!(relative_to(&p("a/b/c"), &p("a/d/e")), p("../../d/e"));
    assert_eq!(relative_to(&p("a/b"), &p("a/b")), Vec::<Vec<u8>>::new());
}

#[test]
fn strip_and_join() {
    assert_eq!(strip_prefix(&p("r/old"), &p("r/old/a.txt")), Some(p("a.txt")));
    assert_eq!(strip_prefix(&p("r/old"), &p("r/new/a.txt")), None);
    assert_eq!(join_components(&p("a/b/c")), b"a/b/c".to_vec());
}

#[test]
fn split_partitions_by_root() {
    let mut idx = ContentIndex::new();
    let dh = digest_of_chunks(&vec![b"hello".to_vec()]);
    idx.insert(dh.clone(), p("r/old/a.txt"));
    idx.insert(dh.clone(), p("r/new/b.txt"));
    let (old_list, new_list) = split_occurrences(&idx, &p("r/old"), &p("r/new")).unwrap();
    assert_eq!(old_list.len(), 1);
    assert_eq!(new_list.len(), 1);
    assert_eq!(old_list[0].rel, p("a.txt"));
    assert_eq!(new_list[0].rel, p("b.txt"));
    assert_eq!(old_list[0].bucket, new_list[0].bucket);
    assert!(!has_dup_rel(&old_list));
}

#[test]
fn split_rejects_foreign_path() {
    let mut idx = ContentIndex::new();
    let dh = digest_of_chunks(&vec![b"x".to_vec()]);
    idx.insert(dh, p("elsewhere/c.txt"));
    let r = split_occurrences(&idx, &p("r/old"), &p("r/new"));
    assert!(matches!(r, Err(DiffError::ForeignPath)));
}

#[test]
fn render_lists_visible_entries() {
    let rep = DiffReport {
        entries: vec![
            (p("a.txt"), FileDiff::Deleted),
            (p("b.txt"), FileDiff::Created),
            (p("c.txt"), FileDiff::Unchanged),
            (p("d/e.txt"), FileDiff::Changed),
        ],
        copies_from: vec![(p("b.txt"), p("a.txt"))],
        copies_to: vec![(p("a.txt"), vec![p("b.txt")])],
    };
    let lines = render_report(&rep, false);
    let leaves: Vec<_> = lines.iter().filter(|l| l.status.is_some()).collect();
    assert_eq!(leaves.len(), 3);
    assert_eq!(leaves[0].name, b"a.txt".to_vec());
    assert_eq!(leaves[0].status, Some(FileDiff::Deleted));
    assert_eq!(leaves[0].copy_to, vec![b"b.txt".to_vec()]);
    assert_eq!(leaves[0].copy_from, None);
    assert_eq!(leaves[1].name, b"b.txt".to_vec());
    assert_eq!(leaves[1].status, Some(FileDiff::Created));
    assert_eq!(leaves[1].copy_from, Some(b"a.txt".to_vec()));
    assert_eq!(leaves[2].name, b"e.txt".to_vec());
    assert_eq!(leaves[2].indent, 1);
    let dirs: Vec<_> = lines.iter().filter(|l| l.status.is_none()).collect();
    assert_eq!(dirs.len(), 1);
    assert_eq!(dirs[0].name, b"d".to_vec());
}

#[test]
fn render_unchanged_only_prints_nothing() {
    let rep = DiffReport {
        entries: vec![(p("a.txt"), FileDiff::Unchanged)],
        copies_from: vec![],
        copies_to: vec![],
    };
    let lines = render_report(&rep, false);
    assert!(lines.is_empty());
}

fn digest_of(s: &str) -> Vec<u8> {
    digest_of_chunks(&vec![s.as_bytes().to_vec()])
}

fn diff_two(
    files_old: &[(&str, &str)],
    files_new: &[(&str, &str)],
) -> treeutils::diff::DiffReport {
    let mut idx = ContentIndex::new();
    for (name, content) in files_old {
        let mut path = p("r/old");
        path.extend(p(name));
        idx.insert(digest_of(content), path);
    }
    for (name, content) in files_new {
        let mut path = p("r/new");
        path.extend(p(name));
        idx.insert(digest_of(content), path);
    }
    compute_diff(&idx, &p("r/old"), &p("r/new")).unwrap()
}

#[test]
fn diff_identical_trees_prints_nothing() {
    let rep = diff_two(&[("a.txt", "hello")], &[("a.txt", "hello")]);
    assert_eq!(rep.entries, vec![(p("a.txt"), FileDiff::Unchanged)]);
    assert!(rep.copies_from.is_empty() || rep.copies_from == vec![(p("a.txt"), p("a.txt"))]);
    let lines = render_report(&rep, false);
    assert!(lines.iter().all(|l| l.status != Some(FileDiff::Changed)
        && l.status != Some(FileDiff::Created) && l.status != Some(FileDiff::Deleted)));
    assert!(lines.is_empty());
}

#[test]
fn diff_renamed_file_gets_copy_hints() {
    let rep = diff_two(&[("a.txt", "hello")], &[("b.txt", "hello")]);
    assert_eq!(
        rep.entries,
        vec![(p("a.txt"), FileDiff::Deleted), (p("b.txt"), FileDiff::Created)]
    );
    assert_eq!(rep.copies_from, vec![(p("b.txt"), p("a.txt"))]);
    assert_eq!(rep.copies_to, vec![(p("a.txt"), vec![p("b.txt")])]);
    let lines = render_report(&rep, false);
    assert_eq!(lines.len(), 2);
    assert_eq!(lines[0].name, b"a.txt".to_vec());
    assert_eq!(lines[0].status, Some(FileDiff::Deleted));
    assert_eq!(lines[0].copy_to, vec![b"b.txt".to_vec()]);
    assert_eq!(lines[1].name, b"b.txt".to_vec());
    assert_eq!(lines[1].status, Some(FileDiff::Created));
    assert_eq!(lines[1].copy_from, Some(b"a.txt".to_vec()));
}

#[test]
fn diff_changed_file_has_no_hints() {
    let rep = diff_two(&[("a.txt", "hello")], &[("a.txt", "world")]);
    assert_eq!(rep.entries, vec![(p("a.txt"), FileDiff::Changed)]);
    assert!(rep.copies_from.is_empty());
    let lines = render_report(&rep, false);
    assert_eq!(lines.len(), 1);
    assert_eq!(lines[0].status, Some(FileDiff::Changed));
    assert_eq!(lines[0].copy_from, None);
    assert!(lines[0].copy_to.is_empty());
}

#[test]
fn diff_created_file_has_no_hints() {
    let rep = diff_two(&[], &[("c.txt", "new")]);
    assert_eq!(rep.entries, vec![(p("c.txt"), FileDiff::Created)]);
    assert!(rep.copies_from.is_empty());
    let lines = render_report(&rep, false);
    assert_eq!(lines.len(), 1);
    assert_eq!(lines[0].name, b"c.txt".to_vec());
    assert_eq!(lines[0].status, Some(FileDiff::Created));
    assert_eq!(lines[0].copy_from, None);
}

#[test]
fn diff_picks_most_distant_source() {
    // Both old files share the new file's content; the recorded source is
    // the old path with the larger edit distance to the new path.
    let rep = diff_two(&[("x.txt", "AA"), ("y.txt", "AA")], &[("x.txt", "AA")]);
    assert!(edit_distance::edit_distance("y.txt", "x.txt")
        > edit_distance::edit_distance("x.txt", "x.txt"));
    assert_eq!(rep.copies_from, vec![(p("x.txt"), p("y.txt"))]);
    assert_eq!(
        rep.entries,
        vec![(p("x.txt"), FileDiff::Unchanged), (p("y.txt"), FileDiff::Deleted)]
    );
    let lines = render_report(&rep, false);
    assert_eq!(lines.len(), 1);
    assert_eq!(lines[0].name, b"y.txt".to_vec());
    assert_eq!(lines[0].status, Some(FileDiff::Deleted));
    assert_eq!(lines[0].copy_to, vec![b"x.txt".to_vec()]);
}

#[test]
fn diff_rejects_duplicate_relative_path() {
    let mut idx = ContentIndex::new();
    idx.insert(digest_of("one"), p("r/old/a.txt"));
    idx.insert(digest_of("two"), p("r/old/a.txt"));
    let r = compute_diff(&idx, &p("r/old"), &p("r/new"));
    assert!(matches!(r, Err(DiffError::InconsistentIndex)));
}

#[test]
fn diff_sorts_entries_by_components() {
    let rep = diff_two(
        &[("z.txt", "1"), ("a/b.txt", "2")],
        &[("a/c.txt", "3")],
    );
    let keys: Vec<Vec<Vec<u8>>> = rep.entries.iter().map(|e| e.0.clone()).collect();
    assert_eq!(keys, vec![p("a/b.txt"), p("a/c.txt"), p("z.txt")]);
}

#[test]
fn relative_copy_hints_use_dotdots() {
    let rep = diff_two(&[("a/old.txt", "same")], &[("b/new.txt", "same")]);
    let lines = render_report(&rep, true);
    let created: Vec<_> = lines
        .iter()
        .filter(|l| l.status == Some(FileDiff::Created))
        .collect();
    assert_eq!(created.len(), 1);
    assert_eq!(created[0].copy_from, Some(b"../../a/old.txt".to_vec()));
}

#[test]
fn one_source_may_feed_many_destinations() {
    let rep = diff_two(&[("a.txt", "same")], &[("b.txt", "same"), ("c.txt", "same")]);
    assert_eq!(rep.entries.len(), 3);
    assert_eq!(rep.copies_from.len(), 2);
    for (_, src) in &rep.copies_from {
        assert_eq!(src, &p("a.txt"));
    }
    assert_eq!(rep.copies_to.len(), 1);
    assert_eq!(rep.copies_to[0].0, p("a.txt"));
    let mut dests = rep.copies_to[0].1.clone();
    dests.sort();
    assert_eq!(dests, vec![p("b.txt"), p("c.txt")]);
    let lines = render_report(&rep, false);
    let deleted: Vec<_> = lines
        .iter()
        .filter(|l| l.status == Some(FileDiff::Deleted))
        .collect();
    assert_eq!(deleted.len(), 1);
    let mut tos = deleted[0].copy_to.clone();
    tos.sort();
    assert_eq!(tos, vec![b"b.txt".to_vec(), b"c.txt".to_vec()]);
}
