use std::cmp::Ordering;

use diamond_types::content_tree::cursor::UnsafeCursor;
use diamond_types::content_tree::entry::Entry;
use diamond_types::content_tree::metrics::{ContentMetrics, RawPositionMetrics};
use diamond_types::content_tree::rle_range::RleRange;
use diamond_types::content_tree::testrange::TestRange;
use diamond_types::content_tree::tree::ContentTreeRaw;
use rand::prelude::{Rng, SeedableRng, SmallRng};

type SmallTree = ContentTreeRaw<RleRange, 4, 4>;

fn range(start: usize, end: usize) -> RleRange {
    RleRange::new(start, end)
}

fn contents<E: Entry, const IE: usize, const LE: usize>(
    tree: &ContentTreeRaw<E, IE, LE>,
) -> Vec<E> {
    let mut out = Vec::new();
    let mut cursor = tree.cursor_at_start();
    while let Some(e) = cursor.next() {
        out.push(e);
    }
    assert_eq!(out.len(), tree.count_entries());
    out
}

fn leaves<E: Entry, const IE: usize, const LE: usize>(
    tree: &ContentTreeRaw<E, IE, LE>,
) -> Vec<usize> {
    (0..tree.count_entries()).map(|i| tree.entry_at(i).1).collect()
}

/// Joins the last run of `left` with the first of `right` where they merge.
fn join(mut left: Vec<RleRange>, right: Vec<RleRange>) -> Vec<RleRange> {
    let mut rest = right.into_iter();
    if let (Some(last), Some(first)) = (left.last_mut(), rest.clone().next()) {
        if last.end == first.start {
            last.end = first.end;
            rest.next();
        }
    }
    left.extend(rest);
    left
}

/// Cuts `list` in two before unit `pos`.
fn split(list: &[RleRange], pos: usize) -> (Vec<RleRange>, Vec<RleRange>) {
    let mut left = Vec::new();
    let mut right = Vec::new();
    let mut seen = 0;
    for r in list {
        let len = r.end - r.start;
        if seen + len <= pos {
            left.push(*r);
        } else if seen >= pos {
            right.push(*r);
        } else {
            left.push(range(r.start, r.start + (pos - seen)));
            right.push(range(r.start + (pos - seen), r.end));
        }
        seen += len;
    }
    (left, right)
}

fn model_insert(list: &[RleRange], pos: usize, e: RleRange) -> Vec<RleRange> {
    let (left, right) = split(list, pos);
    join(join(left, vec![e]), right)
}

fn model_delete(list: &[RleRange], pos: usize, n: usize) -> Vec<RleRange> {
    let total: usize = list.iter().map(|r| r.end - r.start).sum();
    let n = n.min(total - pos);
    if n == 0 {
        return list.to_vec();
    }
    let (left, rest) = split(list, pos);
    let (_, right) = split(&rest, n);
    join(left, right)
}

fn model_replace(list: &[RleRange], pos: usize, e: RleRange) -> Vec<RleRange> {
    let total: usize = list.iter().map(|r| r.end - r.start).sum();
    let n = (e.end - e.start).min(total - pos);
    let (left, rest) = split(list, pos);
    let (_, right) = split(&rest, n);
    join(join(left, vec![e]), right)
}

fn is_compact(list: &[RleRange]) -> bool {
    list.windows(2).all(|w| w[0].end != w[1].start)
}

#[test]
fn raw_insert_merges_and_splits() {
    let mut tree: SmallTree = ContentTreeRaw::new();
    let mut cursor = UnsafeCursor { idx: 0, offset: 0 };
    tree.unsafe_insert_notify(&mut cursor, range(0, 15));
    assert_eq!(cursor, UnsafeCursor { idx: 0, offset: 15 });
    tree.unsafe_insert_notify(&mut cursor, range(15, 20));
    assert_eq!(contents(&tree), vec![range(0, 20)]);
    assert_eq!(cursor, UnsafeCursor { idx: 0, offset: 20 });

    let mut cursor = UnsafeCursor { idx: 0, offset: 5 };
    tree.unsafe_insert_notify(&mut cursor, range(100, 101));
    assert_eq!(contents(&tree), vec![range(0, 5), range(100, 101), range(5, 20)]);
    assert_eq!(cursor, UnsafeCursor { idx: 1, offset: 1 });
    assert_eq!(tree.len(), 21);
}

#[test]
fn merging_inserts_leave_one_entry() {
    let mut tree: SmallTree = ContentTreeRaw::new();
    tree.push(range(0, 15));
    tree.push(range(15, 20));
    assert_eq!(tree.to_vec(), vec![range(0, 20)]);
    let mut cursor = tree.cursor_at_start();
    assert_eq!(cursor.next(), Some(range(0, 20)));
    assert_eq!(cursor.next(), None);
    assert_eq!(cursor.next(), None);
    assert_eq!(tree.count_entries(), 1);
    assert_eq!(tree.len(), 20);
}

#[test]
fn insert_inside_an_entry_splits_it() {
    let mut tree: SmallTree = ContentTreeRaw::new();
    tree.push(range(0, 15));
    tree.push(range(15, 20));
    tree.insert_at_offset(5, range(100, 101));
    assert_eq!(tree.to_vec(), vec![range(0, 5), range(100, 101), range(5, 20)]);
    assert_eq!(tree.len(), 21);
}

#[test]
fn insert_joins_on_both_sides() {
    let mut tree: SmallTree = ContentTreeRaw::new();
    tree.push(range(0, 5));
    tree.push(range(6, 10));
    assert_eq!(tree.to_vec(), vec![range(0, 5), range(6, 10)]);
    let mut cursor = tree.mut_cursor_at_query::<RawPositionMetrics>(5, true);
    let moved = cursor.insert_notify(range(5, 6));
    assert!(moved.is_empty());
    assert_eq!(cursor.inner, UnsafeCursor { idx: 0, offset: 6 });
    assert_eq!(tree.to_vec(), vec![range(0, 10)]);

    // Joined to the run behind it only.
    let mut tree: SmallTree = ContentTreeRaw::new();
    tree.push(range(10, 20));
    let mut cursor = tree.mut_cursor_at_start();
    cursor.insert(range(5, 10));
    assert_eq!(cursor.inner, UnsafeCursor { idx: 0, offset: 5 });
    assert_eq!(tree.to_vec(), vec![range(5, 20)]);

    // Inside a run, joined to the part before it.
    let mut tree: SmallTree = ContentTreeRaw::new();
    tree.push(range(0, 10));
    let mut cursor = tree.mut_cursor_at_query::<RawPositionMetrics>(4, true);
    assert_eq!(cursor.inner, UnsafeCursor { idx: 0, offset: 4 });
    cursor.insert(range(4, 7));
    assert_eq!(cursor.inner, UnsafeCursor { idx: 0, offset: 7 });
    assert_eq!(tree.to_vec(), vec![range(0, 7), range(4, 10)]);
}

#[test]
fn raw_insert_grows_the_tree() {
    let mut tree: SmallTree = ContentTreeRaw::new();
    let mut expected = Vec::new();
    let mut moved = 0;
    for i in 0..500usize {
        // Runs that never merge: each starts two past the end of the last.
        let run = range(i * 3, i * 3 + 1);
        let mut cursor = UnsafeCursor { idx: tree.count_entries(), offset: 0 };
        moved += tree.unsafe_insert_notify(&mut cursor, run).len();
        expected.push(run);
    }
    assert_eq!(contents(&tree), expected);
    assert_eq!(tree.len(), 500);
    assert!(moved > 0);
    for i in 0..200usize {
        let run = range(10_000 + i * 3, 10_000 + i * 3 + 2);
        let at = (i * 7) % (expected.len() + 1);
        let mut cursor = UnsafeCursor { idx: at, offset: 0 };
        tree.unsafe_insert_notify(&mut cursor, run);
        expected.insert(at, run);
    }
    assert_eq!(contents(&tree), expected);
    assert_eq!(tree.len(), 900);
}

fn sample_tree() -> (SmallTree, Vec<RleRange>) {
    let mut tree: SmallTree = ContentTreeRaw::new();
    let mut expected = Vec::new();
    for i in 0..60usize {
        let run = range(i * 10, i * 10 + 1 + i % 4);
        tree.push(run);
        expected.push(run);
    }
    assert_eq!(tree.to_vec(), expected);
    (tree, expected)
}

#[test]
fn query_then_count_gives_the_position_back() {
    let (tree, expected) = sample_tree();
    let total = tree.len();
    assert_eq!(total, expected.iter().map(|r| r.end - r.start).sum::<usize>());
    for pos in 0..=total {
        for stick_end in [false, true] {
            let cursor = tree.cursor_at_query::<RawPositionMetrics>(pos, stick_end);
            assert_eq!(cursor.count_offset_pos(), pos);
            assert_eq!(cursor.count_pos_raw::<RawPositionMetrics>(), pos);
            // Every unit is content in a tree of plain ranges.
            assert_eq!(cursor.count_content_pos(), pos);
            let idx = cursor.inner.idx;
            let offset = cursor.inner.offset;
            if idx < expected.len() {
                let len = expected[idx].end - expected[idx].start;
                if stick_end {
                    assert!(offset <= len);
                    assert!(idx == 0 || offset > 0);
                } else {
                    assert!(offset < len);
                }
            } else {
                assert!(!stick_end);
                assert_eq!((idx, offset, pos), (expected.len(), 0, total));
            }
        }
    }
}

#[test]
fn stick_end_picks_the_side_of_a_boundary() {
    let mut tree: SmallTree = ContentTreeRaw::new();
    tree.push(range(0, 5));
    tree.push(range(10, 12));
    let before = tree.cursor_at_query::<RawPositionMetrics>(5, true);
    let after = tree.cursor_at_query::<RawPositionMetrics>(5, false);
    assert_eq!(before.inner, UnsafeCursor { idx: 0, offset: 5 });
    assert_eq!(after.inner, UnsafeCursor { idx: 1, offset: 0 });
    // The same position, and yet the one comes before the other.
    assert_eq!(before.count_offset_pos(), after.count_offset_pos());
    assert_eq!(before.cmp(&after), Ordering::Less);
    assert_eq!(after.cmp(&before), Ordering::Greater);
    assert_eq!(before.cmp(&before), Ordering::Equal);
    assert_eq!(before.partial_cmp(&after), Some(Ordering::Less));
    assert!(!before.eq(&after));
    assert!(after.eq(&tree.cursor_at_query::<RawPositionMetrics>(5, false)));
    assert_eq!(tree.cursor_at_start().inner, UnsafeCursor { idx: 0, offset: 0 });
    assert_eq!(tree.cursor_at_end().inner, UnsafeCursor { idx: 1, offset: 2 });
    assert_eq!(tree.cursor_at_query::<RawPositionMetrics>(7, true).inner, tree.cursor_at_end().inner);
    assert_eq!(
        tree.cursor_at_query::<RawPositionMetrics>(7, false).inner,
        UnsafeCursor { idx: 2, offset: 0 }
    );
    let inside = tree.cursor_at_query::<RawPositionMetrics>(3, false);
    assert_eq!(inside.inner.unsafe_cmp(&after.inner), Ordering::Less);
    assert_eq!(inside.inner.unsafe_cmp(&before.inner), Ordering::Less);
}

#[test]
fn relocations_are_reported_once_each() {
    let mut rng = SmallRng::seed_from_u64(7);
    let mut tree: SmallTree = ContentTreeRaw::new();
    let mut list: Vec<RleRange> = Vec::new();
    let mut known: Vec<usize> = Vec::new();
    let mut any_moved = false;
    for step in 0..400usize {
        let total = tree.len();
        let pos = rng.gen_range(0..=total);
        let run = range(1_000_000 + step * 10, 1_000_000 + step * 10 + 1 + step % 3);
        let mut cursor = tree.mut_cursor_at_query::<RawPositionMetrics>(pos, true);
        let events = cursor.insert_notify(run);
        let landed = cursor.inner.idx;
        let new_list = model_insert(&list, pos, run);
        assert_eq!(tree.to_vec(), new_list);
        let now = leaves(&tree);

        // Exactly the runs in leaves that were not there before are
        // reported, in order, each with its leaf.
        let mut before: Vec<usize> = known.clone();
        before.sort();
        before.dedup();
        let expected_events: Vec<(RleRange, usize)> = new_list
            .iter()
            .zip(now.iter())
            .filter(|(_, leaf)| !before.contains(*leaf) && !(step == 0))
            .map(|(r, leaf)| (*r, *leaf))
            .collect();
        assert_eq!(events, expected_events);
        any_moved |= !events.is_empty();

        // Runs outside the edit that were not reported are where they were.
        let added = new_list.len() as isize - list.len() as isize;
        let first_changed = landed.saturating_sub(1).min(list.len());
        for (j, leaf) in now.iter().enumerate() {
            let reported = events.iter().any(|(_, l)| l == leaf);
            if reported {
                continue;
            }
            if j < first_changed && j < list.len() && new_list[j] == list[j] {
                assert_eq!(*leaf, known[j]);
            }
            let old_j = j as isize - added;
            if j > landed + 1 && old_j >= 0 && (old_j as usize) < list.len() {
                assert_eq!(new_list[j], list[old_j as usize]);
                assert_eq!(*leaf, known[old_j as usize]);
            }
        }
        list = new_list;
        known = now;
    }
    assert!(any_moved);
    assert!(tree.count_entries() > 100);
}

#[test]
fn empty_tree() {
    let mut tree: SmallTree = ContentTreeRaw::new();
    assert!(tree.is_empty());
    assert_eq!(tree.len(), 0);
    assert_eq!(tree.content_len(), 0);
    assert_eq!(tree.count_entries(), 0);
    let mut cursor = tree.cursor_at_start();
    assert_eq!(cursor.next(), None);
    assert_eq!(cursor.next(), None);
    assert_eq!(tree.cursor_at_end().inner, UnsafeCursor { idx: 0, offset: 0 });
    assert_eq!(
        tree.cursor_at_query::<RawPositionMetrics>(0, true).inner,
        UnsafeCursor { idx: 0, offset: 0 }
    );
    assert_eq!(tree.cursor_at_start().count_offset_pos(), 0);
    assert_eq!(tree.cursor_at_start().get_item(), None);
    assert!(tree.to_vec().is_empty());

    // Deleting from an empty tree changes nothing.
    let mut cursor = tree.mut_cursor_at_start();
    assert!(cursor.delete_notify(10).is_empty());
    assert_eq!(cursor.inner, UnsafeCursor { idx: 0, offset: 0 });
    assert!(tree.is_empty());

    // Replacing in an empty tree is a plain insert.
    let mut cursor = tree.mut_cursor_at_start();
    cursor.replace_range(range(3, 8));
    assert_eq!(cursor.inner, UnsafeCursor { idx: 0, offset: 5 });
    assert_eq!(tree.to_vec(), vec![range(3, 8)]);

    let mut tree: SmallTree = ContentTreeRaw::new();
    let mut cursor = tree.mut_cursor_at_end();
    cursor.insert(range(3, 8));
    cursor.insert(range(8, 9));
    assert_eq!(tree.to_vec(), vec![range(3, 9)]);
}

#[test]
fn delete_inside_and_across_entries() {
    let build = || {
        let mut tree: SmallTree = ContentTreeRaw::new();
        tree.push(range(0, 10));
        tree.push(range(20, 30));
        tree.push(range(40, 50));
        tree
    };
    // Inside one run: the run falls in two.
    let mut tree = build();
    tree.delete_at_offset(2, 3);
    assert_eq!(tree.to_vec(), vec![range(0, 2), range(5, 10), range(20, 30), range(40, 50)]);
    assert_eq!(tree.len(), 27);
    // From the start of a run.
    let mut tree = build();
    tree.delete_at_offset(10, 4);
    assert_eq!(tree.to_vec(), vec![range(0, 10), range(24, 30), range(40, 50)]);
    // A whole run.
    let mut tree = build();
    tree.delete_at_offset(10, 10);
    assert_eq!(tree.to_vec(), vec![range(0, 10), range(40, 50)]);
    // Across runs, from the inside of one to the inside of another.
    let mut tree = build();
    tree.delete_at_offset(5, 20);
    assert_eq!(tree.to_vec(), vec![range(0, 5), range(45, 50)]);
    // To the end of a run.
    let mut tree = build();
    tree.delete_at_offset(5, 5);
    assert_eq!(tree.to_vec(), vec![range(0, 5), range(20, 30), range(40, 50)]);
    // More than there is.
    let mut tree = build();
    tree.delete_at_offset(15, 1000);
    assert_eq!(tree.to_vec(), vec![range(0, 10), range(20, 25)]);
    assert_eq!(tree.len(), 15);
    // Nothing.
    let mut tree = build();
    tree.delete_at_offset(25, 0);
    assert_eq!(tree.to_vec(), vec![range(0, 10), range(20, 30), range(40, 50)]);
    // Everything.
    let mut tree = build();
    let mut cursor = tree.mut_cursor_at_start();
    cursor.delete(30);
    assert_eq!(cursor.inner, UnsafeCursor { idx: 0, offset: 0 });
    assert!(tree.is_empty());
    assert_eq!(tree.cursor_at_start().next(), None);
    // From a cursor at the end of a run.
    let mut tree = build();
    let mut cursor = tree.mut_cursor_at_query::<RawPositionMetrics>(10, true);
    assert_eq!(cursor.inner, UnsafeCursor { idx: 0, offset: 10 });
    cursor.delete(12);
    assert_eq!(cursor.inner, UnsafeCursor { idx: 0, offset: 10 });
    assert_eq!(tree.to_vec(), vec![range(0, 10), range(42, 50)]);
    // From a cursor at the start of a run: the cursor goes to the end of the
    // run before it.
    let mut tree = build();
    let mut cursor = tree.mut_cursor_at_query::<RawPositionMetrics>(10, false);
    assert_eq!(cursor.inner, UnsafeCursor { idx: 1, offset: 0 });
    cursor.delete(3);
    assert_eq!(cursor.inner, UnsafeCursor { idx: 0, offset: 10 });
    assert_eq!(tree.to_vec(), vec![range(0, 10), range(23, 30), range(40, 50)]);
    // With nothing to delete the cursor stays.
    let mut cursor = tree.mut_cursor_at_query::<RawPositionMetrics>(10, false);
    cursor.delete(0);
    assert_eq!(cursor.inner, UnsafeCursor { idx: 1, offset: 0 });
    let mut cursor = tree.mut_cursor_at_end();
    let at_end = cursor.inner;
    assert!(cursor.delete_notify(5).is_empty());
    assert_eq!(cursor.inner, at_end);
    assert_eq!(tree.to_vec(), vec![range(0, 10), range(23, 30), range(40, 50)]);
}

#[test]
fn delete_joins_what_is_left() {
    let mut tree: SmallTree = ContentTreeRaw::new();
    tree.push(range(0, 20));
    tree.insert_at_offset(5, range(100, 101));
    assert_eq!(tree.to_vec(), vec![range(0, 5), range(100, 101), range(5, 20)]);
    let mut cursor = tree.mut_cursor_at_query::<RawPositionMetrics>(5, false);
    let moved = cursor.delete_notify(1);
    assert!(moved.is_empty());
    assert_eq!(cursor.inner, UnsafeCursor { idx: 0, offset: 5 });
    assert_eq!(tree.to_vec(), vec![range(0, 20)]);
    assert_eq!(tree.len(), 20);

    // Units cut out of the middle of a run leave two runs that do not join.
    let mut cursor = tree.mut_cursor_at_query::<RawPositionMetrics>(5, false);
    cursor.delete(10);
    assert_eq!(cursor.inner, UnsafeCursor { idx: 0, offset: 5 });
    assert_eq!(tree.to_vec(), vec![range(0, 5), range(15, 20)]);

    // Runs of items that are all alike join again after a cut.
    let mut flagged: ContentTreeRaw<TestRange, 4, 4> = ContentTreeRaw::new();
    flagged.push(test_run(0, 10, true));
    flagged.push(test_run(10, 5, false));
    flagged.push(test_run(15, 5, true));
    assert_eq!(flagged.count_entries(), 3);
    flagged.delete_at_offset(10, 5);
    assert_eq!(flagged.to_vec(), vec![test_run(0, 10, true), test_run(15, 5, true)]);
}

#[test]
fn replace_range_overwrites_units() {
    let build = || {
        let mut tree: SmallTree = ContentTreeRaw::new();
        tree.push(range(0, 10));
        tree.push(range(20, 30));
        tree
    };
    // Inside one run.
    let mut tree = build();
    let mut cursor = tree.mut_cursor_at_query::<RawPositionMetrics>(3, false);
    let moved = cursor.replace_range_notify(range(100, 102));
    assert!(moved.is_empty());
    assert_eq!(cursor.inner, UnsafeCursor { idx: 1, offset: 2 });
    assert_eq!(
        tree.to_vec(),
        vec![range(0, 3), range(100, 102), range(5, 10), range(20, 30)]
    );
    assert_eq!(tree.len(), 20);
    // Across two runs.
    let mut tree = build();
    let mut cursor = tree.mut_cursor_at_query::<RawPositionMetrics>(8, false);
    cursor.replace_range(range(100, 105));
    assert_eq!(cursor.inner, UnsafeCursor { idx: 1, offset: 5 });
    assert_eq!(tree.to_vec(), vec![range(0, 8), range(100, 105), range(23, 30)]);
    assert_eq!(tree.len(), 20);
    // With what was there already: the runs join again.
    let mut tree = build();
    let mut cursor = tree.mut_cursor_at_query::<RawPositionMetrics>(3, false);
    cursor.replace_range(range(3, 5));
    assert_eq!(cursor.inner, UnsafeCursor { idx: 0, offset: 5 });
    assert_eq!(tree.to_vec(), vec![range(0, 10), range(20, 30)]);
    // At the end: a plain insert.
    let mut tree = build();
    let mut cursor = tree.mut_cursor_at_end();
    cursor.replace_range(range(30, 35));
    assert_eq!(tree.to_vec(), vec![range(0, 10), range(20, 35)]);
    assert_eq!(tree.len(), 25);
}

#[test]
fn replace_entry_puts_up_to_three_in_its_place() {
    let mut tree: SmallTree = ContentTreeRaw::new();
    tree.push(range(0, 10));
    tree.push(range(20, 30));
    tree.push(range(40, 50));
    let mut cursor = tree.mut_cursor_at_query::<RawPositionMetrics>(15, false);
    assert_eq!(cursor.inner, UnsafeCursor { idx: 1, offset: 5 });
    cursor.replace_entry(&[range(100, 101), range(200, 202), range(300, 303)]);
    assert_eq!(cursor.inner, UnsafeCursor { idx: 1, offset: 0 });
    assert_eq!(
        tree.to_vec(),
        vec![range(0, 10), range(100, 101), range(200, 202), range(300, 303), range(40, 50)]
    );
    assert_eq!(tree.len(), 26);
    let mut cursor = tree.mut_cursor_at_query::<RawPositionMetrics>(10, false);
    cursor.replace_entry(&[]);
    assert_eq!(tree.to_vec(), vec![range(0, 10), range(200, 202), range(300, 303), range(40, 50)]);
    let mut cursor = tree.mut_cursor_at_query::<RawPositionMetrics>(10, false);
    cursor.replace_entry_simple(range(7, 9));
    assert_eq!(cursor.inner, UnsafeCursor { idx: 1, offset: 0 });
    assert_eq!(tree.to_vec(), vec![range(0, 10), range(7, 9), range(300, 303), range(40, 50)]);
}

fn test_run(id: u32, len: u32, is_activated: bool) -> TestRange {
    TestRange { id, len, is_activated }
}

#[test]
fn mutate_single_entry_changes_a_part_in_place() {
    let switch_off = |mut e: TestRange| {
        e.is_activated = false;
        (e, e.id)
    };
    let build = || {
        let mut tree: ContentTreeRaw<TestRange, 4, 4> = ContentTreeRaw::new();
        tree.push(test_run(0, 10, true));
        tree.push(test_run(100, 10, true));
        tree
    };
    // The middle of a run: three parts.
    let mut tree = build();
    let mut cursor = tree.mut_cursor_at_query::<RawPositionMetrics>(3, false);
    let (changed, ret, moved) = cursor.mutate_single_entry_notify(4, switch_off);
    assert_eq!((changed, ret), (4, 3));
    assert!(moved.is_empty());
    assert_eq!(cursor.inner, UnsafeCursor { idx: 1, offset: 4 });
    assert_eq!(
        tree.to_vec(),
        vec![
            test_run(0, 3, true),
            test_run(3, 4, false),
            test_run(7, 3, true),
            test_run(100, 10, true)
        ]
    );
    assert_eq!(tree.len(), 20);
    assert_eq!(tree.content_len(), 16);
    // From the start, more than the run has: the whole run, and no more.
    let mut tree = build();
    let mut cursor = tree.mut_cursor_at_query::<RawPositionMetrics>(10, false);
    let (changed, ret, _) = cursor.mutate_single_entry_notify(50, switch_off);
    assert_eq!((changed, ret), (10, 100));
    assert_eq!(cursor.inner, UnsafeCursor { idx: 1, offset: 10 });
    assert_eq!(tree.to_vec(), vec![test_run(0, 10, true), test_run(100, 10, false)]);
    assert_eq!(tree.content_len(), 10);
    // The tail of a run.
    let mut tree = build();
    let mut cursor = tree.mut_cursor_at_query::<RawPositionMetrics>(6, false);
    let (changed, ret, _) = cursor.mutate_single_entry_notify(4, switch_off);
    assert_eq!((changed, ret), (4, 6));
    assert_eq!(
        tree.to_vec(),
        vec![test_run(0, 6, true), test_run(6, 4, false), test_run(100, 10, true)]
    );
    // The head of a run.
    let mut tree = build();
    let mut cursor = tree.mut_cursor_at_start();
    let (changed, ret, _) = cursor.mutate_single_entry_notify(1, switch_off);
    assert_eq!((changed, ret), (1, 0));
    assert_eq!(cursor.inner, UnsafeCursor { idx: 0, offset: 1 });
    assert_eq!(
        tree.to_vec(),
        vec![test_run(0, 1, false), test_run(1, 9, true), test_run(100, 10, true)]
    );
}

#[test]
fn content_positions_skip_what_is_switched_off() {
    let mut tree: ContentTreeRaw<TestRange, 4, 4> = ContentTreeRaw::new();
    let mut expected = Vec::new();
    for i in 0..40u32 {
        let run = test_run(i * 100, 1 + i % 5, i % 3 != 0);
        tree.push(run);
        expected.push(run);
    }
    assert_eq!(tree.to_vec(), expected);
    let content: usize = expected.iter().filter(|r| r.is_activated).map(|r| r.len as usize).sum();
    assert_eq!(tree.content_len(), content);
    assert_eq!(tree.len(), expected.iter().map(|r| r.len as usize).sum::<usize>());

    for pos in 0..=content {
        for stick_end in [false, true] {
            let cursor = tree.cursor_at_query::<ContentMetrics>(pos, stick_end);
            assert_eq!(cursor.count_content_pos(), pos);
            assert_eq!(cursor.count_pos_raw::<ContentMetrics>(), pos);
            let idx = cursor.inner.idx;
            let before: usize = expected[..idx].iter().map(|r| r.len as usize).sum();
            let offset = if idx < expected.len() && expected[idx].is_activated {
                cursor.inner.offset
            } else {
                assert_eq!(cursor.inner.offset, 0);
                0
            };
            assert_eq!(cursor.count_offset_pos(), before + cursor.inner.offset);
            let content_before: usize = expected[..idx]
                .iter()
                .filter(|r| r.is_activated)
                .map(|r| r.len as usize)
                .sum();
            assert_eq!(content_before + offset, pos);
        }
    }
    // The first run is switched off: content position 0 without stick_end
    // is the start of the first run that counts.
    assert_eq!(
        tree.cursor_at_query::<ContentMetrics>(0, false).inner,
        UnsafeCursor { idx: 1, offset: 0 }
    );
    assert_eq!(
        tree.cursor_at_query::<ContentMetrics>(0, true).inner,
        UnsafeCursor { idx: 0, offset: 0 }
    );
}

#[test]
fn get_item_fetches_the_unit_at_the_cursor() {
    let mut tree: SmallTree = ContentTreeRaw::new();
    tree.push(range(10, 15));
    tree.push(range(100, 103));
    assert_eq!(tree.cursor_at_query::<RawPositionMetrics>(0, false).get_item(), Some(10));
    assert_eq!(tree.cursor_at_query::<RawPositionMetrics>(4, false).get_item(), Some(14));
    assert_eq!(tree.cursor_at_query::<RawPositionMetrics>(5, false).get_item(), Some(100));
    // At the end of a run there is no unit under the cursor.
    assert_eq!(tree.cursor_at_query::<RawPositionMetrics>(5, true).get_item(), None);
    assert_eq!(tree.cursor_at_query::<RawPositionMetrics>(7, false).get_item(), Some(102));
    assert_eq!(tree.cursor_at_end().get_item(), None);
    let cursor = tree.cursor_at_query::<RawPositionMetrics>(6, false);
    assert_eq!(cursor.get_raw_entry(), range(100, 103));
    assert_eq!(cursor.inner.try_get_raw_entry(&tree), Some(range(100, 103)));
    assert_eq!(UnsafeCursor { idx: 2, offset: 0 }.try_get_raw_entry(&tree), None);

    let mut flagged: ContentTreeRaw<TestRange, 4, 4> = ContentTreeRaw::new();
    flagged.push(test_run(5, 3, false));
    assert_eq!(
        flagged.cursor_at_query::<RawPositionMetrics>(2, false).get_item(),
        Some((7, false))
    );
}

#[test]
fn iteration_runs_from_the_cursor_on() {
    let (tree, expected) = sample_tree();
    let mut cursor = tree.cursor_at_query::<RawPositionMetrics>(tree.len() / 2, false);
    let from = cursor.inner.idx;
    let mut seen = Vec::new();
    while let Some(e) = cursor.next() {
        seen.push(e);
    }
    assert_eq!(seen, expected[from..].to_vec());
    assert_eq!(cursor.next(), None);
    // A cursor at the end of the last run still gives that run.
    let mut cursor = tree.cursor_at_end();
    assert_eq!(cursor.next(), Some(*expected.last().unwrap()));
    assert_eq!(cursor.next(), None);
    // Leaves of the same tree have different identities.
    let mut ids = leaves(&tree);
    let mut cursor = tree.cursor_at_start();
    assert_eq!(cursor.leaf_id(), ids[0]);
    assert!(cursor.inner.next_entry(&tree));
    assert_eq!(cursor.inner, UnsafeCursor { idx: 1, offset: 0 });
    let runs = ids.len();
    ids.dedup();
    assert!(ids.len() > 1 && ids.len() < runs);
    let mut sorted = ids.clone();
    sorted.sort();
    sorted.dedup();
    assert_eq!(sorted.len(), ids.len());
}

#[test]
fn random_edits_match_the_model() {
    let mut rng = SmallRng::seed_from_u64(20);
    for round in 0..20usize {
        let mut tree: SmallTree = ContentTreeRaw::new();
        let mut list: Vec<RleRange> = Vec::new();
        for step in 0..300usize {
            let total: usize = list.iter().map(|r| r.end - r.start).sum();
            assert_eq!(tree.len(), total);
            let pos = rng.gen_range(0..=total);
            let choice = rng.gen_range(0..10);
            if choice < 5 || total == 0 {
                // Now and then a run that continues what is at the place.
                let (left, _) = split(&list, pos);
                let start = match left.last() {
                    Some(last) if rng.gen_bool(0.3) => last.end,
                    _ => (round * 1000 + step) * 100,
                };
                let run = range(start, start + rng.gen_range(1..6));
                tree.insert_at_offset(pos, run);
                list = model_insert(&list, pos, run);
            } else if choice < 8 {
                let n = rng.gen_range(0..12);
                tree.delete_at_offset(pos, n);
                list = model_delete(&list, pos, n);
            } else {
                let run_start = (round * 1000 + step) * 100;
                let run = range(run_start, run_start + rng.gen_range(1..6));
                let mut cursor = tree.mut_cursor_at_query::<RawPositionMetrics>(pos, false);
                cursor.replace_range(run);
                let end = cursor.count_offset_pos();
                list = model_replace(&list, pos, run);
                assert_eq!(end, pos + (run.end - run.start));
            }
            assert_eq!(tree.to_vec(), list);
            assert_eq!(contents(&tree), list);
            // No two runs side by side are left that could be one.
            assert!(is_compact(&list));
        }
    }
}

#[test]
fn the_tree_gains_and_loses_height_at_the_root() {
    let mut tree: SmallTree = ContentTreeRaw::new();
    assert_eq!(tree.height(), 0);
    assert!(tree.has_spare_leaf());
    for i in 0..300usize {
        tree.push(range(i * 3, i * 3 + 1));
    }
    // 300 runs in leaves of at most 4, below nodes of at most 4 children.
    let full = tree.height();
    assert!(full >= 4);
    assert_eq!(tree.count_entries(), 300);
    // What is left at the far ends of the tree keeps the root in place.
    let mut cursor = tree.mut_cursor_at_query::<RawPositionMetrics>(1, false);
    let moved = cursor.delete_notify(298);
    assert!(moved.is_empty());
    assert_eq!(tree.to_vec(), vec![range(0, 1), range(897, 898)]);
    assert!(tree.height() <= full);
    // With one of them gone the root has a single child, and gives way.
    tree.delete_at_offset(1, 1);
    assert_eq!(tree.to_vec(), vec![range(0, 1)]);
    assert_eq!(tree.height(), 0);
    tree.delete_at_offset(0, 2);
    assert!(tree.is_empty());
    assert_eq!(tree.height(), 0);
    tree.push(range(5, 6));
    assert_eq!(tree.to_vec(), vec![range(5, 6)]);
}

#[test]
fn deleting_moves_no_run_to_another_leaf() {
    let (mut tree, _) = sample_tree();
    let before: Vec<(RleRange, usize)> =
        (0..tree.count_entries()).map(|i| tree.entry_at(i)).collect();
    let mut cursor = tree.mut_cursor_at_query::<RawPositionMetrics>(40, false);
    let first = cursor.inner.idx;
    assert_eq!(cursor.inner.offset, 0);
    let moved = cursor.delete_notify(30);
    assert!(moved.is_empty());
    let after: Vec<(RleRange, usize)> =
        (0..tree.count_entries()).map(|i| tree.entry_at(i)).collect();
    let gone = before.len() - after.len();
    assert!(gone > 5);
    // The runs before the place and the runs behind it are where they were.
    assert_eq!(after[..first], before[..first]);
    assert_eq!(after[first + 1..], before[first + gone + 1..]);
}
