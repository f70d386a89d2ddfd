use feed::idx::Index;

const DAY: usize = 86400;

#[test]
fn new_index_is_empty_with_the_days_asked_for() {
    let index = Index::new(5);
    assert_eq!(index.len(), 0);
    assert_eq!(index.days(), 5);
    assert_eq!(index.newest(), None);
    assert_eq!(index.count_on_or_after(0), 0);
    assert_eq!(index.query_right(0), 0);
    assert_eq!(Index::new(0).days(), 0);
}

#[test]
fn add_counts_each_post_on_its_day() {
    let mut index = Index::new(1);
    index.add((0, 1));
    index.add((DAY - 1, 2));
    index.add((DAY, 3));
    index.add((3 * DAY + 7, 4));
    assert_eq!(index.len(), 4);
    assert_eq!(index.days(), 4);
    assert_eq!(index.count_on_or_after(0), 4);
    assert_eq!(index.count_on_or_after(1), 2);
    assert_eq!(index.count_on_or_after(2), 1);
    assert_eq!(index.count_on_or_after(3), 1);
    assert_eq!(index.count_on_or_after(4), 0);
    assert_eq!(index.count_on_or_after(1000), 0);
    assert_eq!(index.query_right(0), 2);
    assert_eq!(index.query_right(1), 1);
    assert_eq!(index.query_right(2), 1);
    assert_eq!(index.query_right(3), 0);
    assert_eq!(index.query_right(usize::MAX), 0);
}

#[test]
fn add_grows_the_counters_and_never_shrinks_them() {
    let mut index = Index::new(0);
    assert_eq!(index.days(), 0);
    index.add((9 * DAY, 1));
    assert_eq!(index.days(), 10);
    index.add((2 * DAY, 2));
    assert_eq!(index.days(), 10);
    index.remove(&(0, 1));
    assert_eq!(index.days(), 10);
    assert_eq!(index.len(), 1);
    assert_eq!(index.count_on_or_after(3), 0);
    assert_eq!(index.count_on_or_after(2), 1);
}

#[test]
fn add_replaces_a_post_of_the_same_id() {
    let mut index = Index::new(1);
    index.add((10, 7));
    index.add((5 * DAY, 7));
    assert_eq!(index.len(), 1);
    assert_eq!(index.newest(), Some((5 * DAY, 7)));
    assert_eq!(index.count_on_or_after(5), 1);
    assert_eq!(index.query_right(0), 1);
    assert_eq!(index.newest_before((5 * DAY, 7)), None);
    index.remove(&(123456, 7));
    assert_eq!(index.len(), 0);
    assert_eq!(index.newest(), None);
    assert_eq!(index.count_on_or_after(0), 0);
}

#[test]
fn remove_goes_by_id_and_passes_over_unknown_ids() {
    let mut index = Index::new(1);
    index.add((100, 1));
    index.add((200, 2));
    index.remove(&(100, 3));
    assert_eq!(index.len(), 2);
    index.remove(&(999_999, 1));
    assert_eq!(index.len(), 1);
    assert_eq!(index.newest(), Some((200, 2)));
    assert_eq!(index.newest_before((200, 2)), None);
    index.remove(&(200, 2));
    index.remove(&(200, 2));
    assert_eq!(index.len(), 0);
}

#[test]
fn newest_before_walks_down_in_order() {
    let mut index = Index::new(1);
    index.add((30, 3));
    index.add((10, 9));
    index.add((30, 1));
    index.add((20, 5));
    assert_eq!(index.newest(), Some((30, 3)));
    assert_eq!(index.newest_before((30, 3)), Some((30, 1)));
    assert_eq!(index.newest_before((30, 1)), Some((20, 5)));
    assert_eq!(index.newest_before((20, 5)), Some((10, 9)));
    assert_eq!(index.newest_before((10, 9)), None);
    assert_eq!(index.newest_before((30, 2)), Some((30, 1)));
    assert_eq!(index.newest_before((usize::MAX, usize::MAX)), Some((30, 3)));
    assert_eq!(index.newest_before((0, 0)), None);
}

#[test]
fn newest_sees_the_greatest_post_there_can_be() {
    let mut index = Index::new(1);
    index.add((5, usize::MAX));
    assert_eq!(index.newest(), Some((5, usize::MAX)));
    assert_eq!(index.newest_before((5, usize::MAX)), None);
}

#[test]
fn clone_is_independent_of_its_source() {
    let mut index = Index::new(2);
    index.add((DAY + 1, 1));
    index.add((2, 2));
    let mut copy = index.clone();
    assert_eq!(copy.len(), 2);
    assert_eq!(copy.days(), 2);
    assert_eq!(copy.query_right(0), 1);
    assert_eq!(copy.newest(), Some((DAY + 1, 1)));
    copy.add((4 * DAY, 3));
    copy.remove(&(0, 2));
    assert_eq!(copy.len(), 2);
    assert_eq!(copy.days(), 5);
    assert_eq!(index.len(), 2);
    assert_eq!(index.days(), 2);
    assert_eq!(index.newest(), Some((DAY + 1, 1)));
    assert_eq!(index.count_on_or_after(0), 2);
}

#[test]
fn counts_follow_a_sequence_of_adds_and_removes() {
    let mut index = Index::new(1);
    let mut expected: Vec<(usize, usize)> = Vec::new();
    for step in 0..400usize {
        let id = (step * 7) % 50;
        let ts = ((step * 13) % 20) * DAY + step;
        if step % 3 == 2 {
            index.remove(&(0, id));
            expected.retain(|p| p.1 != id);
        } else {
            index.add((ts, id));
            expected.retain(|p| p.1 != id);
            expected.push((ts, id));
        }
        assert_eq!(index.len(), expected.len());
        for day in 0..22usize {
            let later = expected.iter().filter(|p| p.0 / DAY >= day).count();
            assert_eq!(index.count_on_or_after(day), later);
        }
        let newest = expected.iter().max().copied();
        assert_eq!(index.newest(), newest);
    }
}

#[test]
fn small_sources_have_room() {
    let mut index = Index::new(1);
    assert!(index.has_room_for(&(0, 1)));
    index.add((0, 1));
    assert!(index.has_room_for(&(5, 1)));
    assert!(index.has_room_for(&(5, 2)));
}
