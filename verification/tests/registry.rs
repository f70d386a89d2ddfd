use feed::registry::{Batch, Query, Registry};

const DAY: usize = 86400;

fn batch(name: &str, posts: Vec<(usize, usize)>) -> Batch {
    Batch {
        subsite: name.to_string(),
        posts,
    }
}

fn query(names: Vec<&str>, offset: usize, limit: usize) -> Query {
    Query {
        subsites: names.into_iter().map(|n| n.to_string()).collect(),
        offset,
        limit,
    }
}

fn names(names: Vec<&str>) -> Vec<String> {
    names.into_iter().map(|n| n.to_string()).collect()
}

#[test]
fn new_registry_is_empty() {
    let registry = Registry::new();
    assert!(registry.is_empty());
    assert_eq!(registry.total(&names(vec!["a", "b"])), 0);
    let response = registry.query(&query(vec!["a"], 0, 10));
    assert_eq!(response.post_ids, Vec::<usize>::new());
    assert_eq!(response.total, 0);
    assert!(response.cache_is_empty);
}

#[test]
fn update_makes_sources_and_adds_posts_in_order() {
    let mut registry = Registry::new();
    registry.update(&vec![
        batch("a", vec![(10, 1), (DAY, 2)]),
        batch("b", vec![(20, 3)]),
        batch("a", vec![(5, 2), (3 * DAY, 4)]),
        batch("c", vec![]),
    ]);
    assert!(!registry.is_empty());
    assert_eq!(registry.total(&names(vec!["a"])), 3);
    assert_eq!(registry.total(&names(vec!["b"])), 1);
    assert_eq!(registry.total(&names(vec!["c"])), 0);
    assert_eq!(registry.total(&names(vec!["a", "b", "c", "d"])), 4);
    assert_eq!(registry.total(&names(vec!["a", "a"])), 6);
    assert_eq!(registry.total(&names(vec![])), 0);

    let response = registry.query(&query(vec!["a", "b"], 0, 10));
    assert_eq!(response.post_ids, vec![4, 3, 1, 2]);
    assert_eq!(response.total, 4);
    assert!(!response.cache_is_empty);

    let response = registry.query(&query(vec!["b", "nobody", "a"], 1, 2));
    assert_eq!(response.post_ids, vec![3, 1]);
    assert_eq!(response.total, 4);
}

#[test]
fn query_of_unknown_sources_is_empty_but_sees_the_cache() {
    let mut registry = Registry::new();
    registry.update(&vec![batch("a", vec![(10, 1)])]);
    let response = registry.query(&query(vec!["x", "y"], 0, 10));
    assert_eq!(response.post_ids, Vec::<usize>::new());
    assert_eq!(response.total, 0);
    assert!(!response.cache_is_empty);
}

#[test]
fn offset_beyond_the_total_gives_no_posts_and_the_true_total() {
    let mut registry = Registry::new();
    registry.update(&vec![batch("a", vec![(10, 1), (11, 2)])]);
    let response = registry.query(&query(vec!["a"], 12313, 10));
    assert_eq!(response.post_ids, Vec::<usize>::new());
    assert_eq!(response.total, 2);
    let response = registry.query(&query(vec!["a"], 2, 10));
    assert_eq!(response.post_ids, Vec::<usize>::new());
    let response = registry.query(&query(vec!["a"], 1, 0));
    assert_eq!(response.post_ids, Vec::<usize>::new());
    assert_eq!(response.total, 2);
}

#[test]
fn remove_goes_by_id_and_passes_over_unknown_sources() {
    let mut registry = Registry::new();
    registry.update(&vec![
        batch("a", vec![(10, 1), (20, 2), (30, 3)]),
        batch("b", vec![(15, 1)]),
    ]);
    registry.remove(&vec![
        batch("nobody", vec![(10, 1)]),
        batch("a", vec![(999, 2), (0, 77)]),
    ]);
    assert_eq!(registry.total(&names(vec!["a"])), 2);
    assert_eq!(registry.total(&names(vec!["b"])), 1);
    assert_eq!(registry.total(&names(vec!["nobody"])), 0);
    let response = registry.query(&query(vec!["a", "b"], 0, 10));
    assert_eq!(response.post_ids, vec![3, 1, 1]);
    assert_eq!(response.total, 3);
    registry.remove(&vec![batch("a", vec![(0, 1), (0, 3)])]);
    assert_eq!(registry.total(&names(vec!["a"])), 0);
    assert!(!registry.is_empty());
}

#[test]
fn update_then_remove_restores_the_length() {
    let mut registry = Registry::new();
    registry.update(&vec![batch("s", vec![(10, 1), (20, 2)])]);
    let before = registry.total(&names(vec!["s"]));
    registry.update(&vec![batch("s", vec![(5 * DAY, 9)])]);
    assert_eq!(registry.total(&names(vec!["s"])), before + 1);
    registry.remove(&vec![batch("s", vec![(5 * DAY, 9)])]);
    assert_eq!(registry.total(&names(vec!["s"])), before);

    registry.update(&vec![batch("t", vec![(1, 1)])]);
    registry.remove(&vec![batch("t", vec![(1, 1)])]);
    assert_eq!(registry.total(&names(vec!["t"])), 0);
}

#[test]
fn update_then_remove_of_a_known_id_takes_the_post_away() {
    let mut registry = Registry::new();
    registry.update(&vec![batch("s", vec![(10, 1), (20, 2)])]);
    registry.update(&vec![batch("s", vec![(30, 2)])]);
    assert_eq!(registry.total(&names(vec!["s"])), 2);
    registry.remove(&vec![batch("s", vec![(30, 2)])]);
    assert_eq!(registry.total(&names(vec!["s"])), 1);
}

#[test]
fn clear_drops_all_sources() {
    let mut registry = Registry::new();
    registry.update(&vec![batch("a", vec![(10, 1)]), batch("b", vec![(10, 1)])]);
    registry.clear();
    assert!(registry.is_empty());
    assert_eq!(registry.total(&names(vec!["a", "b"])), 0);
    let response = registry.query(&query(vec!["a", "b"], 0, 10));
    assert_eq!(response.post_ids, Vec::<usize>::new());
    assert!(response.cache_is_empty);
    registry.update(&vec![batch("a", vec![(10, 5)])]);
    assert_eq!(registry.query(&query(vec!["a"], 0, 1)).post_ids, vec![5]);
}

#[test]
fn deep_pages_of_many_sources_agree_with_the_sorted_posts() {
    let mut registry = Registry::new();
    let source_names = vec!["s0", "s1", "s2", "s3"];
    let mut all = Vec::new();
    let mut x: usize = 99;
    for id in 0..1500usize {
        x = (x * 1103515245 + 12345) % 2147483648;
        let post = ((x % 365) * DAY + id % 1000, id);
        let source = source_names[(x / 7) % 4];
        registry.update(&vec![batch(source, vec![post])]);
        all.push(post);
    }
    all.sort();
    all.reverse();
    for offset in vec![0usize, 100, 128, 129, 500, 777, 1490, 1500] {
        let response = registry.query(&query(source_names.clone(), offset, 20));
        let expected = all
            .iter()
            .skip(offset)
            .take(20)
            .map(|p| p.1)
            .collect::<Vec<_>>();
        assert_eq!(response.post_ids, expected);
        assert_eq!(response.total, 1500);
    }
}

#[test]
fn guarded_operations_agree_with_the_plain_ones() {
    let mut registry = Registry::new();
    let first = vec![batch("a", vec![(10, 1), (DAY, 2)]), batch("b", vec![(20, 3)])];
    assert!(registry.has_room(&first));
    assert!(registry.try_update(&first));
    assert!(registry.has_room(&vec![]));
    assert!(registry.try_update(&vec![]));
    assert_eq!(registry.try_total(&names(vec!["a", "b", "zzz"])), Some(3));
    assert_eq!(registry.try_total(&names(vec![])), Some(0));
    let response = registry
        .try_query(&query(vec!["a", "b"], 1, 5))
        .expect("three posts can be counted");
    assert_eq!(response.post_ids, vec![3, 1]);
    assert_eq!(response.total, 3);
    assert!(!response.cache_is_empty);
    let plain = registry.query(&query(vec!["a", "b"], 1, 5));
    assert_eq!(plain.post_ids, response.post_ids);
    assert_eq!(plain.total, response.total);
}
