use feed::idx::Index;
use feed::order::PostId;
use feed::query::get_posts_for_offset;
use rand::{Rng, SeedableRng};

fn gen_ts(day: usize, sub_day: usize) -> usize {
    day * 86400 + sub_day
}

#[test]
fn test_indexes() {
    let mut indexes = Vec::new();
    let len = 1;
    indexes.push(Index::new(len));
    indexes.push(Index::new(len));

    let mut post_id = 0;
    let mut next_post_id = || {
        post_id += 1;
        post_id
    };

    indexes[0].add((gen_ts(0, 0), next_post_id()));
    indexes[1].add((gen_ts(0, 1), next_post_id()));
    indexes[0].add((gen_ts(0, 2), next_post_id()));
    indexes[0].add((gen_ts(1, 0), next_post_id()));
    indexes[0].add((gen_ts(1, 1), next_post_id()));
    indexes[0].add((gen_ts(1, 2), next_post_id()));
    indexes[1].add((gen_ts(1, 3), next_post_id()));
    indexes[1].add((gen_ts(1, 4), next_post_id()));
    indexes[0].add((gen_ts(1, 4), next_post_id()));
    indexes[0].add((gen_ts(1, 4), next_post_id()));
    indexes[0].add((gen_ts(1, 4), next_post_id()));
    indexes[1].add((gen_ts(1, 4), next_post_id()));
    indexes[1].add((gen_ts(1, 4), next_post_id()));
    indexes[1].add((gen_ts(5, 0), next_post_id()));
    indexes[1].add((gen_ts(5, 1), next_post_id()));
    indexes[1].add((gen_ts(5, 2), next_post_id()));
    indexes[1].add((gen_ts(5, 3), next_post_id()));
    indexes[1].add((gen_ts(5, 4), next_post_id()));
    indexes[0].add((gen_ts(6, 10), next_post_id()));
    indexes[0].add((gen_ts(6, 12), next_post_id()));
    indexes[0].add((gen_ts(6, 15), next_post_id()));
    indexes[0].add((gen_ts(6, 20), next_post_id()));

    assert_eq!(post_id, 22);

    let indexes = indexes.iter().map(|idx| idx).collect::<Vec<_>>();

    assert_eq!(
        get_posts_for_offset(&indexes, 0, 10),
        (post_id - 9..=post_id).rev().collect::<Vec<_>>()
    );
    assert_eq!(
        get_posts_for_offset(&indexes, 0, 22),
        (1..=post_id).rev().collect::<Vec<_>>()
    );
    assert_eq!(
        get_posts_for_offset(&indexes, 10, 10),
        (post_id - 9 - 10..=post_id - 10).rev().collect::<Vec<_>>()
    );
    assert_eq!(
        get_posts_for_offset(&indexes, 20, 5),
        vec![post_id - 20, post_id - 21]
    );
}

#[test]
fn test_edge_cases() {
    let mut indexes = Vec::new();
    let len = 1;
    indexes.push(Index::new(len));
    indexes.push(Index::new(len));
    let indexes = indexes.iter().map(|idx| idx).collect::<Vec<_>>();

    let empty: Vec<PostId> = vec![];
    // empty indexes
    assert_eq!(get_posts_for_offset(&indexes, 0, 10), empty);
    assert_eq!(get_posts_for_offset(&indexes, 12313, 10), empty);
    assert_eq!(get_posts_for_offset(&indexes, 12313, 0), empty);
    assert_eq!(get_posts_for_offset(&indexes, 12313, 0), empty);

    // copy from indexes
    let mut indexes = indexes
        .into_iter()
        .map(|idx| idx.clone())
        .collect::<Vec<_>>();
    indexes[0].add((gen_ts(0, 0), 1));
    let indexes = indexes.iter().map(|idx| idx).collect::<Vec<_>>();
    assert_eq!(get_posts_for_offset(&indexes, 0, 10), vec![1]);
    assert_eq!(get_posts_for_offset(&indexes, 1, 10), empty);
    assert_eq!(get_posts_for_offset(&indexes, 12313, 0), empty);
}

#[test]
fn test_correctness() {
    let num_indexes = 7;

    for len_days in vec![1, 10, 128, 365 * 10] {
        let mut indexes = Vec::new();
        for _ in 0..num_indexes {
            indexes.push(Index::new(len_days));
        }

        let posts_num = 2000;
        let mut eta = Vec::new();

        let mut rng = rand::rngs::StdRng::seed_from_u64(0);

        for i in 0..posts_num {
            // generate random day
            let day = rng.gen::<usize>() % len_days;
            let random_ts = gen_ts(day, i % 86400);
            let random_index = rng.gen::<usize>() % num_indexes;

            let post = (random_ts, i);

            indexes[random_index].add(post.clone());
            eta.push(post);
        }

        eta.sort();

        let indexes = indexes.iter().map(|idx| idx).collect::<Vec<_>>();

        for i in 0..posts_num {
            let posts = get_posts_for_offset(&indexes, i, 10);

            let eta_offset_left = (posts_num as i32 - i as i32 - 10).max(0) as usize;
            let eta_offset_right = (posts_num as i32 - i as i32).min(posts_num as i32) as usize;

            assert_eq!(
                posts,
                eta[eta_offset_left..eta_offset_right]
                    .iter()
                    .rev()
                    .map(|x| x.1)
                    .collect::<Vec<_>>(),
                "len_days: {}, i: {}",
                len_days,
                i
            );
        }
    }
}

#[test]
fn test_update() {
    // after a mutation of the indexes the results follow
    let mut indexes = Vec::new();
    indexes.push(Index::new(0));
    indexes.push(Index::new(0));

    let indexes = indexes.iter().map(|idx| idx).collect::<Vec<_>>();
    let eta = vec![
        (gen_ts(0, 0), 0, 1),
        (gen_ts(0, 1), 1, 2),
        (gen_ts(0, 2), 0, 3),
        (gen_ts(0, 3), 1, 4),
        (gen_ts(0, 4), 1, 5),
    ];

    // update indexes with eta
    let mut indexes = indexes
        .into_iter()
        .map(|idx| idx.clone())
        .collect::<Vec<_>>();
    for (ts, ss_id, post_id) in eta {
        indexes[ss_id].add((ts, post_id));
    }
    let indexes = indexes.iter().map(|idx| idx).collect::<Vec<_>>();
    // check that we get correct results
    assert_eq!(get_posts_for_offset(&indexes, 0, 10), vec![5, 4, 3, 2, 1]);
    assert_eq!(get_posts_for_offset(&indexes, 1, 10), vec![4, 3, 2, 1]);

    // mutate date
    let eta = vec![
        (gen_ts(0, 0), 1, 2),
        (gen_ts(0, 1), 0, 1),
        (gen_ts(0, 2), 1, 4),
        (gen_ts(0, 3), 0, 3),
        (gen_ts(0, 4), 1, 5),
    ];

    // update indexes with eta
    let mut indexes = indexes
        .into_iter()
        .map(|idx| idx.clone())
        .collect::<Vec<_>>();
    for (ts, ss_id, post_id) in eta {
        indexes[ss_id].add((ts, post_id));
    }
    let indexes = indexes.iter().map(|idx| idx).collect::<Vec<_>>();
    // check that we get correct results
    assert_eq!(get_posts_for_offset(&indexes, 0, 10), vec![5, 3, 4, 1, 2]);
    assert_eq!(get_posts_for_offset(&indexes, 1, 10), vec![3, 4, 1, 2]);
}
