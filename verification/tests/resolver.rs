use feed::idx::Index;
use feed::query::{get_posts_for_offset, offset_to_day, LEEWAY};
use feed::reader::MergeReader;

const DAY: usize = 86400;

fn one_post_a_day(days: usize) -> Index {
    let mut index = Index::new(1);
    for d in 0..days {
        index.add((d * DAY, d));
    }
    index
}

#[test]
fn leeway_is_128() {
    assert_eq!(LEEWAY, 128);
}

#[test]
fn small_offsets_start_above_every_post() {
    let a = one_post_a_day(300);
    let b = Index::new(7);
    let indexes = vec![&a, &b];
    assert_eq!(offset_to_day(&indexes, 0), (300, 0));
    assert_eq!(offset_to_day(&indexes, 128), (300, 0));
    let none: Vec<&Index> = Vec::new();
    assert_eq!(offset_to_day(&none, 5000), (0, 0));
    let empty = Index::new(0);
    assert_eq!(offset_to_day(&vec![&empty], 5000), (0, 0));
}

#[test]
fn search_returns_the_first_day_it_probes_within_the_leeway() {
    let a = one_post_a_day(300);
    let indexes = vec![&a];
    // after day m come 299 - m posts; the first probe is day 150
    assert_eq!(offset_to_day(&indexes, 200), (150, 149));
    assert_eq!(offset_to_day(&indexes, 149), (150, 149));
    assert_eq!(offset_to_day(&indexes, 277), (150, 149));
    // 278 is out of the leeway of day 150: the search goes down to day 75
    assert_eq!(offset_to_day(&indexes, 278), (75, 224));
    // 129 is below what comes after day 150: the search goes up to day 225
    assert_eq!(offset_to_day(&indexes, 129), (225, 74));
}

#[test]
fn search_ends_at_the_first_day_with_few_enough_posts_after_it() {
    let mut a = Index::new(1);
    for i in 0..1000usize {
        a.add((i, i));
    }
    let indexes = vec![&a];
    assert_eq!(offset_to_day(&indexes, 500), (0, 0));
    let page = get_posts_for_offset(&indexes, 500, 3);
    assert_eq!(page, vec![499, 498, 497]);

    let mut b = Index::new(1);
    for i in 0..400usize {
        b.add((i, i));
    }
    for i in 400..1000usize {
        b.add((3 * DAY + i, i));
    }
    let indexes = vec![&b];
    // after days 0, 1 and 2 come 600 posts, after day 3 none
    assert_eq!(offset_to_day(&indexes, 300), (3, 0));
    assert_eq!(offset_to_day(&indexes, 650), (2, 600));
    assert_eq!(offset_to_day(&indexes, 900), (0, 600));
    assert_eq!(get_posts_for_offset(&indexes, 650, 2), vec![349, 348]);
    assert_eq!(get_posts_for_offset(&indexes, 300, 2), vec![699, 698]);
}

#[test]
fn pages_at_the_edges_of_the_leeway_agree_with_the_sorted_posts() {
    let mut indexes = Vec::new();
    for _ in 0..3 {
        indexes.push(Index::new(1));
    }
    let mut all = Vec::new();
    let mut x: usize = 7;
    for id in 0..600usize {
        x = (x * 1103515245 + 12345) % 2147483648;
        let post = ((x % 40) * DAY + id % 50, id);
        indexes[x % 3].add(post);
        all.push(post);
    }
    all.sort();
    all.reverse();
    let refs = indexes.iter().collect::<Vec<_>>();
    for offset in vec![0usize, 1, 127, 128, 129, 130, 255, 256, 257, 599, 600, 601] {
        for limit in vec![0usize, 1, 10, 700] {
            let expected = all
                .iter()
                .skip(offset)
                .take(limit)
                .map(|p| p.1)
                .collect::<Vec<_>>();
            assert_eq!(get_posts_for_offset(&refs, offset, limit), expected);
        }
    }
}

#[test]
fn page_of_one_is_an_entry_of_the_whole_feed() {
    let mut a = Index::new(1);
    let mut b = Index::new(1);
    for i in 0..200usize {
        a.add(((i % 9) * DAY + i, 2 * i));
        b.add(((i % 6) * DAY + i, 2 * i + 1));
    }
    let refs = vec![&a, &b];
    let whole = get_posts_for_offset(&refs, 0, 400);
    assert_eq!(whole.len(), 400);
    for k in 0..400usize {
        assert_eq!(get_posts_for_offset(&refs, k, 1), vec![whole[k]]);
    }
    assert_eq!(get_posts_for_offset(&refs, 400, 1), Vec::<usize>::new());
}

#[test]
fn a_source_listed_twice_shows_its_posts_twice() {
    let mut a = Index::new(1);
    a.add((10, 1));
    a.add((20, 2));
    let mut b = Index::new(1);
    b.add((20, 2));
    b.add((15, 3));
    assert_eq!(get_posts_for_offset(&vec![&a, &a], 0, 10), vec![2, 2, 1, 1]);
    assert_eq!(get_posts_for_offset(&vec![&a, &b], 0, 10), vec![2, 2, 3, 1]);
    assert_eq!(get_posts_for_offset(&vec![&a, &b], 1, 2), vec![2, 3]);
}

#[test]
fn reader_yields_the_posts_through_a_day_newest_first() {
    let mut a = Index::new(1);
    let mut b = Index::new(1);
    a.add((5, 1));
    a.add((DAY + 5, 2));
    a.add((2 * DAY, 3));
    b.add((6, 4));
    b.add((DAY + 5, 5));
    b.add((7 * DAY, 6));
    let refs = vec![&a, &b];

    let mut reader = MergeReader::start(&refs, 1);
    assert_eq!(reader.next_post(), Some((DAY + 5, 5)));
    assert_eq!(reader.next_post(), Some((DAY + 5, 2)));
    assert_eq!(reader.next_post(), Some((6, 4)));
    assert_eq!(reader.next_post(), Some((5, 1)));
    assert_eq!(reader.next_post(), None);
    assert_eq!(reader.next_post(), None);

    let mut reader = MergeReader::start(&refs, 0);
    assert_eq!(reader.stream(1, 5), vec![1]);
    assert_eq!(reader.next_post(), None);

    let mut reader = MergeReader::start(&refs, 100);
    assert_eq!(reader.stream(0, 2), vec![6, 3]);
    assert_eq!(reader.stream(1, 2), vec![2, 4]);
    assert_eq!(reader.stream(0, 9), vec![1]);
    assert_eq!(reader.stream(3, 9), Vec::<usize>::new());
}

#[test]
fn reader_from_the_last_day_there_can_be_yields_everything() {
    let mut a = Index::new(1);
    a.add((5, 1));
    a.add((4 * DAY, 2));
    let refs = vec![&a];
    let mut reader = MergeReader::start(&refs, usize::MAX);
    assert_eq!(reader.stream(0, 10), vec![2, 1]);
    let mut reader = MergeReader::start(&refs, usize::MAX / DAY);
    assert_eq!(reader.stream(0, 10), vec![2, 1]);
    let mut reader = MergeReader::start(&refs, usize::MAX / DAY - 1);
    assert_eq!(reader.stream(0, 10), vec![2, 1]);
}

#[test]
fn skipping_to_the_end_yields_nothing() {
    let mut a = Index::new(1);
    a.add((5, 1));
    let refs = vec![&a];
    let mut reader = MergeReader::start(&refs, 0);
    assert_eq!(reader.stream(usize::MAX, usize::MAX), Vec::<usize>::new());
    assert_eq!(get_posts_for_offset(&refs, usize::MAX, usize::MAX), Vec::<usize>::new());
    assert_eq!(get_posts_for_offset(&refs, 0, usize::MAX), vec![1]);
}
