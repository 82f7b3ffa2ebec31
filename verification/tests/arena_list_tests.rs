use piecer::tokenizer::arena_list::ArenaList;
use piecer::Token;

#[test]
fn arena_links_follow_the_list() {
    let mut al: ArenaList<Token> = ArenaList::from_iter(&[1, 2, 3, 4]);
    assert_eq!(al.raw_pairs(), vec![(1, 2), (2, 3), (3, 4)]);
    assert_eq!(al.pair_at(0), Some((1, 2)));
    assert_eq!(al.prev_pair_pos(0), None);
    assert_eq!(al.prev_pair_pos(1), Some(((1, 2), 0)));
    assert_eq!(al.next_pair_pos(0), Some(((2, 3), 1)));
    assert_eq!(al.next_pair_pos(2), None);
    assert!(al.drop(1));
    assert_eq!(al.prev_pair_pos(1), None);
    assert_eq!(al.next_pair_pos(1), None);
    assert_eq!(al.pair_at(1), None);
    assert_eq!(al.pair_at(0), Some((1, 3)));
    assert_eq!(al.prev_pair_pos(2), Some(((1, 3), 0)));
    assert_eq!(al.next_pair_pos(0), Some(((3, 4), 2)));
    assert!(!al.drop(4));
}

#[test]
fn arena_second_drop_changes_nothing() {
    let mut al: ArenaList<Token> = ArenaList::from_iter(&[5, 6, 7]);
    assert!(al.drop(1));
    assert!(al.drop(1));
    assert_eq!(al.pair_at(0), Some((5, 7)));
    assert_eq!(al.prev_pair_pos(2), Some(((5, 7), 0)));
    assert_eq!(al.prev_pair_pos(1), None);
}

#[test]
fn arena_fuse_into_merges_a_pair() {
    let mut al: ArenaList<Token> = ArenaList::from_iter(&[1, 2, 3, 4]);
    let (before, after) = al.fuse_into(1, 9);
    assert_eq!(before, Some(((1, 9), 0)));
    assert_eq!(after, Some(((9, 4), 1)));
    assert_eq!(al.prev_pair_pos(2), None);
    assert_eq!(al.next_pair_pos(0), Some(((9, 4), 1)));
}
