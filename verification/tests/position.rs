use std::mem::size_of;

use lseq::path::{compare, Rank, LEVEL0_END, MAX_LEVELS};
use lseq::{PathTooLong, Position};

#[test]
fn assumptions() {
    assert_eq!(size_of::<Position>(), 16);

    let first = Position::first();
    let last = Position::last();

    assert!(first < last);

    assert!(first.is_inline());
    assert!(last.is_inline());
}

#[test]
fn test_assumptions() {
    assert_eq!(size_of::<Position>(), 16);

    let first = Position::first();
    let last = Position::last();

    assert!(first < last);

    assert!(first.is_inline());
    assert!(last.is_inline());
}

#[test]
fn boundaries() {
    let keys = [1, 2, 3, 4];

    let position = Position::new(0, 0, &keys[0..3]).unwrap();
    assert!(position.is_inline());

    let position = Position::new(0, 0, &keys[0..4]).unwrap();
    assert!(position.is_heap());
}

#[test]
fn boundary_size() -> Result<(), PathTooLong> {
    let keys = [1, 2, 3, 4];

    let position = Position::new(0, 0, &keys[0..3])?;
    assert!(position.is_inline());

    let position = Position::new(0, 0, &keys[0..4])?;
    assert!(position.is_heap());
    Ok(())
}

#[test]
fn layout() {
    let valid = Position::new(0, 0, &[0xff]).unwrap();
    assert!(valid.is_inline());

    let invalid = Position::new(0, 0, &[0xffffffff]).unwrap();
    assert!(invalid.is_heap());

    assert!(Position::last().path()[0] < invalid.path()[0]);
}

#[test]
fn new_keeps_site_clock_and_digits() {
    let cases: Vec<(u16, u16, Vec<u32>)> = vec![
        (0, 0, vec![]),
        (1, 2, vec![7]),
        (65535, 65535, vec![1, 2, 3]),
        (9, 8, vec![0, 0, 5]),
        (3, 4, vec![1, 0, 2, 0, 3]),
        (5, 6, vec![0xffff_ffff, 1]),
        (7, 7, (1..=1000).collect()),
        (8, 8, vec![4; MAX_LEVELS]),
    ];
    for (site, clock, digits) in cases {
        let position = Position::new(site, clock, &digits).unwrap();
        assert_eq!(position.site_id(), site);
        assert_eq!(position.clock(), clock);
        assert_eq!(position.path(), &digits[..]);
        assert_eq!(position.level(), digits.len());
    }
}

#[test]
fn new_refuses_long_paths() {
    let digits = vec![1u32; MAX_LEVELS + 1];
    assert_eq!(Position::new(0, 0, &digits).err(), Some(PathTooLong(65536)));
    let digits = vec![1u32; MAX_LEVELS + 10];
    assert_eq!(Position::new(3, 4, &digits).err(), Some(PathTooLong(65545)));
    assert!(Position::new(0, 0, &digits[..MAX_LEVELS]).is_ok());
}

#[test]
fn clone_is_equal_and_independent() {
    let short = Position::new(3, 9, &[1, 2]).unwrap();
    let long = Position::new(4, 1, &[1, 2, 3, 4, 5, 6]).unwrap();
    let short_copy = short.clone();
    let long_copy = long.clone();
    assert!(short_copy == short);
    assert!(long_copy == long);
    drop(short);
    drop(long);
    assert_eq!(short_copy.path(), &[1, 2]);
    assert_eq!(long_copy.path(), &[1, 2, 3, 4, 5, 6]);
    assert_eq!(long_copy.site_id(), 4);
}

#[test]
fn sentinels() {
    let first = Position::first();
    let last = Position::last();
    assert_eq!(first.path(), &[] as &[u32]);
    assert_eq!(last.path(), &[LEVEL0_END]);
    assert_eq!(LEVEL0_END, 0xFFFF_FFFE);
    assert_eq!((first.site_id(), first.clock()), (0, 0));
    assert_eq!((last.site_id(), last.clock()), (0, 0));
    assert!(last > first);
    assert!(first != last);
}

#[test]
fn order_is_by_path_then_site_then_clock() {
    let p = |site: u16, clock: u16, digits: &[u32]| Position::new(site, clock, digits).unwrap();
    assert!(p(9, 9, &[1]) < p(0, 0, &[2]));
    assert!(p(9, 9, &[1]) < p(0, 0, &[1, 0]));
    assert!(p(0, 9, &[1]) < p(1, 0, &[1]));
    assert!(p(1, 0, &[1]) < p(1, 1, &[1]));
    assert!(p(1, 1, &[1]) == p(1, 1, &[1]));
    assert!(p(1, 1, &[1]) != p(1, 2, &[1]));
    assert!(p(1, 1, &[1, 2]) > p(1, 1, &[1, 1, 9]));
    assert_eq!(p(1, 1, &[3]).rank(&p(1, 1, &[3])), Rank::Same);
    assert_eq!(p(1, 1, &[3]).rank(&p(1, 1, &[4])), Rank::Before);
    assert_eq!(p(2, 1, &[3]).rank(&p(1, 1, &[3])), Rank::After);
    assert_eq!(p(1, 1, &[3]).cmp(&p(1, 2, &[3])), std::cmp::Ordering::Less);
    assert_eq!(p(0, 1, &[3, 1]).cmp(&p(5, 0, &[3])), std::cmp::Ordering::Greater);
}

#[test]
fn paths_compare_lexicographically() {
    assert_eq!(compare(&[], &[]), Rank::Same);
    assert_eq!(compare(&[], &[0]), Rank::Before);
    assert_eq!(compare(&[1, 2], &[1, 2, 0]), Rank::Before);
    assert_eq!(compare(&[1, 3], &[1, 2, 9]), Rank::After);
    assert_eq!(compare(&[5], &[5]), Rank::Same);
    assert_eq!(compare(&[0xffff_ffff], &[0]), Rank::After);
}

#[test]
fn end_bounds() {
    assert_eq!(Position::level_one_end_bound(), 0xFFFF_FFFE);
    assert_eq!(Position::end_bound(0), 0xFFFF_FFFE);
    assert_eq!(Position::end_bound(1), 0xFFFF_FFFF);
    assert_eq!(Position::end_bound(65535), 0xFFFF_FFFF);
}
