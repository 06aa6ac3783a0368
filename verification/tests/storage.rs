use lseq::bulk::level_zero_count;
use lseq::path::{LEVEL0_END, MAX_LEVELS};
use lseq::{Bound, Operation, PathTooLong, Position, Span, Storage, Strategy, StringTooLarge};

fn paths(storage: &Storage) -> Vec<Vec<u32>> {
    storage
        .characters(&Span::all())
        .iter()
        .map(|(position, _)| position.path().to_vec())
        .collect()
}

#[test]
fn invalid_insert_position() {
    let mut storage = Storage::with_strategy(Strategy::Boundary);

    // inserting before `Position::first()` always fails
    assert_eq!(storage.insert('d', &Position::first()), false);

    let str = "abc";
    storage.extend(str).unwrap();

    // Note, that even with a gap between keys…
    let pos = Position::new(0, storage.clock(), &[5]).unwrap();
    assert!(storage.insert_at(pos, 'e'));

    // attempting to insert before a non-existent key fails…
    let pos = Position::new(0, storage.clock(), &[4]).unwrap();
    assert_eq!(storage.insert('d', &pos), false);

    // while using the appropriate key works.
    let pos = Position::new(0, storage.clock(), &[5]).unwrap();
    assert_eq!(storage.insert('d', &pos), true);

    let string = storage.string(&Span::all());
    assert_eq!(string, "abcde");
}

#[test]
fn exhausting_level_zero() {
    let mut storage = Storage::with_strategy(Strategy::Boundary);

    // place a letter near the end of level zero
    let pos = Position::new(0, 0, &[LEVEL0_END - 2]).unwrap();
    assert!(storage.insert_at(pos, '0'));

    // now add more characters than fit in the remaining space
    let string = "abcdef";
    storage.extend(string).unwrap();

    assert_eq!(storage.string(&Span::all()), "0abcdef");
    let all = paths(&storage);
    assert_eq!(all[0], vec![LEVEL0_END - 2]);
    assert_eq!(all[1], vec![LEVEL0_END - 1]);
    assert_eq!(all[2], vec![LEVEL0_END - 1, 1]);
    assert_eq!(all[6], vec![LEVEL0_END - 1, 5]);
    for pair in all.windows(2) {
        assert!(pair[0] < pair[1]);
    }
}

#[test]
fn new_store_holds_the_sentinels() {
    let storage = Storage::default();
    assert_eq!(storage.len(), 2);
    assert_eq!(storage.string(&Span::all()), "");
    assert_eq!(storage.characters(&Span::all()).len(), 0);
    let both = Span::new(
        Bound::Included(Position::first()),
        Bound::Included(Position::last()),
    );
    assert_eq!(storage.string(&both), "\u{2402}\u{2403}");
    let shown = storage.characters(&both);
    assert!(shown[0].0 == Position::first());
    assert!(shown[1].0 == Position::last());
    assert_eq!((storage.site_id(), storage.clock()), (0, 0));
}

#[test]
fn sparse_round_trips() {
    for text in ["", "a", "abc", "hello\nworld\n", "žluťoučký kůň 👧🏽", "\n\n\n"] {
        let storage = Storage::sparse(text).unwrap();
        assert_eq!(storage.string(&Span::all()), text);
        assert_eq!(storage.len(), text.chars().count() + 2);
    }
}

#[test]
fn sparse_abc() {
    let storage = Storage::sparse("abc").unwrap();
    assert_eq!(storage.string(&Span::all()), "abc");
    let shown = storage.characters(&Span::all());
    assert_eq!(shown.len(), 3);
    let first = Position::first();
    let last = Position::last();
    for (position, _) in shown.iter() {
        assert!(first < *position && *position < last);
        assert_eq!(position.level(), 1);
        assert_eq!((position.site_id(), position.clock()), (0, 0));
        assert!(position.is_inline());
    }
    assert!(shown[0].0.path() < shown[1].0.path());
    assert!(shown[1].0.path() < shown[2].0.path());
    // three equal shares of the digits 1 .. LEVEL0_END
    let share = (LEVEL0_END - 1) / 3;
    for (i, (position, _)) in shown.iter().enumerate() {
        let digit = position.path()[0];
        assert!(1 + (i as u32) * share <= digit && digit < 1 + (i as u32 + 1) * share);
    }
}

#[test]
fn insert_between_neighbours() {
    let mut storage = Storage::sparse("ac").unwrap();
    let c_pos = storage.characters(&Span::all())[1].0.clone();
    assert_eq!(storage.insert('b', &c_pos), true);
    assert_eq!(storage.string(&Span::all()), "abc");
    assert_eq!(storage.clock(), 1);
    let shown = storage.characters(&Span::all());
    assert_eq!(shown[1].0.clock(), 1);
    assert_eq!(shown[1].0.site_id(), 0);
    assert!(shown[0].0 < shown[1].0 && shown[1].0 < shown[2].0);
}

#[test]
fn insert_before_last_sentinel() {
    let mut storage = Storage::with_strategy(Strategy::Boundary);
    assert!(storage.insert('a', &Position::last()));
    assert!(storage.insert('b', &Position::last()));
    assert_eq!(storage.string(&Span::all()), "ab");
    assert_eq!(paths(&storage), vec![vec![1], vec![2]]);
}

#[test]
fn insert_refuses_without_anchor() {
    let mut storage = Storage::sparse("abc").unwrap();
    let absent = Position::new(7, 7, &[5, 5]).unwrap();
    assert_eq!(storage.insert('x', &absent), false);
    assert_eq!(storage.insert('x', &Position::first()), false);
    assert_eq!(storage.string(&Span::all()), "abc");
    assert_eq!(storage.clock(), 0);
    assert_eq!(storage.len(), 5);
}

#[test]
fn insert_at_refuses_taken_and_outside_positions() {
    let mut storage = Storage::default();
    let pos = Position::new(1, 1, &[10]).unwrap();
    assert!(storage.insert_at(pos.clone(), 'a'));
    assert!(!storage.insert_at(pos.clone(), 'b'));
    assert!(!storage.insert_at(Position::first(), 'c'));
    assert!(!storage.insert_at(Position::last(), 'c'));
    assert!(!storage.insert_at(Position::new(0, 1, &[LEVEL0_END]).unwrap(), 'c'));
    assert!(!storage.insert_at(Position::new(0, 0, &[0xffff_ffff]).unwrap(), 'c'));
    assert!(storage.insert_at(Position::new(0, 1, &[]).unwrap(), 'z'));
    assert_eq!(storage.string(&Span::all()), "za");
}

#[test]
fn remove_returns_the_character_once() {
    let mut storage = Storage::sparse("abc").unwrap();
    let b_pos = storage.characters(&Span::all())[1].0.clone();
    assert_eq!(storage.remove(&b_pos), Some('b'));
    assert_eq!(storage.string(&Span::all()), "ac");
    assert_eq!(storage.remove(&b_pos), None);
    assert_eq!(storage.string(&Span::all()), "ac");
}

#[test]
fn insert_then_remove() {
    let mut storage = Storage::sparse("ab").unwrap();
    let b_pos = storage.characters(&Span::all())[1].0.clone();
    assert!(storage.insert('x', &b_pos));
    let x_pos = storage.characters(&Span::all())[1].0.clone();
    assert_eq!(storage.remove(&x_pos), Some('x'));
    assert_eq!(storage.remove(&x_pos), None);
    assert_eq!(storage.string(&Span::all()), "ab");
}

#[test]
fn sentinels_cannot_be_removed() {
    let mut storage = Storage::sparse("a").unwrap();
    assert_eq!(storage.remove(&Position::first()), None);
    assert_eq!(storage.remove(&Position::last()), None);
    assert_eq!(storage.len(), 3);
    assert_eq!(storage.lines(&Span::all()).len(), 1);
}

#[test]
fn newline_index_follows_inserts_and_removes() {
    let mut storage = Storage::sparse("a\nb").unwrap();
    let lines = storage.lines(&Span::all());
    assert_eq!(lines.len(), 2);
    assert!(lines[0].0 == Position::first());
    assert!(lines[1].1 == Position::last());
    assert!(lines[0].1 == lines[1].0);
    let nl = lines[0].1.clone();
    let b_pos = storage.characters(&Span::all())[2].0.clone();
    assert!(storage.insert('\n', &b_pos));
    assert_eq!(storage.lines(&Span::all()).len(), 3);
    assert!(storage.insert('x', &b_pos));
    assert_eq!(storage.lines(&Span::all()).len(), 3);
    assert_eq!(storage.remove(&nl), Some('\n'));
    assert_eq!(storage.lines(&Span::all()).len(), 2);
    assert_eq!(storage.remove(&b_pos), Some('b'));
    assert_eq!(storage.lines(&Span::all()).len(), 2);
    assert_eq!(storage.string(&Span::all()), "a\nx");
}

#[test]
fn dense_paths() {
    let storage = Storage::dense("abcd").unwrap();
    assert_eq!(paths(&storage), vec![vec![1], vec![2], vec![3], vec![4]]);
    assert_eq!(storage.string(&Span::all()), "abcd");
    assert_eq!(StringTooLarge, StringTooLarge);
}

#[test]
fn dense_leaves_no_room_at_level_zero() {
    let mut storage = Storage::dense("ab").unwrap();
    let b_pos = storage.characters(&Span::all())[1].0.clone();
    assert!(storage.insert('x', &b_pos));
    assert_eq!(storage.string(&Span::all()), "axb");
    let x_path = paths(&storage)[1].clone();
    assert_eq!(x_path.len(), 2);
    assert_eq!(x_path[0], 1);
    assert!(x_path[1] >= 1);
}

#[test]
fn extend_appends_with_one_clock() {
    let mut storage = Storage::with_strategy(Strategy::Boundary);
    storage.extend("ab").unwrap();
    storage.extend("cd\n").unwrap();
    assert_eq!(storage.string(&Span::all()), "abcd\n");
    assert_eq!(storage.clock(), 2);
    let shown = storage.characters(&Span::all());
    let clocks: Vec<u16> = shown.iter().map(|(position, _)| position.clock()).collect();
    assert_eq!(clocks, vec![1, 1, 2, 2, 2]);
    assert_eq!(paths(&storage), vec![vec![1], vec![2], vec![3], vec![4], vec![5]]);
    assert_eq!(storage.lines(&Span::all()).len(), 2);
}

#[test]
fn clock_wraps() {
    let mut storage = Storage::default();
    for _ in 0..65535 {
        storage.next_clock();
    }
    assert_eq!(storage.clock(), 65535);
    assert_eq!(storage.next_clock(), 0);
    assert_eq!(storage.clock(), 0);
}

#[test]
fn spans() {
    let storage = Storage::dense("abcde").unwrap();
    let shown = storage.characters(&Span::all());
    let b = shown[1].0.clone();
    let d = shown[3].0.clone();
    assert_eq!(storage.string(&Span::between(&b, &d)), "bc");
    assert_eq!(
        storage.string(&Span::new(Bound::Excluded(b.clone()), Bound::Included(d.clone()))),
        "cd"
    );
    assert_eq!(storage.string(&Span::new(Bound::Unbounded, Bound::Excluded(d.clone()))), "abc");
    assert_eq!(storage.string(&Span::new(Bound::Included(b.clone()), Bound::Unbounded)), "bcde");
    assert_eq!(storage.string(&Span::between(&d, &b)), "");
    assert_eq!(
        storage.string(&Span::new(Bound::Unbounded, Bound::Excluded(Position::first()))),
        ""
    );
    assert_eq!(
        storage.string(&Span::new(Bound::Included(Position::first()), Bound::Excluded(b))),
        "\u{2402}a"
    );
}

#[test]
fn replicas_converge() {
    let mut a = Storage::with_seed(1);
    a.set_site(0);
    let mut b = Storage::with_seed(2);
    b.set_site(1);
    assert!(a.insert('a', &Position::last()));
    assert!(b.insert('b', &Position::last()));
    let a_pos = a.characters(&Span::all())[0].0.clone();
    let b_pos = b.characters(&Span::all())[0].0.clone();
    assert!(a_pos != b_pos);
    assert!(a_pos < b_pos || b_pos < a_pos);

    let mut one = Storage::default();
    assert!(one.insert_at(a_pos.clone(), 'a'));
    assert!(one.insert_at(b_pos.clone(), 'b'));
    let mut other = Storage::default();
    assert!(other.insert_at(b_pos.clone(), 'b'));
    assert!(other.insert_at(a_pos.clone(), 'a'));
    assert_eq!(one.string(&Span::all()), other.string(&Span::all()));
    let expected = if a_pos < b_pos { "ab" } else { "ba" };
    assert_eq!(one.string(&Span::all()), expected);
}

#[test]
fn operations_commute() {
    let p = |site: u16, digits: &[u32]| Position::new(site, 1, digits).unwrap();
    let inserts = vec![
        (p(0, &[5]), 'a'),
        (p(1, &[5]), 'b'),
        (p(0, &[3, 7]), 'c'),
        (p(2, &[9]), '\n'),
        (p(0, &[3]), 'd'),
    ];
    let orders: Vec<Vec<usize>> = vec![
        vec![0, 1, 2, 3, 4],
        vec![4, 3, 2, 1, 0],
        vec![2, 0, 4, 1, 3],
        vec![3, 1, 4, 0, 2],
    ];
    let mut texts = Vec::new();
    for order in orders {
        let mut storage = Storage::default();
        for i in order {
            assert!(storage.insert_at(inserts[i].0.clone(), inserts[i].1));
        }
        assert_eq!(storage.lines(&Span::all()).len(), 2);
        texts.push(storage.string(&Span::all()));
    }
    assert_eq!(texts[0], "dcab\n");
    assert!(texts.iter().all(|text| *text == texts[0]));
}

#[test]
fn seeded_stores_repeat() {
    let mut one = Storage::with_seed(42);
    let mut two = Storage::with_seed(42);
    for ch in "hello".chars() {
        assert!(one.insert(ch, &Position::last()));
        assert!(two.insert(ch, &Position::last()));
    }
    assert_eq!(paths(&one), paths(&two));
    assert_eq!(one.string(&Span::all()), "hello");
}

#[test]
fn interleaving_anomaly() {
    let mut storage = Storage::with_strategy(Strategy::Boundary);

    let a = Position::new(0, 0, &[1]).unwrap();
    let c = Position::new(1, 0, &[1]).unwrap();

    assert!(storage.insert_at(a, 'a'));
    assert!(storage.insert_at(c.clone(), 'c'));

    // try to insert 'b' between a and c…
    assert_eq!(storage.insert('b', &c), true);

    // 'c' will be second, rather than third
    assert_eq!(storage.string(&Span::all()), "acb");
}

#[test]
fn texts_too_large_for_level_zero() {
    assert_eq!(level_zero_count(0), Ok(0));
    assert_eq!(level_zero_count(0xFFFF_FFFD), Ok(0xFFFF_FFFD));
    assert_eq!(level_zero_count(0xFFFF_FFFE), Err(StringTooLarge));
    assert_eq!(level_zero_count(0xFFFF_FFFF), Err(StringTooLarge));
    assert_eq!(level_zero_count(usize::MAX), Err(StringTooLarge));
}

#[test]
fn paths_that_grow_too_long_are_refused() {
    let mut digits = vec![0xffff_ffffu32; MAX_LEVELS];
    digits[0] = LEVEL0_END - 1;
    let deepest = Position::new(3, 3, &digits).unwrap();
    let mut storage = Storage::with_strategy(Strategy::Boundary);
    assert!(storage.insert_at(deepest, 'x'));
    assert_eq!(storage.extend("ab"), Err(PathTooLong(65536)));
    assert_eq!(storage.insert('a', &Position::last()), false);
    assert_eq!(storage.string(&Span::all()), "x");
    assert_eq!(storage.clock(), 0);
    assert_eq!(storage.extend(""), Ok(()));
    assert_eq!(storage.clock(), 1);
}

#[test]
fn merge_takes_in_what_is_free() {
    let p = |site: u16, digits: &[u32]| Position::new(site, 1, digits).unwrap();
    let mut storage = Storage::dense("ab").unwrap();
    let entries = vec![
        (p(1, &[1, 5]), 'x'),
        (p(1, &[1, 5]), 'y'),
        (Position::last(), 'z'),
        (p(2, &[0]), 'w'),
        (p(0, &[LEVEL0_END, 1]), 'v'),
    ];
    assert_eq!(storage.merge(&entries), 2);
    assert_eq!(storage.string(&Span::all()), "waxb");
    assert_eq!(storage.len(), 6);
}

#[test]
fn search_finds_the_place() {
    let storage = Storage::dense("abc").unwrap();
    let at = |digits: &[u32]| Position::new(0, 0, digits).unwrap();
    assert_eq!(storage.search(&Position::first()), (0, true));
    assert_eq!(storage.search(&at(&[1])), (1, true));
    assert_eq!(storage.search(&at(&[2, 5])), (3, false));
    assert_eq!(storage.search(&at(&[3])), (3, true));
    assert_eq!(storage.search(&Position::new(1, 0, &[3]).unwrap()), (4, false));
    assert_eq!(storage.search(&Position::last()), (4, true));
    assert_eq!(storage.search(&at(&[0xffff_ffff])), (5, false));
}

#[test]
fn span_covers() {
    let at = |digits: &[u32]| Position::new(0, 0, digits).unwrap();
    let span = Span::between(&at(&[2]), &at(&[5]));
    assert!(!span.covers(&at(&[1])));
    assert!(span.covers(&at(&[2])));
    assert!(span.covers(&at(&[4, 9])));
    assert!(!span.covers(&at(&[5])));
    assert!(Span::all().covers(&Position::first()));
    assert!(Span::all().open_start() && Span::all().open_end());
    assert!(!span.open_start() && !span.open_end());
    let closed = Span::new(Bound::Excluded(at(&[2])), Bound::Included(at(&[5])));
    assert!(!closed.covers(&at(&[2])));
    assert!(closed.covers(&at(&[5])));
}

#[test]
fn from_text_keeps_the_clock() {
    let storage = Storage::from("a\nbc").unwrap();
    assert_eq!(storage.string(&Span::all()), "a\nbc");
    assert_eq!(storage.clock(), 0);
    assert_eq!(storage.site_id(), 0);
    assert_eq!(storage.len(), 6);
    assert_eq!(storage.lines(&Span::all()).len(), 2);
    let shown = storage.characters(&Span::all());
    for (position, _) in shown.iter() {
        assert_eq!((position.site_id(), position.clock()), (0, 0));
    }
    for pair in shown.windows(2) {
        assert!(pair[0].0 < pair[1].0);
    }
    assert_eq!(Storage::from("").unwrap().len(), 2);
}

#[test]
fn operations_in_any_order() {
    let p = |site: u16, digits: &[u32]| Position::new(site, 1, digits).unwrap();
    let start = Storage::dense("abcd").unwrap();
    let held = start.characters(&Span::all());
    let operations = |order: &[usize]| -> Vec<Operation> {
        let all = vec![
            Operation::Insert(p(1, &[2, 5]), 'x'),
            Operation::Remove(held[0].0.clone()),
            Operation::Insert(p(2, &[3, 1]), '\n'),
            Operation::Remove(held[3].0.clone()),
            Operation::Remove(p(9, &[7, 7])),
            Operation::Remove(Position::last()),
            Operation::Insert(Position::first(), 'y'),
            Operation::Insert(p(3, &[0, 9]), 'z'),
        ];
        let mut all: Vec<Option<Operation>> = all.into_iter().map(Some).collect();
        order.iter().map(|i| all[*i].take().unwrap()).collect()
    };
    let orders: [[usize; 8]; 4] = [
        [0, 1, 2, 3, 4, 5, 6, 7],
        [7, 6, 5, 4, 3, 2, 1, 0],
        [3, 0, 6, 2, 7, 1, 5, 4],
        [5, 2, 7, 0, 4, 6, 3, 1],
    ];
    for order in orders.iter() {
        let mut storage = Storage::dense("abcd").unwrap();
        assert_eq!(storage.apply(&operations(order)), 5);
        assert_eq!(storage.string(&Span::all()), "zbxc\n");
        assert_eq!(storage.lines(&Span::all()).len(), 2);
        assert_eq!(storage.len(), 7);
    }
}

#[test]
fn an_insert_and_a_removal_of_one_position_do_not_commute() {
    let at = Position::new(1, 1, &[5]).unwrap();
    let mut one = Storage::default();
    one.apply(&vec![Operation::Insert(at.clone(), 'a'), Operation::Remove(at.clone())]);
    let mut other = Storage::default();
    other.apply(&vec![Operation::Remove(at.clone()), Operation::Insert(at.clone(), 'a')]);
    assert_eq!(one.string(&Span::all()), "");
    assert_eq!(other.string(&Span::all()), "a");
}

#[test]
fn seeded_stores_repeat_all_calls() {
    let run = |seed: u64| -> (Vec<Vec<u32>>, String, u16) {
        let mut storage = Storage::with_seed(seed);
        storage.extend("hello world").unwrap();
        let anchor = storage.characters(&Span::all())[5].0.clone();
        assert!(storage.insert(',', &anchor));
        assert_eq!(storage.remove(&anchor), Some(' '));
        assert!(storage.insert('\n', &Position::last()));
        storage.extend("again").unwrap();
        (paths(&storage), storage.string(&Span::all()), storage.clock())
    };
    assert_eq!(run(9), run(9));
    assert_eq!(run(9).1, "hello,world\nagain");
    assert_ne!(run(9).0, run(10).0);
}
