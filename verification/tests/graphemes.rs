use lseq::graphemes::{cluster_length, count_chars, cut_front, utf8_len};
use lseq::{Span, Storage, Strategy};
use unicode_segmentation::UnicodeSegmentation;

#[test]
fn grapheme_segmentation() {
    let string = "👧👧🏻👧🏼👧🏽👧🏾👧🏿";
    assert_eq!(string.len(), 44); // 44 utf-8 bytes

    let mut storage = Storage::with_strategy(Strategy::Boundary);
    storage.extend(string).unwrap();

    assert_eq!(storage.string(&Span::all()), string);
    assert_eq!(storage.graphemes(&Span::all()).len(), 6);

    let ours: Vec<String> = storage
        .graphemes(&Span::all())
        .iter()
        .map(|(start, stop)| storage.string(&Span::between(start, stop)))
        .collect();

    let theirs: Vec<String> =
        string.grapheme_indices(true).map(|(_, str)| str.to_owned()).collect();

    assert_eq!(theirs, ours);
}

#[test]
fn graphemes_of_plain_text() {
    let storage = Storage::dense("ab\r\nc").unwrap();
    let clusters = storage.graphemes(&Span::all());
    let texts: Vec<String> = clusters
        .iter()
        .map(|(start, stop)| storage.string(&Span::between(start, stop)))
        .collect();
    assert_eq!(texts, vec!["a", "b", "\r\n", "c"]);
    assert!(clusters[3].1 == lseq::Position::last());
    assert!(Storage::default().graphemes(&Span::all()).is_empty());
}

#[test]
fn utf8_lengths() {
    for ch in ['a', '\u{7f}', '\u{80}', 'é', '\u{7ff}', '\u{800}', '€', '\u{ffff}', '\u{10000}', '👧'] {
        assert_eq!(utf8_len(ch), ch.len_utf8());
    }
}

#[test]
fn counting_characters_by_bytes() {
    let text: Vec<char> = "aé€👧z".chars().collect();
    assert_eq!(count_chars(&text, 0), 0);
    assert_eq!(count_chars(&text, 1), 1);
    assert_eq!(count_chars(&text, 2), 2);
    assert_eq!(count_chars(&text, 3), 2);
    assert_eq!(count_chars(&text, 6), 3);
    assert_eq!(count_chars(&text, 10), 4);
    assert_eq!(count_chars(&text, 11), 5);
    assert_eq!(count_chars(&text, 100), 5);
}

#[test]
fn cutting_the_first_cluster() {
    let buffer: Vec<char> = "e\u{301}x".chars().collect();
    assert_eq!(cluster_length(&buffer, &vec![0, 3]), Some(2));
    assert_eq!(cluster_length(&buffer, &vec![0]), None);
    assert_eq!(cluster_length(&buffer, &vec![]), None);
    assert_eq!(cluster_length(&buffer, &vec![0, 1, 3]), Some(1));
    assert_eq!(cut_front(&buffer, 2), vec!['x']);
    assert_eq!(cut_front(&buffer, 0), buffer);
    assert_eq!(cut_front(&buffer, 3), Vec::<char>::new());
}
