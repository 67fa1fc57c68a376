use tsahdu::language::{
    clean_phrase_of_law, phrase_fabric, segment_phrase, segment_phrase_with_index, validate_phrase,
    Phrase, TextOfLawValidation, WindowConfig,
};
use tsahdu::laws::{LawBook, LawIndex};
use tsahdu::utils::{atoi, overlaping_chunks, substring};

fn cfg(min: usize, max: usize, overlap: usize) -> WindowConfig {
    WindowConfig { minimum_window_size: min, maximum_window_size: max, window_retrocede: overlap }
}

fn words(n: usize) -> String {
    (1..=n).map(|i| format!("w{}", i)).collect::<Vec<_>>().join(" ")
}

#[test]
fn chunks_of_five_by_four_with_two() {
    let r = overlaping_chunks(&vec![5, 4, 3, 2, 1], 4, 2);
    assert_eq!(r, vec![vec![5, 4, 3, 2], vec![3, 2, 1]]);
}

#[test]
fn chunks_of_empty_input() {
    let r: Vec<Vec<u8>> = overlaping_chunks(&Vec::new(), 3, 1);
    assert_eq!(r, vec![Vec::<u8>::new()]);
}

#[test]
fn chunks_without_overlap() {
    let r = overlaping_chunks(&vec![1, 2, 3, 4, 5, 6, 7], 3, 0);
    assert_eq!(r, vec![vec![1, 2, 3], vec![4, 5, 6], vec![7]]);
}

#[test]
fn chunks_cover_every_element_and_share_overlap() {
    let input: Vec<u32> = (0..23).collect();
    let (c, o) = (6usize, 2usize);
    let r = overlaping_chunks(&input, c, o);
    for p in 0..input.len() {
        let covering = (0..r.len())
            .filter(|&k| k * (c - o) <= p && p < k * (c - o) + r[k].len())
            .count();
        assert!(covering >= 1);
        let k = p / (c - o);
        if k < r.len() && p >= k * (c - o) + o && p < k * (c - o) + c - o {
            assert_eq!(covering, 1);
        }
    }
    for k in 0..r.len() - 1 {
        assert_eq!(r[k].len(), c);
        assert_eq!(r[k][c - o..], r[k + 1][..o]);
    }
}

#[test]
fn atoi_keeps_digits_only() {
    assert_eq!(atoi("789waka123"), Some(789123));
    assert_eq!(atoi("Articulo 12."), Some(12));
    assert_eq!(atoi("sin numero"), None);
    assert_eq!(atoi("99999999999999999999999"), None);
}

#[test]
fn substring_by_characters() {
    let cs: Vec<char> = "artículo".chars().collect();
    assert_eq!(substring(&cs, 3, 6), "ícu");
}

#[test]
fn validate_short_proper_long() {
    let c = cfg(3, 5, 1);
    assert_eq!(validate_phrase(&phrase_fabric(String::new()), &c), TextOfLawValidation::Short);
    assert_eq!(validate_phrase(&phrase_fabric(words(2)), &c), TextOfLawValidation::Short);
    assert_eq!(validate_phrase(&phrase_fabric(words(3)), &c), TextOfLawValidation::Proper);
    assert_eq!(validate_phrase(&phrase_fabric(words(5)), &c), TextOfLawValidation::Proper);
    assert_eq!(validate_phrase(&phrase_fabric(words(6)), &c), TextOfLawValidation::Long);
}

#[test]
fn validate_counts_whitespace_separated_words() {
    let c = cfg(3, 3, 0);
    let p = phrase_fabric("  uno\tdos \n tres  ".to_string());
    assert_eq!(validate_phrase(&p, &c), TextOfLawValidation::Proper);
    let empty_min = cfg(0, 3, 0);
    assert_eq!(validate_phrase(&phrase_fabric("   ".to_string()), &empty_min), TextOfLawValidation::Short);
}

#[test]
fn clean_collapses_and_trims() {
    let p = clean_phrase_of_law(&phrase_fabric("\n El  estado\nes   social \u{a0}".to_string()));
    assert_eq!(p.text, "El estado es social");
}

#[test]
fn clean_collapses_long_runs_of_spaces() {
    let p = clean_phrase_of_law(&phrase_fabric("  Hola\nmundo  ".to_string()));
    assert_eq!(p.text, "Hola mundo");
    let q = clean_phrase_of_law(&phrase_fabric("a     b \n\n c".to_string()));
    assert_eq!(q.text, "a b c");
}

#[test]
fn segment_short_is_empty() {
    assert!(segment_phrase(&phrase_fabric(words(1)), &cfg(2, 4, 1)).is_empty());
}

#[test]
fn segment_proper_is_itself() {
    let text = "uno  dos tres".to_string();
    let r = segment_phrase(&phrase_fabric(text.clone()), &cfg(2, 4, 1));
    assert_eq!(r.len(), 1);
    assert_eq!(r[0].text, text);
}

#[test]
fn segment_long_into_overlapping_windows() {
    let r = segment_phrase(&phrase_fabric(words(8)), &cfg(2, 4, 1));
    let texts: Vec<String> = r.into_iter().map(|p: Phrase| p.text).collect();
    assert_eq!(texts, vec!["w1 w2 w3 w4", "w4 w5 w6 w7", "w7 w8"]);
}

#[test]
fn segment_with_index_numbers_parts() {
    let book = LawBook::new("Colombia", "Constitucion");
    let mut index = LawIndex::of_book(&book);
    index.titulo = Some(1);
    index.articulo = Some(2);
    let units = segment_phrase_with_index(&phrase_fabric(words(6)), &index, &cfg(1, 4, 2)).unwrap();
    assert_eq!(units.len(), 2);
    assert_eq!(units[0].0.parte, Some(0));
    assert_eq!(units[1].0.parte, Some(1));
    assert_eq!(units[0].1.text, "w1 w2 w3 w4");
    assert_eq!(units[1].1.text, "w3 w4 w5 w6");
    assert_eq!(units[1].0.articulo, Some(2));
    let proper = segment_phrase_with_index(&phrase_fabric(words(3)), &index.with_parte(Some(9)), &cfg(1, 4, 2)).unwrap();
    assert_eq!(proper.len(), 1);
    assert_eq!(proper[0].0.parte, None);
}
