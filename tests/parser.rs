use tsahdu::catalogue::{catalogue_mech, title_vectors, CatalogueMemory, EmbeddingType};
use tsahdu::errors::LawError;
use tsahdu::language::{phrase_fabric, WindowConfig};
use tsahdu::laws::{
    advance_mark, index_law_text, interpret_law, mark_interrupt_articulo, mark_text_of_law, LawBook,
    LawIndex, LawMark, LawMarking, LawPatterns,
};

fn patterns() -> LawPatterns {
    LawPatterns {
        regex_titulo: r"Titulo \d+".to_string(),
        regex_capitulo: r"Capitulo \d+".to_string(),
        regex_articulo: r"Articulo \d+".to_string(),
    }
}

fn book() -> LawBook {
    LawBook::new("Colombia", "Constitucion")
}

#[test]
fn book_names_are_lower_cased() {
    let b = book();
    assert_eq!(b.pais, "colombia");
    assert_eq!(b.instrumento, "constitucion");
}

#[test]
fn advance_sets_the_field_of_the_mark() {
    let mut i = LawIndex::of_book(&book());
    advance_mark(&mut i, &LawMarking { kind: LawMark::Titulo, id: 2, start: 0, end: 1 });
    advance_mark(&mut i, &LawMarking { kind: LawMark::Articulo, id: 7, start: 2, end: 3 });
    assert_eq!(i.titulo, Some(2));
    assert_eq!(i.capitulo, None);
    assert_eq!(i.articulo, Some(7));
    assert_eq!(i.parte, None);
}

#[test]
fn marks_sorted_by_end_with_char_positions() {
    let text = phrase_fabric("Título ñ Titulo 1 Capitulo 2 Articulo 3 texto".to_string());
    let marks = mark_text_of_law(&text, &patterns()).unwrap();
    let kinds: Vec<LawMark> = marks.iter().map(|m| m.kind).collect();
    assert_eq!(kinds, vec![LawMark::Titulo, LawMark::Capitulo, LawMark::Articulo]);
    assert_eq!(marks[0].id, 1);
    assert_eq!((marks[0].start, marks[0].end), (9, 17));
    assert_eq!(marks[2].id, 3);
    assert_eq!((marks[2].start, marks[2].end), (29, 39));
}

#[test]
fn one_kind_of_mark_in_order() {
    let r = mark_interrupt_articulo(&patterns(), "Articulo 4 a Articulo 10 b").unwrap();
    let got: Vec<(u16, usize, usize)> = r.iter().map(|m| (m.id, m.start, m.end)).collect();
    assert_eq!(got, vec![(4, 0, 10), (10, 13, 24)]);
    assert!(r.iter().all(|m| m.kind == LawMark::Articulo));
    assert!(mark_interrupt_articulo(&patterns(), "nada").unwrap().is_empty());
}

#[test]
fn invalid_pattern_is_reported() {
    let mut p = patterns();
    p.regex_capitulo = "(".to_string();
    assert_eq!(mark_text_of_law(&phrase_fabric("x".to_string()), &p).unwrap_err(), LawError::InvalidPattern);
}

#[test]
fn mark_without_number_is_a_parse_error() {
    let mut p = patterns();
    p.regex_articulo = "Articulo [A-Z]+".to_string();
    let r = mark_interrupt_articulo(&p, "Articulo XIV dice");
    assert_eq!(r.unwrap_err(), LawError::ParseError);
}

#[test]
fn mark_number_too_large_is_a_parse_error() {
    let r = mark_interrupt_articulo(&patterns(), "Articulo 70000 dice");
    assert_eq!(r.unwrap_err(), LawError::ParseError);
}

#[test]
fn book_without_marks_cannot_be_indexed() {
    let cfg = WindowConfig { minimum_window_size: 1, maximum_window_size: 10, window_retrocede: 2 };
    let text = phrase_fabric("texto sin estructura".to_string());
    let r = interpret_law(&text, &Vec::new(), &book(), &cfg);
    assert_eq!(r.unwrap_err(), LawError::NoMarks);
    let r = index_law_text(&text, &patterns(), &book(), &cfg);
    assert_eq!(r.unwrap_err(), LawError::NoMarks);
}

#[test]
fn three_articles_under_one_title() {
    let cfg = WindowConfig { minimum_window_size: 1, maximum_window_size: 10, window_retrocede: 3 };
    let long: Vec<String> = (1..=14).map(|i| format!("p{}", i)).collect();
    let raw = format!(
        "Titulo 1\nArticulo 1 El estado es social.\nArticulo 2 {}\nArticulo 3 Fin del  texto.\n",
        long.join(" ")
    );
    let units = index_law_text(&phrase_fabric(raw), &patterns(), &book(), &cfg).unwrap();
    assert_eq!(units.len(), 4);
    let addresses: Vec<(Option<u16>, Option<u16>, Option<u16>)> =
        units.iter().map(|(i, _)| (i.titulo, i.articulo, i.parte)).collect();
    assert_eq!(
        addresses,
        vec![
            (Some(1), Some(1), None),
            (Some(1), Some(2), Some(0)),
            (Some(1), Some(2), Some(1)),
            (Some(1), Some(3), None),
        ]
    );
    assert_eq!(units[0].1.text, "El estado es social.");
    assert_eq!(units[1].1.text, long[0..10].join(" "));
    assert_eq!(units[2].1.text, long[7..14].join(" "));
    assert_eq!(units[3].1.text, "Fin del texto.");

    let mut memory = CatalogueMemory::new();
    let mut leaves: Vec<Vec<f32>> = Vec::new();
    for (k, (index, phrase)) in units.iter().enumerate() {
        let v: Vec<f32> = vec![k as f32, 1.0, 2.0 * k as f32];
        leaves.push(v.clone());
        let bits: Vec<u32> = v.iter().map(|x| x.to_bits()).collect();
        let c = catalogue_mech(&mut memory, phrase, index, Some(bits), EmbeddingType::Total).unwrap();
        assert_eq!(c.dmeaning.embedding.etype, EmbeddingType::Total);
    }
    assert_eq!(memory.len(), 4);
    let members = title_vectors(&memory, &book(), 1);
    assert_eq!(members.len(), 4);
    let mean: Vec<f32> = (0..3)
        .map(|j| members.iter().map(|v| f32::from_bits(v[j])).sum::<f32>() / members.len() as f32)
        .collect();
    let expected: Vec<f32> = (0..3).map(|j| leaves.iter().map(|v| v[j]).sum::<f32>() / 4.0).collect();
    assert_eq!(mean, expected);
    assert_eq!(mean, vec![1.5, 1.0, 3.0]);
}
