use tsahdu::catalogue::{
    all_chapters_in_title, all_titles, catalogue_fabric, chapter_vectors, consult_catalogues_memory,
    embedding_type_for, load_catalogues_memory_item, needs_loading, rank_catalogues, title_vectors,
    Catalogue, CatalogueMemory, ConsultStep, EmbeddingType,
};
use tsahdu::errors::LawError;
use tsahdu::language::phrase_fabric;
use tsahdu::laws::{LawBook, LawIndex};
use tsahdu::mathematics::transpose_vec2d;

fn unit(pais: &str, t: Option<u16>, c: Option<u16>, a: Option<u16>, v: Vec<u32>) -> Catalogue {
    catalogue_fabric(
        pais.to_string(),
        "Constitucion".to_string(),
        t,
        c,
        a,
        None,
        &phrase_fabric(format!("articulo {:?}", a)),
        EmbeddingType::Total,
        &Some(v),
    )
}

fn key(i: &LawIndex) -> (Option<u16>, Option<u16>, Option<u16>) {
    (i.titulo, i.capitulo, i.articulo)
}

#[test]
fn insert_replaces_same_address() {
    let mut m = CatalogueMemory::new();
    m.insert(unit("Colombia", Some(1), None, Some(1), vec![1]));
    m.insert(unit("Colombia", Some(1), None, Some(2), vec![2]));
    m.insert(unit("COLOMBIA", Some(1), None, Some(1), vec![3]));
    assert_eq!(m.len(), 2);
    let i = unit("colombia", Some(1), None, Some(1), vec![]).dindex;
    assert_eq!(m.get(&i).unwrap().dmeaning.embedding.vector, Some(vec![3]));
}

#[test]
fn consult_found_reload_and_not_found() {
    let mut m = CatalogueMemory::new();
    let present = unit("Colombia", Some(1), None, Some(1), vec![7]);
    m.insert(present.clone());
    match consult_catalogues_memory(&m, &present.dindex, false).unwrap() {
        ConsultStep::Found(c) => assert_eq!(c.dmeaning.embedding.vector, Some(vec![7])),
        ConsultStep::Reload => panic!("expected the catalogue"),
    }
    let absent = unit("Colombia", Some(9), None, Some(9), vec![]).dindex;
    assert!(matches!(consult_catalogues_memory(&m, &absent, false), Ok(ConsultStep::Reload)));
    assert_eq!(consult_catalogues_memory(&m, &absent, true).unwrap_err(), LawError::NotFound);
}

#[test]
fn loading_is_forced_or_for_missing_only() {
    let mut m = CatalogueMemory::new();
    let i = unit("Colombia", Some(1), None, Some(4), vec![]).dindex;
    assert!(needs_loading(&m, &i, false));
    load_catalogues_memory_item(&mut m, &i, EmbeddingType::Average, "texto".to_string(), vec![5, 6]);
    assert!(!needs_loading(&m, &i, false));
    assert!(needs_loading(&m, &i, true));
    let c = m.get(&i).unwrap();
    assert_eq!(c.dmeaning.phrase.text, "texto");
    assert_eq!(c.dmeaning.embedding.etype, EmbeddingType::Average);
}

fn filled(order: &[usize]) -> (CatalogueMemory, Vec<u32>) {
    let all = vec![
        (unit("Colombia", Some(1), None, Some(1), vec![]), 30.0f32),
        (unit("Colombia", Some(1), None, Some(2), vec![]), 10.0f32),
        (unit("Colombia", Some(2), None, Some(3), vec![]), 20.0f32),
        (unit("Peru", Some(1), None, Some(1), vec![]), 5.0f32),
        (unit("Colombia", Some(2), None, Some(4), vec![]), 20.0f32),
    ];
    let mut m = CatalogueMemory::new();
    let mut d = Vec::new();
    for &k in order {
        m.insert(all[k].0.clone());
        d.push(all[k].1.to_bits());
    }
    (m, d)
}

#[test]
fn rank_closest_first_within_book() {
    let (m, d) = filled(&[0, 1, 2, 3, 4]);
    let book = LawBook::new("Colombia", "Constitucion");
    let r = rank_catalogues(&m, &d, &book, 2);
    assert_eq!(r.len(), 2);
    assert_eq!(key(&r[0].0), (Some(1), None, Some(2)));
    assert_eq!(f32::from_bits(r[0].1), 10.0);
    assert_eq!(key(&r[1].0), (Some(2), None, Some(3)));
    let all = rank_catalogues(&m, &d, &book, 10);
    assert_eq!(all.len(), 4);
    assert!(all.windows(2).all(|w| f32::from_bits(w[0].1) <= f32::from_bits(w[1].1)));
    assert_eq!(key(&all[2].0), (Some(2), None, Some(4)));
    assert!(rank_catalogues(&m, &d, &book, 0).is_empty());
    let none = rank_catalogues(&m, &d, &LawBook::new("Chile", "Constitucion"), 3);
    assert!(none.is_empty());
}

#[test]
fn rank_ignores_insertion_order() {
    let book = LawBook::new("Colombia", "Constitucion");
    let (m1, d1) = filled(&[0, 1, 2, 3, 4]);
    let (m2, d2) = filled(&[4, 3, 2, 1, 0]);
    let (m3, d3) = filled(&[2, 4, 0, 3, 1]);
    let r1 = rank_catalogues(&m1, &d1, &book, 3);
    assert_eq!(r1, rank_catalogues(&m2, &d2, &book, 3));
    assert_eq!(r1, rank_catalogues(&m3, &d3, &book, 3));
}

#[test]
fn rollups_select_title_and_chapter() {
    let mut m = CatalogueMemory::new();
    m.insert(unit("Colombia", Some(1), Some(1), Some(1), vec![1]));
    m.insert(unit("Colombia", Some(1), Some(2), Some(2), vec![2]));
    m.insert(unit("Colombia", Some(2), Some(1), Some(3), vec![3]));
    m.insert(unit("Peru", Some(1), Some(1), Some(1), vec![4]));
    let book = LawBook::new("Colombia", "Constitucion");
    assert_eq!(title_vectors(&m, &book, 1), vec![vec![1], vec![2]]);
    assert_eq!(chapter_vectors(&m, &book, 1, 2), vec![vec![2]]);
    let before = title_vectors(&m, &book, 1);
    m.insert(unit("Colombia", Some(2), Some(1), Some(3), vec![9]));
    m.insert(unit("Peru", Some(1), Some(1), Some(8), vec![9]));
    assert_eq!(title_vectors(&m, &book, 1), before);
    m.insert(unit("Colombia", Some(1), None, None, vec![7]));
    m.insert(unit("Colombia", Some(1), Some(2), None, vec![8]));
    assert_eq!(title_vectors(&m, &book, 1), before);
    assert_eq!(chapter_vectors(&m, &book, 1, 2), vec![vec![2]]);
    let mut titles = all_titles(&m, &book);
    titles.sort();
    assert_eq!(titles, vec![1, 2]);
    let mut chapters = all_chapters_in_title(&m, &book, 1);
    chapters.sort();
    assert_eq!(chapters, vec![1, 2]);
}

#[test]
fn embedding_kind_by_segment_count() {
    assert_eq!(embedding_type_for(0), None);
    assert_eq!(embedding_type_for(1), Some(EmbeddingType::Total));
    assert_eq!(embedding_type_for(3), Some(EmbeddingType::Average));
}

#[test]
fn transpose_rows_into_columns() {
    let r = transpose_vec2d(vec![vec![1, 2, 3], vec![4, 5, 6]]);
    assert_eq!(r, vec![vec![1, 4], vec![2, 5], vec![3, 6]]);
}
