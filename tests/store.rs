use tsahdu::catalogue::{catalogue_fabric, Catalogue, EmbeddingType};
use tsahdu::cryptography::{hex_of_digest, sha256_digest};
use tsahdu::documents::{document_reference_filename, document_reference_to_string, reference_fabric};
use tsahdu::errors::LawError;
use tsahdu::files::{
    book_of_law_filename, embeddings_filename, file_of_law_filename, law_config_filename,
    law_index_to_filename, read_reference_file, reference_filename, reference_foldername,
    write_reference_file, StoreConfig,
};
use tsahdu::language::phrase_fabric;
use tsahdu::laws::LawBook;

fn store() -> StoreConfig {
    StoreConfig {
        reference_folder: "data/ref/".to_string(),
        laws_folder: "data/laws/".to_string(),
        reference_extension: ".ref".to_string(),
        embeddings_extension: ".emb".to_string(),
        law_extension: ".law".to_string(),
        law_config_extension: ".toml".to_string(),
    }
}

fn catalogue(t: Option<u16>, c: Option<u16>, a: Option<u16>, p: Option<u16>, e: EmbeddingType) -> Catalogue {
    catalogue_fabric(
        "Colombia".to_string(),
        "Constitucion".to_string(),
        t,
        c,
        a,
        p,
        &phrase_fabric("texto".to_string()),
        e,
        &Some(vec![1, 2]),
    )
}

#[test]
fn record_round_trip_all_absent() {
    let c = catalogue(None, None, None, None, EmbeddingType::Average);
    let text = write_reference_file(&c);
    assert_eq!(
        text,
        "pais = \"colombia\"\ninstrumento = \"constitucion\"\ntitulo = \"-1\"\ncapitulo = \"-1\"\narticulo = \"-1\"\nparte = \"-1\"\netype = \"Average\""
    );
    let (index, e) = read_reference_file(&text).unwrap();
    assert_eq!(index, c.dindex);
    assert_eq!(e, EmbeddingType::Average);
}

#[test]
fn record_round_trip_all_present() {
    let c = catalogue(Some(65535), Some(0), Some(12), Some(3), EmbeddingType::Total);
    let (index, e) = read_reference_file(&write_reference_file(&c)).unwrap();
    assert_eq!(index, c.dindex);
    assert_eq!(index.titulo, Some(65535));
    assert_eq!(e, EmbeddingType::Total);
}

#[test]
fn record_with_bad_number_is_a_parse_error() {
    let text = "pais = \"a\"\ninstrumento = \"b\"\ntitulo = \"x1\"\ncapitulo = \"-1\"\narticulo = \"-1\"\nparte = \"-1\"\netype = \"Total\"";
    assert_eq!(read_reference_file(text).unwrap_err(), LawError::ParseError);
    let big = text.replace("x1", "65536");
    assert_eq!(read_reference_file(&big).unwrap_err(), LawError::ParseError);
    let kind = text.replace("x1", "1").replace("Total", "Mean");
    assert_eq!(read_reference_file(&kind).unwrap_err(), LawError::ParseError);
    let short = "pais = \"a\"";
    assert_eq!(read_reference_file(short).unwrap_err(), LawError::ParseError);
}

#[test]
fn filenames_follow_the_address() {
    let c = catalogue(Some(1), None, Some(5), Some(0), EmbeddingType::Total);
    assert_eq!(law_index_to_filename(&c.dindex), "colombia.constitucion.titulo-1.articulo-5.parte-0");
    assert_eq!(reference_foldername(&store(), &c.dindex), "data/ref/colombia.constitucion/");
    assert_eq!(
        reference_filename(&store(), &c.dindex),
        "data/ref/colombia.constitucion/colombia.constitucion.titulo-1.articulo-5.parte-0.ref"
    );
    assert_eq!(
        embeddings_filename(&store(), &c.dindex),
        "data/ref/colombia.constitucion/colombia.constitucion.titulo-1.articulo-5.parte-0.emb"
    );
    assert_eq!(
        file_of_law_filename(&store(), &c.dindex),
        "data/ref/colombia.constitucion/colombia.constitucion.titulo-1.articulo-5.parte-0.law"
    );
    let book = LawBook::new("Colombia", "Constitucion");
    assert_eq!(book_of_law_filename(&store(), &book), "data/laws/colombia.constitucion.law");
    assert_eq!(law_config_filename(&store(), &book), "data/laws/colombia.constitucion.toml");
}

#[test]
fn sha256_of_abc() {
    assert_eq!(sha256_digest("abc"), "ba7816bf8f01cfea414140de5dae2223b00361a396177a9cb410ff61f20015ad");
    assert_eq!(hex_of_digest(&vec![0, 15, 16, 255]), "000f10ff");
}

#[test]
fn document_reference_is_content_addressed() {
    let r = reference_fabric("Colombia".to_string(), "Ley".to_string(), 1, 2, 3, 4, "texto".to_string());
    assert_eq!(r.dindex.pais, "colombia");
    assert_eq!(r.dindex.instrumento, "ley");
    assert_eq!(r.dref, sha256_digest("colombia.ley.1.2.3.4=texto"));
    let same = reference_fabric("COLOMBIA".to_string(), "LEY".to_string(), 1, 2, 3, 4, "texto".to_string());
    assert_eq!(same.dref, r.dref);
    let other = reference_fabric("Colombia".to_string(), "Ley".to_string(), 1, 2, 3, 4, "otro".to_string());
    assert_ne!(other.dref, r.dref);
    assert_eq!(document_reference_filename(&r), "colombia.ley.titulo-1.capitulo-2.articulo-3.paragrafo-4");
    assert_eq!(
        document_reference_to_string(&r),
        format!(
            "dref = \"{}\"\npais = \"colombia\"\ninstrumento = \"ley\"\ntitulo = \"1\"\ncapitulo = \"2\"\narticulo = \"3\"\nparagrafo = \"4\"",
            r.dref
        )
    );
}
