use tsahdu::config::{
    config_language, config_model, config_model_path, config_return_count, config_vocab_file,
    error_message, law_patterns, store_config, window_config, Settings,
};
use tsahdu::errors::LawError;

fn settings(pairs: &[(&str, &str)]) -> Settings {
    Settings { entries: pairs.iter().map(|(k, v)| (k.to_string(), v.to_string())).collect() }
}

#[test]
fn present_and_missing_keys() {
    let s = settings(&[("language", "es"), ("language", "en")]);
    assert_eq!(config_language(&s).unwrap(), "es");
    assert_eq!(config_language(&settings(&[])).unwrap_err(), LawError::ConfigMissing);
}

#[test]
fn model_follows_language() {
    let s = settings(&[
        ("language", "en"),
        ("es_model", "beto"),
        ("en_model", "mini"),
        ("models_path", "models/"),
        ("vocab_filename", "vocab.txt"),
    ]);
    assert_eq!(config_model(&s).unwrap(), "mini");
    assert_eq!(config_model_path(&s).unwrap(), "models/mini/");
    assert_eq!(config_vocab_file(&s).unwrap(), "models/mini/vocab.txt");
    let fr = settings(&[("language", "fr")]);
    assert_eq!(config_model(&fr).unwrap_err(), LawError::UnsupportedLanguage);
}

#[test]
fn numbers_in_settings() {
    assert_eq!(config_return_count(&settings(&[("return_count", "10")])).unwrap(), 10);
    assert_eq!(config_return_count(&settings(&[("return_count", "diez")])).unwrap_err(), LawError::ParseError);
    let w = window_config(&settings(&[
        ("minimum_window_size", "5"),
        ("maximum_window_size", "128"),
        ("window_retrocede", "16"),
    ]))
    .unwrap();
    assert_eq!((w.minimum_window_size, w.maximum_window_size, w.window_retrocede), (5, 128, 16));
    let bad = window_config(&settings(&[
        ("minimum_window_size", "5"),
        ("maximum_window_size", "16"),
        ("window_retrocede", "16"),
    ]));
    assert_eq!(bad.unwrap_err(), LawError::InvalidWindows);
}

#[test]
fn store_and_patterns_from_settings() {
    let s = settings(&[
        ("reference_folder", "ref/"),
        ("laws_folder", "laws/"),
        ("reference_extension", ".ref"),
        ("embeddings_extension", ".emb"),
        ("laws_extension", ".law"),
        ("laws_config_extension", ".toml"),
    ]);
    let c = store_config(&s).unwrap();
    assert_eq!(c.laws_folder, "laws/");
    assert_eq!(c.law_config_extension, ".toml");
    let p = law_patterns(&settings(&[("regex_titulo", "T"), ("regex_capitulo", "C")]));
    assert_eq!(p.unwrap_err(), LawError::ConfigMissing);
    assert_eq!(error_message(&settings(&[("E0009", "no encontrado")]), "E0009").unwrap(), "no encontrado");
}
