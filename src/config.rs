use vstd::prelude::*;
use crate::errors::LawError;
use crate::files::StoreConfig;
use crate::language::WindowConfig;
use crate::laws::LawPatterns;
use crate::text::same_text;
use crate::utils::{atoi, number_in};

verus! {

/// A configuration as read from its file: key and value pairs.
#[derive(Debug, Clone)]
pub struct Settings {
    pub entries: Vec<(String, String)>,
}

pub open spec fn pairs_view(s: Seq<(String, String)>) -> Seq<(Seq<char>, Seq<char>)> {
    s.map_values(|p: (String, String)| (p.0@, p.1@))
}

/// The value of the first pair with key `key`.
pub open spec fn lookup(s: Seq<(Seq<char>, Seq<char>)>, key: Seq<char>) -> Option<Seq<char>>
    decreases s.len(),
{
    if s.len() == 0 {
        None
    } else if s[0].0 == key {
        Some(s[0].1)
    } else {
        lookup(s.skip(1), key)
    }
}

/// The value of `key`, or `ConfigMissing`.
pub open spec fn setting_of(s: &Settings, key: Seq<char>) -> Result<Seq<char>, LawError> {
    match lookup(pairs_view(s.entries@), key) {
        Some(v) => Ok(v),
        None => Err(LawError::ConfigMissing),
    }
}

/// `r` is the value of `key` in `s`, or says that the key is missing.
pub open spec fn gives(r: Result<String, LawError>, s: &Settings, key: Seq<char>) -> bool {
    same_result(r, setting_of(s, key))
}

/// `r` holds the text that `expected` holds, or the same error.
pub open spec fn same_result(r: Result<String, LawError>, expected: Result<Seq<char>, LawError>) -> bool {
    match expected {
        Ok(v) => r matches Ok(x) && x@ == v,
        Err(e) => r == Err::<String, LawError>(e),
    }
}

/// The value of `key`, or `ConfigMissing`.
pub fn config_value(settings: &Settings, key: &str) -> (r: Result<String, LawError>)
    ensures
        gives(r, settings, key@),
{
    let ghost s = pairs_view(settings.entries@);
    let mut i: usize = 0;
    assert(s.skip(0) =~= s);
    while i < settings.entries.len()
        invariant
            i <= settings.entries.len(),
            s == pairs_view(settings.entries@),
            lookup(s, key@) == lookup(s.skip(i as int), key@),
        decreases settings.entries.len() - i,
    {
        let ghost rest = s.skip(i as int);
        assert(rest[0] == (settings.entries@[i as int].0@, settings.entries@[i as int].1@));
        if same_text(settings.entries[i].0.as_str(), key) {
            return Ok(settings.entries[i].1.clone());
        }
        assert(rest.skip(1) =~= s.skip(i + 1));
        i = i + 1;
    }
    Err(LawError::ConfigMissing)
}

pub fn config_language(settings: &Settings) -> (r: Result<String, LawError>)
    ensures
        gives(r, settings, "language"@),
{
    config_value(settings, "language")
}

pub fn config_models_path(settings: &Settings) -> (r: Result<String, LawError>)
    ensures
        gives(r, settings, "models_path"@),
{
    config_value(settings, "models_path")
}

pub fn config_vocab_filename(settings: &Settings) -> (r: Result<String, LawError>)
    ensures
        gives(r, settings, "vocab_filename"@),
{
    config_value(settings, "vocab_filename")
}

pub fn config_reference_folder(settings: &Settings) -> (r: Result<String, LawError>)
    ensures
        gives(r, settings, "reference_folder"@),
{
    config_value(settings, "reference_folder")
}

pub fn config_laws_folder(settings: &Settings) -> (r: Result<String, LawError>)
    ensures
        gives(r, settings, "laws_folder"@),
{
    config_value(settings, "laws_folder")
}

pub fn config_embeddings_extension(settings: &Settings) -> (r: Result<String, LawError>)
    ensures
        gives(r, settings, "embeddings_extension"@),
{
    config_value(settings, "embeddings_extension")
}

pub fn config_reference_extension(settings: &Settings) -> (r: Result<String, LawError>)
    ensures
        gives(r, settings, "reference_extension"@),
{
    config_value(settings, "reference_extension")
}

pub fn config_law_extension(settings: &Settings) -> (r: Result<String, LawError>)
    ensures
        gives(r, settings, "laws_extension"@),
{
    config_value(settings, "laws_extension")
}

pub fn config_law_config_extension(settings: &Settings) -> (r: Result<String, LawError>)
    ensures
        gives(r, settings, "laws_config_extension"@),
{
    config_value(settings, "laws_config_extension")
}

pub fn config_minimum_window_size(settings: &Settings) -> (r: Result<String, LawError>)
    ensures
        gives(r, settings, "minimum_window_size"@),
{
    config_value(settings, "minimum_window_size")
}

pub fn config_maximum_window_size(settings: &Settings) -> (r: Result<String, LawError>)
    ensures
        gives(r, settings, "maximum_window_size"@),
{
    config_value(settings, "maximum_window_size")
}

pub fn config_window_retrocede(settings: &Settings) -> (r: Result<String, LawError>)
    ensures
        gives(r, settings, "window_retrocede"@),
{
    config_value(settings, "window_retrocede")
}

/// The model that the configured language selects.
pub open spec fn model_of(settings: &Settings) -> Result<Seq<char>, LawError> {
    match setting_of(settings, "language"@) {
        Err(e) => Err(e),
        Ok(l) => if l == "es"@ {
            setting_of(settings, "es_model"@)
        } else if l == "en"@ {
            setting_of(settings, "en_model"@)
        } else {
            Err(LawError::UnsupportedLanguage)
        },
    }
}

/// The folder of the selected model: `"{models_path}{model}/"`.
pub open spec fn model_path_of(settings: &Settings) -> Result<Seq<char>, LawError> {
    match setting_of(settings, "models_path"@) {
        Err(e) => Err(e),
        Ok(a) => match model_of(settings) {
            Err(e) => Err(e),
            Ok(b) => Ok(a + b + "/"@),
        },
    }
}

/// The vocabulary file of the selected model: `"{model_path}{vocab_filename}"`.
pub open spec fn vocab_file_of(settings: &Settings) -> Result<Seq<char>, LawError> {
    match model_path_of(settings) {
        Err(e) => Err(e),
        Ok(a) => match setting_of(settings, "vocab_filename"@) {
            Err(e) => Err(e),
            Ok(b) => Ok(a + b),
        },
    }
}

/// The model of the configured language: `es_model` for `es`, `en_model` for `en`.
pub fn config_model(settings: &Settings) -> (r: Result<String, LawError>)
    ensures
        same_result(r, model_of(settings)),
{
    let language = config_language(settings)?;
    if same_text(language.as_str(), "es") {
        config_value(settings, "es_model")
    } else if same_text(language.as_str(), "en") {
        config_value(settings, "en_model")
    } else {
        Err(LawError::UnsupportedLanguage)
    }
}

/// `"{models_path}{model}/"`.
pub fn config_model_path(settings: &Settings) -> (r: Result<String, LawError>)
    ensures
        same_result(r, model_path_of(settings)),
{
    let base = config_models_path(settings)?;
    let model = config_model(settings)?;
    let mut p = base.clone();
    p.append(model.as_str());
    p.append("/");
    Ok(p)
}

/// `"{model_path}{vocab_filename}"`.
pub fn config_vocab_file(settings: &Settings) -> (r: Result<String, LawError>)
    ensures
        same_result(r, vocab_file_of(settings)),
{
    let mut p = config_model_path(settings)?;
    let v = config_vocab_filename(settings)?;
    p.append(v.as_str());
    Ok(p)
}

/// The number that setting `key` holds: `ConfigMissing` when absent, `ParseError`
/// when it holds no digits or a number too large.
pub open spec fn number_of(settings: &Settings, key: Seq<char>) -> Result<usize, LawError> {
    match setting_of(settings, key) {
        Err(e) => Err(e),
        Ok(v) => match number_in(v) {
            Some(n) => if n <= usize::MAX {
                Ok(n as usize)
            } else {
                Err(LawError::ParseError)
            },
            None => Err(LawError::ParseError),
        },
    }
}

/// The number of results a search returns.
pub fn config_return_count(settings: &Settings) -> (r: Result<usize, LawError>)
    ensures
        r == number_of(settings, "return_count"@),
{
    let v = config_value(settings, "return_count")?;
    match atoi(v.as_str()) {
        Some(n) => if n <= usize::MAX as u64 {
            Ok(n as usize)
        } else {
            Err(LawError::ParseError)
        },
        None => Err(LawError::ParseError),
    }
}

fn number_setting(settings: &Settings, key: &str) -> (r: Result<usize, LawError>)
    ensures
        r == number_of(settings, key@),
{
    let v = config_value(settings, key)?;
    match atoi(v.as_str()) {
        Some(n) => if n <= usize::MAX as u64 {
            Ok(n as usize)
        } else {
            Err(LawError::ParseError)
        },
        None => Err(LawError::ParseError),
    }
}

/// The window sizes of the configuration; the overlap must be smaller than a window.
pub fn window_config(settings: &Settings) -> (r: Result<WindowConfig, LawError>)
    ensures
        r == windows_of(settings),
        r matches Ok(c) ==> c.wf(),
{
    let minimum = number_setting(settings, "minimum_window_size")?;
    let maximum = number_setting(settings, "maximum_window_size")?;
    let retrocede = number_setting(settings, "window_retrocede")?;
    if retrocede >= maximum {
        return Err(LawError::InvalidWindows);
    }
    Ok(WindowConfig { minimum_window_size: minimum, maximum_window_size: maximum, window_retrocede: retrocede })
}

/// The window sizes that the configuration gives, or the first failure.
pub open spec fn windows_of(settings: &Settings) -> Result<WindowConfig, LawError> {
    match number_of(settings, "minimum_window_size"@) {
        Err(e) => Err(e),
        Ok(minimum) => match number_of(settings, "maximum_window_size"@) {
            Err(e) => Err(e),
            Ok(maximum) => match number_of(settings, "window_retrocede"@) {
                Err(e) => Err(e),
                Ok(retrocede) => if retrocede >= maximum {
                    Err(LawError::InvalidWindows)
                } else {
                    Ok(WindowConfig { minimum_window_size: minimum, maximum_window_size: maximum, window_retrocede: retrocede })
                },
            },
        },
    }
}

/// Where the store keeps its files, from the configuration.
pub fn store_config(settings: &Settings) -> (r: Result<StoreConfig, LawError>)
    ensures
        r is Ok <==> (setting_of(settings, "reference_folder"@) is Ok && setting_of(settings, "laws_folder"@) is Ok
            && setting_of(settings, "reference_extension"@) is Ok && setting_of(settings, "embeddings_extension"@) is Ok
            && setting_of(settings, "laws_extension"@) is Ok && setting_of(settings, "laws_config_extension"@) is Ok),
        r is Err ==> r == Err::<StoreConfig, LawError>(LawError::ConfigMissing),
        r matches Ok(c) ==> gives(Ok(c.reference_folder), settings, "reference_folder"@) && gives(
            Ok(c.laws_folder),
            settings,
            "laws_folder"@,
        ) && gives(Ok(c.reference_extension), settings, "reference_extension"@) && gives(
            Ok(c.embeddings_extension),
            settings,
            "embeddings_extension"@,
        ) && gives(Ok(c.law_extension), settings, "laws_extension"@) && gives(
            Ok(c.law_config_extension),
            settings,
            "laws_config_extension"@,
        ),
{
    Ok(StoreConfig {
        reference_folder: config_reference_folder(settings)?,
        laws_folder: config_laws_folder(settings)?,
        reference_extension: config_reference_extension(settings)?,
        embeddings_extension: config_embeddings_extension(settings)?,
        law_extension: config_law_extension(settings)?,
        law_config_extension: config_law_config_extension(settings)?,
    })
}

/// The three patterns of a book's configuration.
pub fn law_patterns(book_settings: &Settings) -> (r: Result<LawPatterns, LawError>)
    ensures
        r is Ok <==> (setting_of(book_settings, "regex_titulo"@) is Ok && setting_of(book_settings, "regex_capitulo"@) is Ok
            && setting_of(book_settings, "regex_articulo"@) is Ok),
        r is Err ==> r == Err::<LawPatterns, LawError>(LawError::ConfigMissing),
        r matches Ok(p) ==> gives(Ok(p.regex_titulo), book_settings, "regex_titulo"@) && gives(
            Ok(p.regex_capitulo),
            book_settings,
            "regex_capitulo"@,
        ) && gives(Ok(p.regex_articulo), book_settings, "regex_articulo"@),
{
    Ok(LawPatterns {
        regex_titulo: config_value(book_settings, "regex_titulo")?,
        regex_capitulo: config_value(book_settings, "regex_capitulo")?,
        regex_articulo: config_value(book_settings, "regex_articulo")?,
    })
}

/// The message of an error code in the error catalogue.
pub fn error_message(errors: &Settings, code: &str) -> (r: Result<String, LawError>)
    ensures
        gives(r, errors, code@),
{
    config_value(errors, code)
}

} // verus!
