//! Errors of the program and the messages shown for them.
use vstd::prelude::*;
use crate::format::{decimal, push_decimal};

verus! {

/// A failure to read or write the cache of best plans. Paths and the
/// messages of the underlying errors are kept as the text they display as.
pub enum CacheError {
    Read { path: String, source: String },
    Deserialize { path: String, source: String },
    InvalidSize { path: String, expected: usize, actual: usize },
    CreateDir { path: String, source: String },
    Serialize(String),
    Write { path: String, source: String },
}

/// The message of a cache error.
pub open spec fn cache_error_text(error: CacheError) -> Seq<char> {
    match error {
        CacheError::Read { path, source } => "не удалось прочитать кэш '"@ + path@ + "': "@
            + source@,
        CacheError::Deserialize { path, source } => "не удалось декодировать кэш '"@ + path@
            + "': "@ + source@,
        CacheError::InvalidSize { path, expected, actual } => "кэш '"@ + path@
            + "' имеет неверный размер: ожидалось "@ + decimal(expected as nat) + ", получено "@
            + decimal(actual as nat),
        CacheError::CreateDir { path, source } => "не удалось создать директорию кэша '"@ + path@
            + "': "@ + source@,
        CacheError::Serialize(source) => "не удалось сериализовать кэш: "@ + source@,
        CacheError::Write { path, source } => "не удалось записать кэш '"@ + path@ + "': "@
            + source@,
    }
}

impl CacheError {
    /// The message shown for this error.
    pub fn message(&self) -> (text: String)
        ensures
            text@ == cache_error_text(*self),
    {
        let mut text = String::new();
        match self {
            CacheError::Read { path, source } => {
                text.append("не удалось прочитать кэш '");
                text.append(path.as_str());
                text.append("': ");
                text.append(source.as_str());
            },
            CacheError::Deserialize { path, source } => {
                text.append("не удалось декодировать кэш '");
                text.append(path.as_str());
                text.append("': ");
                text.append(source.as_str());
            },
            CacheError::InvalidSize { path, expected, actual } => {
                text.append("кэш '");
                text.append(path.as_str());
                text.append("' имеет неверный размер: ожидалось ");
                push_decimal(&mut text, *expected as u64);
                text.append(", получено ");
                push_decimal(&mut text, *actual as u64);
            },
            CacheError::CreateDir { path, source } => {
                text.append("не удалось создать директорию кэша '");
                text.append(path.as_str());
                text.append("': ");
                text.append(source.as_str());
            },
            CacheError::Serialize(source) => {
                text.append("не удалось сериализовать кэш: ");
                text.append(source.as_str());
            },
            CacheError::Write { path, source } => {
                text.append("не удалось записать кэш '");
                text.append(path.as_str());
                text.append("': ");
                text.append(source.as_str());
            },
        }
        text
    }
}

/// A failure of the program: input or output, the cache, or a helper thread
/// that panicked.
pub enum AppError {
    Io(String),
    Cache(CacheError),
    ThreadPanicked(&'static str),
}

/// The message of an error of the program.
pub open spec fn app_error_text(error: AppError) -> Seq<char> {
    match error {
        AppError::Io(source) => "ошибка ввода-вывода: "@ + source@,
        AppError::Cache(error) => cache_error_text(error),
        AppError::ThreadPanicked(name) => "внутренний поток '"@ + name@ + "' завершился с panic"@,
    }
}

impl AppError {
    /// The message shown for this error.
    pub fn message(&self) -> (text: String)
        ensures
            text@ == app_error_text(*self),
    {
        match self {
            AppError::Io(source) => {
                let mut text = String::from_str("ошибка ввода-вывода: ");
                text.append(source.as_str());
                text
            },
            AppError::Cache(error) => error.message(),
            AppError::ThreadPanicked(name) => {
                let mut text = String::from_str("внутренний поток '");
                text.append(name);
                text.append("' завершился с panic");
                text
            },
        }
    }
}

} // verus!
