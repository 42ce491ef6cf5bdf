use math_strat::cache::check_table_size;
use math_strat::error::{AppError, CacheError};

#[test]
fn cache_error_messages() {
    let read = CacheError::Read { path: "/tmp/c.bin".to_string(), source: "нет доступа".to_string() };
    assert_eq!(read.message(), "не удалось прочитать кэш '/tmp/c.bin': нет доступа");
    let de = CacheError::Deserialize { path: "p".to_string(), source: "eof".to_string() };
    assert_eq!(de.message(), "не удалось декодировать кэш 'p': eof");
    let size = CacheError::InvalidSize { path: "p".to_string(), expected: 19, actual: 7 };
    assert_eq!(size.message(), "кэш 'p' имеет неверный размер: ожидалось 19, получено 7");
    let dir = CacheError::CreateDir { path: "/d".to_string(), source: "e".to_string() };
    assert_eq!(dir.message(), "не удалось создать директорию кэша '/d': e");
    let ser = CacheError::Serialize("bad".to_string());
    assert_eq!(ser.message(), "не удалось сериализовать кэш: bad");
    let write = CacheError::Write { path: "w".to_string(), source: "full".to_string() };
    assert_eq!(write.message(), "не удалось записать кэш 'w': full");
}

#[test]
fn app_error_messages() {
    assert_eq!(AppError::Io("broken pipe".to_string()).message(), "ошибка ввода-вывода: broken pipe");
    assert_eq!(
        AppError::ThreadPanicked("progress reporter").message(),
        "внутренний поток 'progress reporter' завершился с panic"
    );
    let inner = CacheError::Serialize("x".to_string());
    assert_eq!(AppError::Cache(inner).message(), "не удалось сериализовать кэш: x");
}

#[test]
fn check_table_size_accepts_one_entry_per_score() {
    assert!(check_table_size("cache.json", 19).is_ok());
    match check_table_size("cache.json", 5) {
        Err(e) => assert_eq!(e.message(), "кэш 'cache.json' имеет неверный размер: ожидалось 19, получено 5"),
        Ok(()) => panic!("a table of 5 entries must be refused"),
    }
    assert!(check_table_size("c", 0).is_err());
    assert!(check_table_size("c", 20).is_err());
}
