//! Tests of the diagnostics engine.
use asmgen::log::{Level, Log, LoggedResult, Logger, Origin};

#[test]
fn log_levels_and_accessors() {
    let origin = Some(Origin { file: "conf".to_owned(), line: 3 });
    let log = Log::new(Level::Error, origin, "boom".to_owned());
    assert!(log.is_error());
    assert_eq!(log.level(), Level::Error);
    assert_eq!(log.message(), "boom");
    assert_eq!(log.origin().as_ref().unwrap().line, 3);
    let warn = Log::new(Level::Warning, None, "meh".to_owned());
    assert!(!warn.is_error());
    assert!(warn.origin().is_none());
}

#[test]
fn logger_collects_in_order_and_tracks_errors() {
    let mut logger = Logger::new(None);
    assert!(!logger.is_error());
    logger.log_warning("first".to_owned());
    assert!(!logger.is_error());
    logger.log_error("second".to_owned());
    assert!(logger.is_error());
    let result: LoggedResult<u32> = logger.into_result(7);
    assert!(result.is_err());
    let (value, logs) = result.unwrap();
    assert!(value.is_none());
    assert_eq!(logs.len(), 2);
    assert_eq!(logs[0].message(), "first");
    assert_eq!(logs[1].message(), "second");
}

#[test]
fn into_result_yields_the_value_without_errors() {
    let mut logger = Logger::new(None);
    logger.log_warning("only a warning".to_owned());
    let result: LoggedResult<u32> = logger.into_result(7);
    assert!(result.is_ok());
    let (value, logs) = result.unwrap();
    assert_eq!(value, Some(7));
    assert_eq!(logs.len(), 1);
}

#[test]
fn into_none_never_yields_a_value() {
    let logger = Logger::new(None);
    let result: LoggedResult<u32> = logger.into_none();
    assert!(result.is_err());
}

#[test]
fn logger_origin_is_attached_to_new_entries() {
    let mut logger = Logger::new(Some(Origin { file: "a".to_owned(), line: 0 }));
    logger.log_error("one".to_owned());
    logger.set_origin(Some(Origin { file: "a".to_owned(), line: 9 }));
    logger.log_error("two".to_owned());
    let result: LoggedResult<()> = logger.into_none();
    let (_, logs) = result.unwrap();
    assert_eq!(logs[0].origin().as_ref().unwrap().line, 0);
    assert_eq!(logs[1].origin().as_ref().unwrap().line, 9);
}

#[test]
fn unwrap_logged_backfills_the_callers_origin() {
    // an inner operation logs without an origin; merging fills in the
    // caller's, but keeps one the entry already had
    let mut inner = Logger::new(None);
    inner.log_warning("floating".to_owned());
    inner.log_error("anchored".to_owned());
    let mut tagged: Vec<Log> = {
        let result: LoggedResult<u8> = inner.into_result(1);
        let mut outer = Logger::new(Some(Origin { file: "outer".to_owned(), line: 4 }));
        let value = result.unwrap_logged(&mut outer);
        assert!(value.is_none());
        let end: LoggedResult<u8> = outer.into_none();
        end.unwrap().1
    };
    assert_eq!(tagged.len(), 2);
    for log in tagged.drain(..) {
        let origin = log.origin().as_ref().unwrap().line;
        assert_eq!(origin, 4);
    }
}

#[test]
fn if_ok_runs_the_callback_on_success_only() {
    let mut logger = Logger::new(None);
    logger.log_warning("fine".to_owned());
    let result: LoggedResult<u32> = logger.into_result(5);
    let mut outer = Logger::new(None);
    let mut seen: Vec<u32> = Vec::new();
    result.if_ok(&mut outer, |v| seen.push(v));
    assert_eq!(seen, vec![5]);

    let mut logger2 = Logger::new(None);
    logger2.log_error("broken".to_owned());
    let result2: LoggedResult<u32> = logger2.into_result(5);
    let mut seen2: Vec<u32> = Vec::new();
    result2.if_ok(&mut outer, |v| seen2.push(v));
    assert!(seen2.is_empty());
}
