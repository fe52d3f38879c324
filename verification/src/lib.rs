//! Core logic of a desktop application launcher: exec-line sanitization,
//! arithmetic evaluation of query text, fuzzy ranking of the application
//! index, the query-dispatch state machine, the icon cache, configuration
//! parsing, and locale selection.

pub mod conf;
pub mod dispatch;
pub mod icons;
pub mod index;
pub mod locale;
pub mod matching;
pub mod math;
pub mod sanitize;
pub mod text;
