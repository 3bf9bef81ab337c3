//! Reading shipping documents and dispatch e-mails.

pub mod extractor;
pub mod flags;
pub mod parsing;
pub mod tags;

pub use self::extractor::{extract, DocumentEvent, Extractor};
pub use self::flags::{check_flag, generate_flags, update_flag};
pub use self::parsing::{parse_email, parse_file, parse_multiple};
pub use self::tags::{match_tag, match_text, store_decoded, store_text, FieldMap};
