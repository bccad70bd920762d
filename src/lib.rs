//! Splits a template document into literal text and embedded `{...}` expression
//! blocks, aware of nesting, escaped delimiters and string literals inside blocks.
pub mod classify;
pub mod compile;
pub mod code_block;
pub mod error;
pub mod lexeme;
pub mod str_literal;
pub mod template;

pub use classify::{classify_block, Formattable, TemplateExpression};
pub use compile::{compile_template, TemplatePiece};
pub use code_block::{parse_code_block, CodeBlockParseError};
pub use error::{context_window, unquote, TemplateError, TemplateErrorKind, TEMPLATE_POINTER_PADDING};
pub use lexeme::{CLOSE, FENCE, OPEN, QUOTE, RAW_MARKER};
pub use str_literal::{parse_str_literal, StrLiteralParseError};
pub use template::{parse_template, render_literal_fragment, ParseResult, TemplateParseError};
