//! The Ensource language: its types, rituals and files, and the reading of a
//! file's declarations from its parse tree.
//!
//! A file's parse tree (`Node`) is read by `pre_parse`, which gathers the
//! file's attachments and rituals and records every ritual field whose type
//! names a ritual as pending in one of two tables. Once every file is read,
//! `resolve_todos` gives each pending field the type, and so the size, of the
//! ritual it names.
pub mod ast;
pub mod declarations;
pub mod files;
pub mod laws;
pub mod literal;
pub mod load;
pub mod rerun;
pub mod resolve;
mod text;
pub mod todo;
pub mod tree;
pub mod types;

pub use ast::{
    copy_dims, is_primitive, mem_size, ritual_size_checked, Attachment, BinaryOp,
    BinaryOperations, Cast, ChannelListFor, ChannelStandartFor, ChannelWhile, ConditionalCase,
    Expr, ExprType, File, FileType, Index, Lambda, Mal, Par, Print, Privacy, Ritual, Sigil, Skip,
    Spell, Stop, Target, Transmute, Type, TypeDec, UnaryOp, UnaryOps, Wait, BYE_SIZE,
};
pub use declarations::{
    file_type_named, find_attachment, parse_attachment, parse_expr, parse_ritual, parse_todo_type,
    pre_parse,
};
pub use files::{
    attachment_path, create_file, file_extension, file_type_of_extension, get_file, insert_file,
};
pub use literal::{hex_prefix_end, i32_text_len, parse_i32_from, parse_usize};
pub use resolve::{combined_todos, do_todo, replace_field_in, resolve_todos};
pub use text::str_is;
pub use todo::{copy_holders, Todo, TodoTable, TypeHolder};
pub use tree::{EnsourceLParser, EnsourceParser, Node, ParseError, Rule};
pub use types::{expr_text_count, find_file, find_ritual, parse_dims, parse_type, type_shape, TypeShape};
