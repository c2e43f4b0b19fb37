use vstd::prelude::*;

verus! {

/// Names the grammar of Ensource source files. The library parses nothing by
/// itself: the program around it parses a file's text by this grammar and
/// hands the library the tree as `Node`s.
pub struct EnsourceLParser;

/// Names the grammar of the first version of the language (the same rules).
pub struct EnsourceParser;

/// The grammar rules that the declarations of a source file are read by. Rules
/// that nothing here tells apart are `other`.
#[allow(non_camel_case_types)]
#[derive(Clone, Copy, Debug, PartialEq, Eq, Structural)]
pub enum Rule {
    file,
    attach,
    ritual_dec,
    spell_dec,
    sigil_asg,
    EOI,
    hex_literal,
    integer_literal,
    float_literal,
    privacy,
    identifier,
    ritual_pars,
    element_ident,
    typee,
    primitive,
    sized_primitive,
    pointer,
    array,
    other,
}

/// A node of the parse tree of a source file: the rule that matched, the text
/// it matched, the text that its children span (from the first child's start to
/// the last child's end; empty without children), and its children in order.
#[derive(Debug)]
pub struct Node {
    pub rule: Rule,
    pub text: String,
    pub inner_text: String,
    pub children: Vec<Node>,
}

/// Why a source file's declarations cannot be read.
#[derive(Clone, Copy, Debug, PartialEq, Eq, Structural)]
pub enum ParseError {
    /// An attachment names no file type.
    MissingFileType,
    /// An attachment names a file type other than `necr`, `wiza`, `sorc`, `hexy`.
    UnknownFileType,
    /// An attachment names no file.
    MissingFileName,
    /// A type node is empty or starts with a node that is no type.
    MissingType,
    /// A field name is the last node of a ritual's fields, with no type after it.
    MissingFieldType,
    /// A primitive name is none of the known primitives.
    UnknownPrimitive,
    /// A node stands where the grammar of types allows none of its kind.
    UnexpectedNode,
    /// An integer literal does not read as a number of its type.
    BadIntegerLiteral,
    /// A hexadecimal literal does not read as an `i32`.
    BadHexLiteral,
    /// A float literal does not read as an `f32`.
    BadFloatLiteral,
    /// An expression of a kind that is not read yet.
    UnsupportedExpression,
    /// A ritual holds itself by value, so its size would be infinite.
    InfiniteRitual,
    /// An attachment names a file that is not loaded.
    MissingAttachedFile,
    /// A type names a ritual that neither the file nor its attachments declare.
    UnknownRitual,
    /// A size does not fit in a `usize`.
    SizeOverflow,
    /// A pending ritual belongs to a file that is not loaded.
    MissingFile,
    /// A pending ritual, or a ritual that it names, is not declared in its file.
    MissingRitual,
    /// A file's attachment names a file that is not loaded.
    MissingAttachment,
}

} // verus!
