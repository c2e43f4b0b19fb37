use vstd::prelude::*;
use vstd::string::*;

use crate::ast::{
    default_primitive_size, is_primitive, is_primitive_name, primitive_model, ritual_size_checked,
    ritual_size_fits, ritual_type, attachments_of, files_of, rituals_of, Attachment, AttachmentModel,
    ExprType, File, FileModel, FileType, Ritual, RitualModel, Type,
    TypeDec, TypeDecModel, TypeModel, BYE_SIZE,
};
use crate::literal::{decimal_len, i32_text_len, parse_usize, spec_parse_usize};
use crate::text::str_is;
use crate::tree::{Node, ParseError, Rule};

verus! {

/// The dimensions that the children of an array node list: each must be an
/// integer literal that reads as a `usize`; the first that is not decides the error.
pub open spec fn spec_dims(children: Seq<Node>) -> Result<Seq<usize>, ParseError>
    decreases children.len(),
{
    if children.len() == 0 {
        Ok(Seq::empty())
    } else {
        match spec_dims(children.drop_last()) {
            Err(e) => Err(e),
            Ok(ds) => {
                let c = children.last();
                if c.rule != Rule::integer_literal {
                    Err(ParseError::UnexpectedNode)
                } else {
                    match spec_parse_usize(c.text@) {
                        Some(v) => Ok(ds.push(v)),
                        None => Err(ParseError::BadIntegerLiteral),
                    }
                }
            },
        }
    }
}

proof fn lemma_dims_prefix_error(children: Seq<Node>, k: int)
    requires
        0 <= k <= children.len(),
        spec_dims(children.take(k)) is Err,
    ensures
        spec_dims(children) == spec_dims(children.take(k)),
    decreases children.len(),
{
    if k == children.len() {
        assert(children.take(k) =~= children);
    } else {
        assert(children.drop_last().take(k) =~= children.take(k));
        lemma_dims_prefix_error(children.drop_last(), k);
    }
}

/// Reads the dimensions that an array node lists.
pub fn parse_dims(array: &Node) -> (r: Result<Vec<usize>, ParseError>)
    ensures
        match r {
            Ok(d) => spec_dims(array.children@) == Ok::<Seq<usize>, ParseError>(d@),
            Err(e) => spec_dims(array.children@) == Err::<Seq<usize>, ParseError>(e),
        },
{
    let ghost ch = array.children@;
    let mut dims: Vec<usize> = Vec::new();
    let mut i: usize = 0;
    assert(ch.take(0) =~= Seq::<Node>::empty());
    while i < array.children.len()
        invariant
            ch == array.children@,
            i <= ch.len(),
            spec_dims(ch.take(i as int)) == Ok::<Seq<usize>, ParseError>(dims@),
        decreases ch.len() - i,
    {
        let c = &array.children[i];
        assert(ch.take(i + 1).drop_last() =~= ch.take(i as int));
        assert(ch.take(i + 1).last() == *c);
        if c.rule != Rule::integer_literal {
            proof {
                lemma_dims_prefix_error(ch, i + 1);
            }
            return Err(ParseError::UnexpectedNode);
        }
        match parse_usize(c.text.as_str()) {
            Some(v) => {
                dims.push(v);
            },
            None => {
                proof {
                    lemma_dims_prefix_error(ch, i + 1);
                }
                return Err(ParseError::BadIntegerLiteral);
            },
        }
        i = i + 1;
    }
    assert(ch.take(ch.len() as int) =~= ch);
    Ok(dims)
}

/// What follows the name of a type from the child at `k` on: an optional
/// pointer mark, then an optional array. A pointer mark makes a pointer; an
/// array without one makes a pointer exactly where `array_alone_is_pointer`.
/// Anything else there is an error; nodes after these are not looked at.
pub open spec fn spec_modifiers(children: Seq<Node>, k: int, array_alone_is_pointer: bool) -> Result<
    (bool, Seq<usize>),
    ParseError,
> {
    if k >= children.len() {
        Ok((false, Seq::empty()))
    } else if children[k].rule == Rule::pointer {
        if k + 1 >= children.len() {
            Ok((true, Seq::empty()))
        } else if children[k + 1].rule == Rule::array {
            match spec_dims(children[k + 1].children@) {
                Ok(d) => Ok((true, d)),
                Err(e) => Err(e),
            }
        } else {
            Err(ParseError::UnexpectedNode)
        }
    } else if children[k].rule == Rule::array {
        match spec_dims(children[k].children@) {
            Ok(d) => Ok((array_alone_is_pointer, d)),
            Err(e) => Err(e),
        }
    } else {
        Err(ParseError::UnexpectedNode)
    }
}

/// Reads the pointer mark and array that follow the name of a type.
fn parse_modifiers(children: &Vec<Node>, k: usize, array_alone_is_pointer: bool) -> (r: Result<
    (bool, Vec<usize>),
    ParseError,
>)
    ensures
        match r {
            Ok((p, d)) => spec_modifiers(children@, k as int, array_alone_is_pointer) == Ok::<
                (bool, Seq<usize>),
                ParseError,
            >((p, d@)),
            Err(e) => spec_modifiers(children@, k as int, array_alone_is_pointer) == Err::<
                (bool, Seq<usize>),
                ParseError,
            >(e),
        },
{
    if k >= children.len() {
        Ok((false, Vec::new()))
    } else if children[k].rule == Rule::pointer {
        if k + 1 >= children.len() {
            Ok((true, Vec::new()))
        } else if children[k + 1].rule == Rule::array {
            let d = parse_dims(&children[k + 1])?;
            Ok((true, d))
        } else {
            Err(ParseError::UnexpectedNode)
        }
    } else if children[k].rule == Rule::array {
        let d = parse_dims(&children[k])?;
        Ok((array_alone_is_pointer, d))
    } else {
        Err(ParseError::UnexpectedNode)
    }
}

/// The number of characters of the text that an expression gives a string type:
/// a string's own characters, or the decimal text of an integer or fixed value;
/// none for any other expression.
pub open spec fn expr_text_len(expr: ExprType) -> nat {
    match expr {
        ExprType::String(s) => s@.len(),
        ExprType::Integer(v) => decimal_len(v as int),
        ExprType::Fixed(v) => decimal_len(v as int),
        _ => 0,
    }
}

/// The number of characters of the text that an expression gives a string type.
pub fn expr_text_count(expr: &ExprType) -> (n: usize)
    ensures
        n == expr_text_len(*expr),
{
    match expr {
        ExprType::String(s) => s.as_str().unicode_len(),
        ExprType::Integer(v) => i32_text_len(*v),
        ExprType::Fixed(v) => i32_text_len(*v),
        _ => 0,
    }
}

/// A type as written, before any ritual that it names is looked up.
pub enum TypeShape {
    /// A primitive, string or char type.
    Known(TypeDec),
    /// A type named by a ritual's identifier.
    Named { name: String, pointer: bool, dimensions: Vec<usize> },
}

/// What a `TypeShape` denotes.
pub enum TypeShapeModel {
    Known(TypeDecModel),
    Named(Seq<char>, bool, Seq<usize>),
}

impl View for TypeShape {
    type V = TypeShapeModel;

    open spec fn view(&self) -> TypeShapeModel {
        match self {
            TypeShape::Known(t) => TypeShapeModel::Known(t@),
            TypeShape::Named { name, pointer, dimensions } => TypeShapeModel::Named(
                name@,
                *pointer,
                dimensions@,
            ),
        }
    }
}

/// The type that a type node writes, given the expression it is declared for
/// (which sizes a string type).
///
/// The first child names the type:
/// - a `primitive`, optionally followed by its size in bits (an integer literal;
///   the type then takes that many bits divided by `BYE_SIZE`, in bytes), else at
///   its default size; an array without a pointer mark makes a pointer only when
///   no size is written;
/// - a `sized_primitive`: `string`/`str` (as many bytes as the expression's text
///   has characters, plus one) or `char`/`c`; an array alone makes a pointer;
/// - an `identifier`: a ritual, looked up later.
pub open spec fn spec_type_shape(node: Node, expr: ExprType) -> Result<TypeShapeModel, ParseError> {
    let ch = node.children@;
    if ch.len() == 0 {
        Err(ParseError::MissingType)
    } else if ch[0].rule == Rule::primitive {
        let prim = ch[0].text@;
        if ch.len() > 1 && ch[1].rule == Rule::integer_literal {
            match spec_parse_usize(ch[1].text@) {
                None => Err(ParseError::BadIntegerLiteral),
                Some(bits) => match spec_modifiers(ch, 2, false) {
                    Err(e) => Err(e),
                    Ok((p, d)) => if is_primitive_name(prim) {
                        Ok(
                            TypeShapeModel::Known(
                                TypeDecModel {
                                    base_type: primitive_model(prim, bits / BYE_SIZE).unwrap(),
                                    pointer: p,
                                    dimensions: d,
                                },
                            ),
                        )
                    } else {
                        Err(ParseError::UnknownPrimitive)
                    },
                },
            }
        } else {
            match spec_modifiers(ch, 1, true) {
                Err(e) => Err(e),
                Ok((p, d)) => if is_primitive_name(prim) {
                    Ok(
                        TypeShapeModel::Known(
                            TypeDecModel {
                                base_type: primitive_model(
                                    prim,
                                    default_primitive_size(prim),
                                ).unwrap(),
                                pointer: p,
                                dimensions: d,
                            },
                        ),
                    )
                } else {
                    Err(ParseError::UnknownPrimitive)
                },
            }
        }
    } else if ch[0].rule == Rule::sized_primitive {
        let prim = ch[0].text@;
        if prim == "string"@ || prim == "str"@ {
            let n = expr_text_len(expr);
            match spec_modifiers(ch, 1, true) {
                Err(e) => Err(e),
                Ok((p, d)) => if n < usize::MAX {
                    Ok(
                        TypeShapeModel::Known(
                            TypeDecModel {
                                base_type: TypeModel {
                                    identifier: "s"@,
                                    signed: false,
                                    size: (n + 1) as usize,
                                },
                                pointer: p,
                                dimensions: d,
                            },
                        ),
                    )
                } else {
                    Err(ParseError::SizeOverflow)
                },
            }
        } else if prim == "char"@ || prim == "c"@ {
            match spec_modifiers(ch, 1, true) {
                Err(e) => Err(e),
                Ok((p, d)) => Ok(
                    TypeShapeModel::Known(
                        TypeDecModel {
                            base_type: TypeModel { identifier: "c"@, signed: true, size: 1 },
                            pointer: p,
                            dimensions: d,
                        },
                    ),
                ),
            }
        } else {
            Err(ParseError::UnknownPrimitive)
        }
    } else if ch[0].rule == Rule::identifier {
        match spec_modifiers(ch, 1, false) {
            Err(e) => Err(e),
            Ok((p, d)) => Ok(TypeShapeModel::Named(ch[0].text@, p, d)),
        }
    } else {
        Err(ParseError::MissingType)
    }
}

/// Reads a type node, given the expression it is declared for.
pub fn type_shape(node: &Node, expr: &ExprType) -> (r: Result<TypeShape, ParseError>)
    ensures
        match r {
            Ok(t) => spec_type_shape(*node, *expr) == Ok::<TypeShapeModel, ParseError>(t@),
            Err(e) => spec_type_shape(*node, *expr) == Err::<TypeShapeModel, ParseError>(e),
        },
{
    let ch = &node.children;
    if ch.len() == 0 {
        return Err(ParseError::MissingType);
    }
    let x = &ch[0];
    if x.rule == Rule::primitive {
        let prim = x.text.as_str();
        if ch.len() > 1 && ch[1].rule == Rule::integer_literal {
            let bits = match parse_usize(ch[1].text.as_str()) {
                Some(b) => b,
                None => return Err(ParseError::BadIntegerLiteral),
            };
            let (p, d) = parse_modifiers(ch, 2, false)?;
            if !is_primitive(prim) {
                return Err(ParseError::UnknownPrimitive);
            }
            Ok(
                TypeShape::Known(
                    TypeDec {
                        base_type: Type::from_primitive(prim, bits / BYE_SIZE),
                        pointer: p,
                        dimensions: d,
                    },
                ),
            )
        } else {
            let (p, d) = parse_modifiers(ch, 1, true)?;
            if !is_primitive(prim) {
                return Err(ParseError::UnknownPrimitive);
            }
            Ok(
                TypeShape::Known(
                    TypeDec { base_type: Type::from_cprimitive(prim), pointer: p, dimensions: d },
                ),
            )
        }
    } else if x.rule == Rule::sized_primitive {
        let prim = x.text.as_str();
        if str_is(prim, "string") || str_is(prim, "str") {
            let n = expr_text_count(expr);
            let (p, d) = parse_modifiers(ch, 1, true)?;
            if n == usize::MAX {
                return Err(ParseError::SizeOverflow);
            }
            Ok(TypeShape::Known(TypeDec { base_type: Type::str(n), pointer: p, dimensions: d }))
        } else if str_is(prim, "char") || str_is(prim, "c") {
            let (p, d) = parse_modifiers(ch, 1, true)?;
            Ok(TypeShape::Known(TypeDec { base_type: Type::char(), pointer: p, dimensions: d }))
        } else {
            Err(ParseError::UnknownPrimitive)
        }
    } else if x.rule == Rule::identifier {
        let (p, d) = parse_modifiers(ch, 1, false)?;
        Ok(TypeShape::Named { name: x.text.clone(), pointer: p, dimensions: d })
    } else {
        Err(ParseError::MissingType)
    }
}

/// The index of the first ritual named `name`, if any.
pub open spec fn ritual_index(rituals: Seq<RitualModel>, name: Seq<char>) -> Option<int>
    decreases rituals.len(),
{
    if rituals.len() == 0 {
        None
    } else {
        match ritual_index(rituals.drop_last(), name) {
            Some(i) => Some(i),
            None => if rituals.last().identifier == name {
                Some(rituals.len() - 1)
            } else {
                None
            },
        }
    }
}

proof fn lemma_ritual_index_prefix(rituals: Seq<RitualModel>, name: Seq<char>, k: int)
    requires
        0 <= k <= rituals.len(),
    ensures
        ritual_index(rituals.take(k), name) is Some ==> ritual_index(rituals, name) == ritual_index(
            rituals.take(k),
            name,
        ),
        ritual_index(rituals, name) matches Some(i) ==> 0 <= i < rituals.len()
            && rituals[i].identifier == name,
    decreases rituals.len(),
{
    if rituals.len() > 0 {
        lemma_ritual_index_prefix(rituals.drop_last(), name, if k == rituals.len() {
            k - 1
        } else {
            k
        });
    }
    if k == rituals.len() {
        assert(rituals.take(k) =~= rituals);
    } else {
        assert(rituals.drop_last().take(k) =~= rituals.take(k));
    }
}

/// The index of the first ritual named `name`, if any.
pub fn find_ritual(rituals: &Vec<Ritual>, name: &str) -> (r: Option<usize>)
    ensures
        r is None <==> ritual_index(rituals_of(rituals@), name@) is None,
        r matches Some(i) ==> ritual_index(rituals_of(rituals@), name@) == Some(i as int),
        r matches Some(i) ==> i < rituals.len() && rituals@[i as int].identifier@ == name@,
{
    let ghost rs = rituals_of(rituals@);
    proof {
        lemma_ritual_index_prefix(rs, name@, rs.len() as int);
    }
    let mut i: usize = 0;
    assert(rs.take(0) =~= Seq::<RitualModel>::empty());
    while i < rituals.len()
        invariant
            rs == rituals_of(rituals@),
            i <= rs.len(),
            ritual_index(rs.take(i as int), name@) is None,
        decreases rs.len() - i,
    {
        assert(rs.take(i + 1).drop_last() =~= rs.take(i as int));
        if str_is(rituals[i].identifier.as_str(), name) {
            assert(ritual_index(rs.take(i + 1), name@) == Some(i as int));
            proof {
                lemma_ritual_index_prefix(rs, name@, i + 1);
            }
            return Some(i);
        }
        i = i + 1;
    }
    assert(rs.take(rs.len() as int) =~= rs);
    None
}

/// The index of the first file named `name` of type `file_type`, if any.
pub open spec fn file_index(files: Seq<FileModel>, name: Seq<char>, file_type: FileType) -> Option<int>
    decreases files.len(),
{
    if files.len() == 0 {
        None
    } else {
        match file_index(files.drop_last(), name, file_type) {
            Some(i) => Some(i),
            None => if files.last().identifier == name && files.last().file_type == file_type {
                Some(files.len() - 1)
            } else {
                None
            },
        }
    }
}

proof fn lemma_file_index_prefix(files: Seq<FileModel>, name: Seq<char>, ft: FileType, k: int)
    requires
        0 <= k <= files.len(),
    ensures
        file_index(files.take(k), name, ft) is Some ==> file_index(files, name, ft) == file_index(
            files.take(k),
            name,
            ft,
        ),
        file_index(files, name, ft) matches Some(i) ==> 0 <= i < files.len()
            && files[i].identifier == name && files[i].file_type == ft,
    decreases files.len(),
{
    if files.len() > 0 {
        lemma_file_index_prefix(files.drop_last(), name, ft, if k == files.len() {
            k - 1
        } else {
            k
        });
    }
    if k == files.len() {
        assert(files.take(k) =~= files);
    } else {
        assert(files.drop_last().take(k) =~= files.take(k));
    }
}

/// The index of the first file named `name` of type `file_type`, if any.
pub fn find_file(files: &Vec<File>, name: &str, file_type: FileType) -> (r: Option<usize>)
    ensures
        r is None <==> file_index(files_of(files@), name@, file_type) is None,
        r matches Some(i) ==> file_index(files_of(files@), name@, file_type) == Some(i as int),
        r matches Some(i) ==> i < files.len() && files@[i as int].identifier@ == name@
            && files@[i as int].file_type == file_type,
{
    let ghost fs = files_of(files@);
    proof {
        lemma_file_index_prefix(fs, name@, file_type, fs.len() as int);
    }
    let mut i: usize = 0;
    assert(fs.take(0) =~= Seq::<FileModel>::empty());
    while i < files.len()
        invariant
            fs == files_of(files@),
            i <= fs.len(),
            file_index(fs.take(i as int), name@, file_type) is None,
        decreases fs.len() - i,
    {
        assert(fs.take(i + 1).drop_last() =~= fs.take(i as int));
        if str_is(files[i].identifier.as_str(), name) && files[i].file_type == file_type {
            assert(file_index(fs.take(i + 1), name@, file_type) == Some(i as int));
            proof {
                lemma_file_index_prefix(fs, name@, file_type, i + 1);
            }
            return Some(i);
        }
        i = i + 1;
    }
    assert(fs.take(fs.len() as int) =~= fs);
    None
}

/// The ritual named `name` in the first attached file that declares one, going
/// through the attachments in order; an attachment whose file is not loaded,
/// met before such a file, is an error.
pub open spec fn ritual_in_attachments(
    attachments: Seq<AttachmentModel>,
    files: Seq<FileModel>,
    name: Seq<char>,
) -> Result<RitualModel, ParseError>
    decreases attachments.len(),
{
    if attachments.len() == 0 {
        Err(ParseError::UnknownRitual)
    } else {
        match file_index(files, attachments[0].file_name, attachments[0].file_type) {
            None => Err(ParseError::MissingAttachedFile),
            Some(fi) => match ritual_index(files[fi].rituals, name) {
                Some(ri) => Ok(files[fi].rituals[ri]),
                None => ritual_in_attachments(attachments.drop_first(), files, name),
            },
        }
    }
}

/// The ritual that a type names from within `file`: the file's own, or else
/// one of its attachments'.
pub open spec fn spec_named_ritual(file: FileModel, files: Seq<FileModel>, name: Seq<char>) -> Result<
    RitualModel,
    ParseError,
> {
    match ritual_index(file.rituals, name) {
        Some(i) => Ok(file.rituals[i]),
        None => ritual_in_attachments(file.attachments, files, name),
    }
}

/// The type that a type node declares in `file`, where a named ritual is looked
/// up in the file and then in its attachments, and takes the ritual's size.
pub open spec fn spec_parse_type(node: Node, expr: ExprType, file: FileModel, files: Seq<FileModel>) -> Result<
    TypeDecModel,
    ParseError,
> {
    match spec_type_shape(node, expr) {
        Err(e) => Err(e),
        Ok(TypeShapeModel::Known(t)) => Ok(t),
        Ok(TypeShapeModel::Named(name, p, d)) => match spec_named_ritual(file, files, name) {
            Err(e) => Err(e),
            Ok(r) => if ritual_size_fits(r) {
                Ok(TypeDecModel { base_type: ritual_type(r), pointer: p, dimensions: d })
            } else {
                Err(ParseError::SizeOverflow)
            },
        },
    }
}

/// A copy of the ritual named `name` in the first attached file that declares one.
fn find_in_attachments(attachments: &Vec<Attachment>, files: &Vec<File>, name: &str) -> (r: Result<
    Ritual,
    ParseError,
>)
    ensures
        match r {
            Ok(rit) => ritual_in_attachments(attachments_of(attachments@), files_of(files@), name@) == Ok::<
                RitualModel,
                ParseError,
            >(rit@),
            Err(e) => ritual_in_attachments(attachments_of(attachments@), files_of(files@), name@) == Err::<
                RitualModel,
                ParseError,
            >(e),
        },
{
    let ghost atts = attachments_of(attachments@);
    let mut j: usize = 0;
    assert(atts.skip(0) =~= atts);
    while j < attachments.len()
        invariant
            atts == attachments_of(attachments@),
            j <= atts.len(),
            ritual_in_attachments(atts, files_of(files@), name@) == ritual_in_attachments(
                atts.skip(j as int),
                files_of(files@),
                name@,
            ),
        decreases atts.len() - j,
    {
        let a = &attachments[j];
        assert(atts.skip(j as int)[0] == a@);
        assert(atts.skip(j as int).drop_first() =~= atts.skip(j + 1));
        match find_file(files, a.file_name.as_str(), a.file_type) {
            None => return Err(ParseError::MissingAttachedFile),
            Some(fi) => match find_ritual(&files[fi].rituals, name) {
                Some(ri) => return Ok(files[fi].rituals[ri].duplicate()),
                None => {},
            },
        }
        j = j + 1;
    }
    Err(ParseError::UnknownRitual)
}

/// Reads the type that a type node declares in `file`. A type named by a
/// ritual is looked up in `file`, then in its attached files (found in `files`),
/// and becomes the ritual's type. A ritual that neither declares is refused
/// with `UnknownRitual`, an attached file that is not loaded with
/// `MissingAttachedFile`, and a ritual too large for a `usize` with
/// `SizeOverflow`.
pub fn parse_type(node: &Node, expr: &ExprType, file: &File, files: &Vec<File>) -> (r: Result<
    TypeDec,
    ParseError,
>)
    ensures
        match r {
            Ok(t) => spec_parse_type(*node, *expr, file@, files_of(files@)) == Ok::<
                TypeDecModel,
                ParseError,
            >(t@),
            Err(e) => spec_parse_type(*node, *expr, file@, files_of(files@)) == Err::<
                TypeDecModel,
                ParseError,
            >(e),
        },
{
    match type_shape(node, expr)? {
        TypeShape::Known(t) => Ok(t),
        TypeShape::Named { name, pointer, dimensions } => {
            let rit = match find_ritual(&file.rituals, name.as_str()) {
                Some(i) => file.rituals[i].duplicate(),
                None => find_in_attachments(&file.attachments, files, name.as_str())?,
            };
            match ritual_size_checked(&rit) {
                None => Err(ParseError::SizeOverflow),
                Some(_) => Ok(
                    TypeDec { base_type: Type::from_ritual(rit), pointer, dimensions },
                ),
            }
        },
    }
}

/// Where `ritual_index` finds a ritual, it is the first one of that name.
pub proof fn lemma_ritual_index_facts(rituals: Seq<RitualModel>, name: Seq<char>)
    ensures
        ritual_index(rituals, name) matches Some(i) ==> 0 <= i < rituals.len()
            && rituals[i].identifier == name && forall|j: int|
            0 <= j < i ==> rituals[j].identifier != name,
        ritual_index(rituals, name) is None ==> forall|j: int|
            0 <= j < rituals.len() ==> rituals[j].identifier != name,
    decreases rituals.len(),
{
    if rituals.len() > 0 {
        let d = rituals.drop_last();
        lemma_ritual_index_facts(d, name);
        assert forall|j: int| 0 <= j < d.len() implies rituals[j] == d[j] by {}
    }
}

/// Where `file_index` finds a file, it is the first one of that name and type.
pub proof fn lemma_file_index_facts(files: Seq<FileModel>, name: Seq<char>, ft: FileType)
    ensures
        file_index(files, name, ft) matches Some(i) ==> 0 <= i < files.len()
            && files[i].identifier == name && files[i].file_type == ft && forall|j: int|
            0 <= j < i ==> !(files[j].identifier == name && files[j].file_type == ft),
        file_index(files, name, ft) is None ==> forall|j: int|
            0 <= j < files.len() ==> !(files[j].identifier == name && files[j].file_type == ft),
    decreases files.len(),
{
    if files.len() > 0 {
        let d = files.drop_last();
        lemma_file_index_facts(d, name, ft);
        assert forall|j: int| 0 <= j < d.len() implies files[j] == d[j] by {}
    }
}

} // verus!
