use vstd::prelude::*;

use crate::text::str_is;

verus! {

/// Bits per byte: a sized primitive written `int 32` takes `32 / BYE_SIZE` bytes.
pub const BYE_SIZE: usize = 8;

/// The number of bytes that a pointer takes on this machine (the size of `usize`).
pub open spec fn spec_mem_size() -> nat {
    vstd::layout::size_of::<usize>()
}

/// The number of bytes that a pointer field takes in a ritual.
pub fn mem_size() -> (n: usize)
    ensures
        n as nat == spec_mem_size(),
{
    core::mem::size_of::<usize>()
}

/// The kind of a source file, named by its extension.
#[derive(Clone, Copy, Debug, PartialEq, Eq, Structural, Hash)]
pub enum FileType {
    Necr,
    Sorc,
    Wiza,
    Hexy,
}

/// Whether a declaration is visible to attaching files (`forall`) or not (`mine`).
#[derive(Clone, Copy, Debug, PartialEq, Eq, Structural)]
pub enum Privacy {
    Forall,
    Mine,
}

/// Where a spell or sigil runs.
#[derive(Clone, Copy, Debug, PartialEq, Eq, Structural)]
pub enum Target {
    Golem,
    Whisper,
    Nowhere,
}

/// The memory discipline of a sigil.
#[derive(Clone, Copy, Debug, PartialEq, Eq, Structural)]
pub enum Mal {
    Entropic,
    Crystal,
}

/// A primitive or ritual type: its name, its signedness and its size in bytes.
#[derive(Clone, Debug)]
pub struct Type {
    pub identifier: String,
    pub signed: bool,
    pub size: usize,
}

/// What a `Type` denotes.
pub struct TypeModel {
    pub identifier: Seq<char>,
    pub signed: bool,
    pub size: usize,
}

impl View for Type {
    type V = TypeModel;

    open spec fn view(&self) -> TypeModel {
        TypeModel { identifier: self.identifier@, signed: self.signed, size: self.size }
    }
}

/// A declared type: a base type, whether it is a pointer, and its array dimensions.
#[derive(Clone, Debug)]
pub struct TypeDec {
    pub base_type: Type,
    pub pointer: bool,
    pub dimensions: Vec<usize>,
}

/// What a `TypeDec` denotes.
pub struct TypeDecModel {
    pub base_type: TypeModel,
    pub pointer: bool,
    pub dimensions: Seq<usize>,
}

impl View for TypeDec {
    type V = TypeDecModel;

    open spec fn view(&self) -> TypeDecModel {
        TypeDecModel {
            base_type: self.base_type@,
            pointer: self.pointer,
            dimensions: self.dimensions@,
        }
    }
}

/// A named, typed field or parameter.
#[derive(Clone, Debug)]
pub struct Par {
    pub identifier: String,
    pub par_type: TypeDec,
}

/// What a `Par` denotes.
pub struct ParModel {
    pub identifier: Seq<char>,
    pub par_type: TypeDecModel,
}

impl View for Par {
    type V = ParModel;

    open spec fn view(&self) -> ParModel {
        ParModel { identifier: self.identifier@, par_type: self.par_type@ }
    }
}

/// A ritual: a named record of fields.
#[derive(Clone, Debug)]
pub struct Ritual {
    pub privacy: Privacy,
    pub identifier: String,
    pub content: Vec<Par>,
}

/// What a `Ritual` denotes.
pub struct RitualModel {
    pub privacy: Privacy,
    pub identifier: Seq<char>,
    pub content: Seq<ParModel>,
}

impl View for Ritual {
    type V = RitualModel;

    open spec fn view(&self) -> RitualModel {
        RitualModel {
            privacy: self.privacy,
            identifier: self.identifier@,
            content: self.content@.map_values(|p: Par| p@),
        }
    }
}

/// An attached file, known in the attaching file under `identifier`.
#[derive(Clone, Debug)]
pub struct Attachment {
    pub identifier: String,
    pub file_name: String,
    pub file_type: FileType,
    pub context: usize,
}

/// What an `Attachment` denotes.
pub struct AttachmentModel {
    pub identifier: Seq<char>,
    pub file_name: Seq<char>,
    pub file_type: FileType,
    pub context: usize,
}

impl View for Attachment {
    type V = AttachmentModel;

    open spec fn view(&self) -> AttachmentModel {
        AttachmentModel {
            identifier: self.identifier@,
            file_name: self.file_name@,
            file_type: self.file_type,
            context: self.context,
        }
    }
}

/// A spell: a function declaration.
#[derive(Debug)]
pub struct Spell {
    pub identifier: String,
    pub rtn_type: TypeDec,
    pub privacy: Privacy,
    pub target: Target,
    pub context: usize,
    pub pars: Vec<Par>,
    pub content: Vec<Expr>,
}

/// A source file with its declarations.
#[derive(Debug)]
pub struct File {
    pub identifier: String,
    pub file_type: FileType,
    pub spells: Vec<Spell>,
    pub attachments: Vec<Attachment>,
    pub rituals: Vec<Ritual>,
    pub content: Vec<Expr>,
}

/// What the declarations of a file denote: its name, type, attachments and
/// rituals (its spells and expressions are not part of it).
pub struct FileModel {
    pub identifier: Seq<char>,
    pub file_type: FileType,
    pub attachments: Seq<AttachmentModel>,
    pub rituals: Seq<RitualModel>,
}

/// The models of a sequence of rituals.
pub open spec fn rituals_of(rs: Seq<Ritual>) -> Seq<RitualModel> {
    rs.map_values(|r: Ritual| r@)
}

/// The models of a sequence of attachments.
pub open spec fn attachments_of(atts: Seq<Attachment>) -> Seq<AttachmentModel> {
    atts.map_values(|a: Attachment| a@)
}

impl View for File {
    type V = FileModel;

    open spec fn view(&self) -> FileModel {
        FileModel {
            identifier: self.identifier@,
            file_type: self.file_type,
            attachments: attachments_of(self.attachments@),
            rituals: rituals_of(self.rituals@),
        }
    }
}

/// The models of a sequence of files.
pub open spec fn files_of(fs: Seq<File>) -> Seq<FileModel> {
    fs.map_values(|f: File| f@)
}

#[derive(Debug)]
pub struct ConditionalCase {
    pub condition: Expr,
    pub true_case: Vec<Expr>,
    pub false_case: Vec<Expr>,
}

#[derive(Debug)]
pub struct ChannelWhile {
    pub condition: Expr,
    pub context: Vec<Expr>,
}

#[derive(Debug)]
pub struct ChannelStandartFor {
    pub identifier: String,
    pub condition: Expr,
    pub increment: Expr,
    pub context: Vec<Expr>,
}

#[derive(Debug)]
pub struct ChannelListFor {
    pub identifier: Expr,
    pub list: Expr,
    pub context: Vec<Expr>,
}

#[derive(Debug)]
pub struct Lambda {
    pub rtn_type: TypeDec,
    pub pars: Vec<Par>,
    pub context: Vec<Expr>,
}

#[derive(Debug)]
pub struct Cast {
    pub args: Vec<Expr>,
    pub cast: Expr,
}

#[derive(Debug)]
pub struct Sigil {
    pub privacy: Privacy,
    pub target: Target,
    pub mal: Mal,
    pub pars: Vec<Par>,
    pub args: Vec<Expr>,
}

#[derive(Debug)]
pub struct Print {
    pub output: String,
    pub args: Vec<Expr>,
}

#[derive(Debug)]
pub struct BinaryOp {
    pub left: Expr,
    pub operation: BinaryOperations,
    pub right: Expr,
}

#[derive(Debug)]
pub struct UnaryOp {
    pub operation: UnaryOps,
    pub exp: Expr,
}

#[derive(Debug)]
pub struct Transmute {
    pub old_type: TypeDec,
    pub expr: Expr,
    pub new_type: TypeDec,
}

#[derive(Debug)]
pub struct Index {
    pub expr: Expr,
    pub index: Expr,
}

#[derive(Debug)]
pub struct Wait {
    pub expr: Expr,
}

#[derive(Debug)]
pub struct Stop {
    pub condition: Expr,
}

#[derive(Debug)]
pub struct Skip {
    pub condition: Expr,
    pub time: usize,
}

/// An expression with the context it stands in and its type.
#[derive(Debug)]
pub struct Expr {
    pub context: usize,
    pub expr_type: TypeDec,
    pub exp: ExprType,
}

/// The kinds of expression. A float literal is held as the bit pattern of its `f32` value.
#[derive(Debug)]
pub enum ExprType {
    ConditionalCase(Box<ConditionalCase>),
    ChannelWhile(Box<ChannelWhile>),
    ChannelStandartFor(Box<ChannelStandartFor>),
    ChannelListFor(Box<ChannelListFor>),
    Lambda(Box<Lambda>),
    Cast(Box<Cast>),
    Sigil(Box<Sigil>),
    Print(Box<Print>),
    BinaryOp(Box<BinaryOp>),
    UnaryOp(Box<UnaryOp>),
    Transmute(Box<Transmute>),
    Index(Box<Index>),
    Wait(Box<Wait>),
    Stop(Box<Stop>),
    Skip(Box<Stop>),
    Identifier(String),
    String(String),
    Bool(bool),
    Char(char),
    Float(u32),
    Fixed(i32),
    Integer(i32),
    Empty,
}

#[derive(Clone, Copy, Debug, PartialEq, Eq, Structural)]
pub enum BinaryOperations {
    Add,
    Sub,
    Mul,
    Div,
    Pow,
    And,
    Or,
    Bigger,
    Lesser,
    Equal,
    NotEqual,
    BEqual,
    LEqual,
}

#[derive(Clone, Copy, Debug, PartialEq, Eq, Structural)]
pub enum UnaryOps {
    PreIncr,
    PostIncr,
    PreDecr,
    PostDecr,
    Not,
    Neg,
    Sign,
    Unsign,
}

/// The type that a primitive name denotes at a given size, or `None` where the
/// name is no primitive. Each primitive has a long and a short name.
pub open spec fn primitive_model(name: Seq<char>, size: usize) -> Option<TypeModel> {
    if name == "bool"@ || name == "b"@ {
        Some(TypeModel { identifier: "b"@, signed: false, size })
    } else if name == "int"@ || name == "i"@ {
        Some(TypeModel { identifier: "i"@, signed: true, size })
    } else if name == "float"@ || name == "f"@ {
        Some(TypeModel { identifier: "f"@, signed: true, size })
    } else if name == "fixed"@ || name == "fx"@ {
        Some(TypeModel { identifier: "fx"@, signed: true, size })
    } else if name == "uint"@ || name == "ui"@ {
        Some(TypeModel { identifier: "ui"@, signed: false, size })
    } else if name == "ufloat"@ || name == "uf"@ {
        Some(TypeModel { identifier: "uf"@, signed: false, size })
    } else if name == "ufixed"@ || name == "ufx"@ {
        Some(TypeModel { identifier: "ufx"@, signed: false, size })
    } else {
        None
    }
}

/// Whether `name` names a primitive.
pub open spec fn is_primitive_name(name: Seq<char>) -> bool {
    primitive_model(name, 0) is Some
}

/// The size that a primitive takes when none is written: one byte for a bool, four otherwise.
pub open spec fn default_primitive_size(name: Seq<char>) -> usize {
    if name == "bool"@ || name == "b"@ {
        1
    } else {
        4
    }
}

/// The bytes that `size` bytes take once scaled by each array dimension in turn.
pub open spec fn scaled_size(size: nat, dims: Seq<usize>) -> nat
    decreases dims.len(),
{
    if dims.len() == 0 {
        size
    } else {
        scaled_size(size, dims.drop_last()) * (dims.last() as nat)
    }
}

/// The bytes that a field takes: a pointer takes a machine word; otherwise the
/// base size scaled by every dimension.
pub open spec fn par_size(p: ParModel) -> nat {
    if p.par_type.pointer {
        spec_mem_size()
    } else {
        scaled_size(p.par_type.base_type.size as nat, p.par_type.dimensions)
    }
}

/// The sum of the sizes of a sequence of fields.
pub open spec fn fields_size(pars: Seq<ParModel>) -> nat
    decreases pars.len(),
{
    if pars.len() == 0 {
        0
    } else {
        fields_size(pars.drop_last()) + par_size(pars.last())
    }
}

/// The size of a ritual: the sum of the sizes of its fields.
pub open spec fn ritual_size(r: RitualModel) -> nat {
    fields_size(r.content)
}

/// Whether a field's size can be computed in a `usize`: every partial product of
/// its dimensions fits (a pointer always does).
pub open spec fn par_size_fits(p: ParModel) -> bool {
    p.par_type.pointer || forall|k: int|
        0 <= k <= p.par_type.dimensions.len() ==> #[trigger] scaled_size(
            p.par_type.base_type.size as nat,
            p.par_type.dimensions.take(k),
        ) <= usize::MAX
}

/// Whether a ritual's size can be computed in a `usize`: each field's size fits,
/// and so does their sum.
pub open spec fn ritual_size_fits(r: RitualModel) -> bool {
    &&& forall|i: int| 0 <= i < r.content.len() ==> #[trigger] par_size_fits(r.content[i])
    &&& ritual_size(r) <= usize::MAX
}

/// The type that a ritual declares: named after it, unsigned, as large as its fields.
pub open spec fn ritual_type(r: RitualModel) -> TypeModel {
    TypeModel { identifier: r.identifier, signed: false, size: ritual_size(r) as usize }
}

proof fn lemma_fields_size_prefix(pars: Seq<ParModel>, k: int)
    requires
        0 <= k <= pars.len(),
    ensures
        fields_size(pars.take(k)) <= fields_size(pars),
    decreases pars.len(),
{
    if k < pars.len() {
        assert(pars.drop_last().take(k) =~= pars.take(k));
        lemma_fields_size_prefix(pars.drop_last(), k);
    } else {
        assert(pars.take(k) =~= pars);
    }
}

/// The size of one field, or `None` where computing it overflows.
fn par_size_checked(p: &Par) -> (res: Option<usize>)
    ensures
        res is Some <==> par_size_fits(p@),
        res matches Some(n) ==> n as nat == par_size(p@),
{
    if p.par_type.pointer {
        return Some(mem_size());
    }
    let ghost base = p.par_type.base_type.size as nat;
    let ghost dims = p.par_type.dimensions@;
    let mut s: usize = p.par_type.base_type.size;
    let mut i: usize = 0;
    assert(dims.take(0) =~= Seq::<usize>::empty());
    while i < p.par_type.dimensions.len()
        invariant
            dims == p.par_type.dimensions@,
            base == p.par_type.base_type.size as nat,
            !p.par_type.pointer,
            i <= dims.len(),
            s as nat == scaled_size(base, dims.take(i as int)),
            forall|k: int| 0 <= k <= i ==> #[trigger] scaled_size(base, dims.take(k)) <= usize::MAX,
        decreases dims.len() - i,
    {
        let d = p.par_type.dimensions[i];
        assert(dims.take(i + 1).drop_last() =~= dims.take(i as int));
        match s.checked_mul(d) {
            Some(n) => {
                s = n;
                i = i + 1;
            },
            None => {
                assert(dims.take(i + 1).last() == d);
                assert(scaled_size(base, dims.take(i + 1)) > usize::MAX);
                assert(!par_size_fits(p@)) by {
                    assert(0 <= i + 1 <= p@.par_type.dimensions.len());
                    assert(scaled_size(
                        p@.par_type.base_type.size as nat,
                        p@.par_type.dimensions.take(i + 1),
                    ) > usize::MAX);
                }
                return None;
            },
        }
    }
    assert(dims.take(dims.len() as int) =~= dims);
    Some(s)
}

/// The size of a ritual, or `None` where computing it overflows.
pub fn ritual_size_checked(r: &Ritual) -> (res: Option<usize>)
    ensures
        res is Some <==> ritual_size_fits(r@),
        res matches Some(n) ==> n as nat == ritual_size(r@),
{
    let ghost pars = r@.content;
    let mut total: usize = 0;
    let mut i: usize = 0;
    assert(pars.take(0) =~= Seq::<ParModel>::empty());
    while i < r.content.len()
        invariant
            pars == r@.content,
            pars.len() == r.content.len(),
            i <= pars.len(),
            total as nat == fields_size(pars.take(i as int)),
            forall|j: int| 0 <= j < i ==> #[trigger] par_size_fits(pars[j]),
        decreases pars.len() - i,
    {
        assert(pars[i as int] == r.content[i as int]@);
        assert(pars.take(i + 1).drop_last() =~= pars.take(i as int));
        assert(pars.take(i + 1).last() == pars[i as int]);
        match par_size_checked(&r.content[i]) {
            Some(n) => match total.checked_add(n) {
                Some(t) => {
                    total = t;
                    i = i + 1;
                },
                None => {
                    proof {
                        lemma_fields_size_prefix(pars, i + 1);
                    }
                    return None;
                },
            },
            None => {
                assert(!par_size_fits(pars[i as int]));
                return None;
            },
        }
    }
    assert(pars.take(pars.len() as int) =~= pars);
    Some(total)
}

impl Type {
    /// The primitive type named `primitive`, of `size` bytes.
    pub fn from_primitive(primitive: &str, size: usize) -> (t: Type)
        requires
            is_primitive_name(primitive@),
        ensures
            t@ == primitive_model(primitive@, size).unwrap(),
    {
        if str_is(primitive, "bool") || str_is(primitive, "b") {
            Type::bool(size)
        } else if str_is(primitive, "int") || str_is(primitive, "i") {
            Type::integer(size)
        } else if str_is(primitive, "float") || str_is(primitive, "f") {
            Type::float(size)
        } else if str_is(primitive, "fixed") || str_is(primitive, "fx") {
            Type::fixed(size)
        } else if str_is(primitive, "uint") || str_is(primitive, "ui") {
            Type::uint(size)
        } else if str_is(primitive, "ufloat") || str_is(primitive, "uf") {
            Type::ufloat(size)
        } else {
            Type::ufixed(size)
        }
    }

    /// The primitive type named `primitive` at its default size: one byte for a
    /// bool, four bytes for every other primitive.
    pub fn from_cprimitive(primitive: &str) -> (t: Type)
        requires
            is_primitive_name(primitive@),
        ensures
            t@ == primitive_model(primitive@, default_primitive_size(primitive@)).unwrap(),
    {
        if str_is(primitive, "bool") || str_is(primitive, "b") {
            Type::bool(1)
        } else if str_is(primitive, "int") || str_is(primitive, "i") {
            Type::integer(4)
        } else if str_is(primitive, "float") || str_is(primitive, "f") {
            Type::float(4)
        } else if str_is(primitive, "fixed") || str_is(primitive, "fx") {
            Type::fixed(4)
        } else if str_is(primitive, "uint") || str_is(primitive, "ui") {
            Type::uint(4)
        } else if str_is(primitive, "ufloat") || str_is(primitive, "uf") {
            Type::ufloat(4)
        } else {
            Type::ufixed(4)
        }
    }

    /// The type that a ritual declares: named after the ritual, unsigned, and as
    /// large as the sum of its fields (a pointer field takes a machine word, any
    /// other field its base size times each of its dimensions).
    pub fn from_ritual(ritual: Ritual) -> (t: Type)
        requires
            ritual_size_fits(ritual@),
        ensures
            t@ == ritual_type(ritual@),
    {
        let size = match ritual_size_checked(&ritual) {
            Some(n) => n,
            None => 0,
        };
        Type { identifier: ritual.identifier, signed: false, size }
    }

    /// The signed float type of `size` bytes.
    pub fn float(size: usize) -> (t: Type)
        ensures
            t@ == (TypeModel { identifier: "f"@, signed: true, size }),
    {
        Type { identifier: "f".to_owned(), signed: true, size }
    }

    /// The signed fixed-point type of `size` bytes.
    pub fn fixed(size: usize) -> (t: Type)
        ensures
            t@ == (TypeModel { identifier: "fx"@, signed: true, size }),
    {
        Type { identifier: "fx".to_owned(), signed: true, size }
    }

    /// The signed integer type of `size` bytes.
    pub fn integer(size: usize) -> (t: Type)
        ensures
            t@ == (TypeModel { identifier: "i"@, signed: true, size }),
    {
        Type { identifier: "i".to_owned(), signed: true, size }
    }

    /// The unsigned float type of `size` bytes.
    pub fn ufloat(size: usize) -> (t: Type)
        ensures
            t@ == (TypeModel { identifier: "uf"@, signed: false, size }),
    {
        Type { identifier: "uf".to_owned(), signed: false, size }
    }

    /// The unsigned fixed-point type of `size` bytes.
    pub fn ufixed(size: usize) -> (t: Type)
        ensures
            t@ == (TypeModel { identifier: "ufx"@, signed: false, size }),
    {
        Type { identifier: "ufx".to_owned(), signed: false, size }
    }

    /// The unsigned integer type of `size` bytes.
    pub fn uint(size: usize) -> (t: Type)
        ensures
            t@ == (TypeModel { identifier: "ui"@, signed: false, size }),
    {
        Type { identifier: "ui".to_owned(), signed: false, size }
    }

    /// The character type: signed, one byte.
    pub fn char() -> (t: Type)
        ensures
            t@ == (TypeModel { identifier: "c"@, signed: true, size: 1 }),
    {
        Type { identifier: "c".to_owned(), signed: true, size: 1 }
    }

    /// The boolean type of `size` bytes.
    pub fn bool(size: usize) -> (t: Type)
        ensures
            t@ == (TypeModel { identifier: "b"@, signed: false, size }),
    {
        Type { identifier: "b".to_owned(), signed: false, size }
    }

    /// The string type holding `str_size` characters and its terminator.
    pub fn str(str_size: usize) -> (t: Type)
        requires
            str_size < usize::MAX,
        ensures
            t@ == (TypeModel { identifier: "s"@, signed: false, size: (str_size + 1) as usize }),
    {
        Type { identifier: "s".to_owned(), signed: false, size: str_size + 1 }
    }

    /// The empty type.
    pub fn get_void() -> (t: Type)
        ensures
            t@ == (TypeModel { identifier: "void"@, signed: false, size: 0 }),
    {
        Type { identifier: "void".to_owned(), signed: false, size: 0 }
    }
}

/// Whether `name` names a primitive.
pub fn is_primitive(name: &str) -> (b: bool)
    ensures
        b == is_primitive_name(name@),
{
    str_is(name, "bool") || str_is(name, "b") || str_is(name, "int") || str_is(name, "i")
        || str_is(name, "float") || str_is(name, "f") || str_is(name, "fixed") || str_is(name, "fx")
        || str_is(name, "uint") || str_is(name, "ui") || str_is(name, "ufloat") || str_is(name, "uf")
        || str_is(name, "ufixed") || str_is(name, "ufx")
}

/// A copy of a list of dimensions.
pub fn copy_dims(dims: &Vec<usize>) -> (r: Vec<usize>)
    ensures
        r@ == dims@,
{
    let mut r: Vec<usize> = Vec::new();
    let mut i: usize = 0;
    while i < dims.len()
        invariant
            i <= dims.len(),
            r@ == dims@.take(i as int),
        decreases dims.len() - i,
    {
        r.push(dims[i]);
        i = i + 1;
        assert(r@ =~= dims@.take(i as int));
    }
    assert(dims@.take(i as int) =~= dims@);
    r
}

impl Type {
    /// A copy of this type.
    pub fn duplicate(&self) -> (t: Type)
        ensures
            t@ == self@,
    {
        Type { identifier: self.identifier.clone(), signed: self.signed, size: self.size }
    }
}

impl TypeDec {
    /// A copy of this declared type.
    pub fn duplicate(&self) -> (t: TypeDec)
        ensures
            t@ == self@,
    {
        TypeDec {
            base_type: self.base_type.duplicate(),
            pointer: self.pointer,
            dimensions: copy_dims(&self.dimensions),
        }
    }
}

impl Par {
    /// A copy of this field.
    pub fn duplicate(&self) -> (p: Par)
        ensures
            p@ == self@,
    {
        Par { identifier: self.identifier.clone(), par_type: self.par_type.duplicate() }
    }
}

impl Ritual {
    /// A copy of this ritual.
    pub fn duplicate(&self) -> (r: Ritual)
        ensures
            r@ == self@,
    {
        let mut content: Vec<Par> = Vec::new();
        let mut i: usize = 0;
        while i < self.content.len()
            invariant
                i <= self.content.len(),
                content.len() == i,
                forall|j: int| 0 <= j < i ==> #[trigger] content@[j]@ == self.content@[j]@,
            decreases self.content.len() - i,
        {
            content.push(self.content[i].duplicate());
            i = i + 1;
        }
        assert(content@.map_values(|p: Par| p@) =~= self.content@.map_values(|p: Par| p@));
        Ritual { privacy: self.privacy, identifier: self.identifier.clone(), content }
    }
}

impl Attachment {
    /// A copy of this attachment.
    pub fn duplicate(&self) -> (a: Attachment)
        ensures
            a@ == self@,
    {
        Attachment {
            identifier: self.identifier.clone(),
            file_name: self.file_name.clone(),
            file_type: self.file_type,
            context: self.context,
        }
    }
}

} // verus!
