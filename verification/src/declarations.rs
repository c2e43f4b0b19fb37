use vstd::prelude::*;

use crate::ast::{
    attachments_of, rituals_of, Attachment, AttachmentModel, Expr, ExprType, File, FileType, Par,
    ParModel, Privacy, Ritual, RitualModel, Type, TypeDec, TypeDecModel, TypeModel,
};
use crate::literal::{hex_prefix_end, parse_i32_from, spec_parse_i32, strip_hex_prefix};
use crate::text::str_is;
use crate::todo::{table_record, table_wf, HolderModel, TodoKey, TodoModel, TodoTable, TypeHolder};
use crate::tree::{Node, ParseError, Rule};
use crate::types::{find_ritual, ritual_index, spec_type_shape, type_shape, TypeShape, TypeShapeModel};

verus! {

/// The file type that an extension names, without its dot.
pub open spec fn spec_file_type_named(name: Seq<char>) -> Option<FileType> {
    if name == "necr"@ {
        Some(FileType::Necr)
    } else if name == "wiza"@ {
        Some(FileType::Wiza)
    } else if name == "sorc"@ {
        Some(FileType::Sorc)
    } else if name == "hexy"@ {
        Some(FileType::Hexy)
    } else {
        None
    }
}

/// The file type that an extension names, without its dot.
pub fn file_type_named(name: &str) -> (r: Option<FileType>)
    ensures
        r == spec_file_type_named(name@),
{
    if str_is(name, "necr") {
        Some(FileType::Necr)
    } else if str_is(name, "wiza") {
        Some(FileType::Wiza)
    } else if str_is(name, "sorc") {
        Some(FileType::Sorc)
    } else if str_is(name, "hexy") {
        Some(FileType::Hexy)
    } else {
        None
    }
}

/// The attachment that an `attach` node declares: its children name the file
/// type, the file, and optionally the name the file is known by (by default
/// its own name).
pub open spec fn spec_attachment(node: Node) -> Result<AttachmentModel, ParseError> {
    let ch = node.children@;
    if ch.len() == 0 {
        Err(ParseError::MissingFileType)
    } else {
        match spec_file_type_named(ch[0].text@) {
            None => Err(ParseError::UnknownFileType),
            Some(ft) => if ch.len() < 2 {
                Err(ParseError::MissingFileName)
            } else {
                let name = ch[1].text@;
                let id = if ch.len() >= 3 {
                    ch[2].text@
                } else {
                    name
                };
                Ok(AttachmentModel { identifier: id, file_name: name, file_type: ft, context: 0 })
            },
        }
    }
}

/// Reads the attachment that an `attach` node declares: its file type, its
/// file's name, and the name it is known by (the file's name where none is
/// given). An attachment with no children is refused with `MissingFileType`,
/// one whose type is not `necr`, `wiza`, `sorc` or `hexy` with
/// `UnknownFileType`, and one with no file name with `MissingFileName`; no
/// file type is assumed.
pub fn parse_attachment(node: &Node) -> (r: Result<Attachment, ParseError>)
    ensures
        match r {
            Ok(a) => spec_attachment(*node) == Ok::<AttachmentModel, ParseError>(a@),
            Err(e) => spec_attachment(*node) == Err::<AttachmentModel, ParseError>(e),
        },
{
    let ch = &node.children;
    if ch.len() == 0 {
        return Err(ParseError::MissingFileType);
    }
    let file_type = match file_type_named(ch[0].text.as_str()) {
        Some(ft) => ft,
        None => return Err(ParseError::UnknownFileType),
    };
    if ch.len() < 2 {
        return Err(ParseError::MissingFileName);
    }
    let file_name = ch[1].text.clone();
    let identifier = if ch.len() >= 3 {
        ch[2].text.clone()
    } else {
        file_name.clone()
    };
    Ok(Attachment { identifier, file_name, file_type, context: 0 })
}

/// Records a field whose type names the ritual `prim` as pending for the ritual
/// `owner_id` of `file`: in `purt` where the owner is `forall`, in `prrt` where
/// it is `mine`.
pub fn parse_todo_type(
    identifier: String,
    prim: String,
    pointer: bool,
    dimensions: Vec<usize>,
    file: &File,
    owner_id: String,
    prrt: &mut TodoTable,
    purt: &mut TodoTable,
    privacy: Privacy,
)
    ensures
        ({
            let key = TodoKey {
                ritual: owner_id@,
                file_name: file.identifier@,
                file_type: file.file_type,
            };
            let h = HolderModel {
                identifier: identifier@,
                prim: prim@,
                pointer,
                dimensions: dimensions@,
            };
            &&& privacy == Privacy::Forall ==> final(purt)@ == table_record(old(purt)@, key, h)
                && final(prrt)@ == old(prrt)@
            &&& privacy == Privacy::Mine ==> final(prrt)@ == table_record(old(prrt)@, key, h)
                && final(purt)@ == old(purt)@
        }),
        table_wf(old(purt)@) ==> table_wf(final(purt)@),
        table_wf(old(prrt)@) ==> table_wf(final(prrt)@),
{
    let p = TypeHolder { identifier, prim, pointer, dimensions };
    match privacy {
        Privacy::Forall => purt.record(owner_id, file.identifier.clone(), file.file_type, p),
        Privacy::Mine => prrt.record(owner_id, file.identifier.clone(), file.file_type, p),
    }
}

/// The models of a sequence of fields.
pub open spec fn pars_of(pars: Seq<Par>) -> Seq<ParModel> {
    pars.map_values(|p: Par| p@)
}

/// How far a ritual declaration has been read: its privacy, name and fields so
/// far, and the two tables of pending fields.
pub struct RitualState {
    pub privacy: Privacy,
    pub identifier: Seq<char>,
    pub pars: Seq<ParModel>,
    pub purt: Seq<TodoModel>,
    pub prrt: Seq<TodoModel>,
}

/// A ritual declaration before anything of it is read: `forall`, unnamed, no fields.
pub open spec fn ritual_start(purt: Seq<TodoModel>, prrt: Seq<TodoModel>) -> RitualState {
    RitualState { privacy: Privacy::Forall, identifier: Seq::empty(), pars: Seq::empty(), purt, prrt }
}

/// The privacy that a privacy node's text names: `mine`, or else `forall`.
pub open spec fn privacy_named(text: Seq<char>) -> Privacy {
    if text == "mine"@ {
        Privacy::Mine
    } else {
        Privacy::Forall
    }
}

/// Reading one field named `id` of type node `tnode`. A field of a known type is
/// added to the ritual. A field whose type names a ritual is recorded as pending
/// for the ritual being read (keyed by its name so far and the file), in `prrt`
/// for a `forall` ritual and in `purt` for a `mine` one; a field that holds the
/// ritual itself other than through a pointer is an error.
pub open spec fn spec_field(
    id: Seq<char>,
    tnode: Node,
    st: RitualState,
    file_name: Seq<char>,
    file_type: FileType,
) -> Result<RitualState, ParseError> {
    match spec_type_shape(tnode, ExprType::Empty) {
        Err(e) => Err(e),
        Ok(TypeShapeModel::Known(t)) => Ok(
            RitualState {
                privacy: st.privacy,
                identifier: st.identifier,
                pars: st.pars.push(ParModel { identifier: id, par_type: t }),
                purt: st.purt,
                prrt: st.prrt,
            },
        ),
        Ok(TypeShapeModel::Named(name, p, d)) => if name == st.identifier && !p {
            Err(ParseError::InfiniteRitual)
        } else {
            let key = TodoKey { ritual: st.identifier, file_name, file_type };
            let h = HolderModel { identifier: id, prim: name, pointer: p, dimensions: d };
            if st.privacy == Privacy::Forall {
                Ok(
                    RitualState {
                        privacy: st.privacy,
                        identifier: st.identifier,
                        pars: st.pars,
                        purt: st.purt,
                        prrt: table_record(st.prrt, key, h),
                    },
                )
            } else {
                Ok(
                    RitualState {
                        privacy: st.privacy,
                        identifier: st.identifier,
                        pars: st.pars,
                        purt: table_record(st.purt, key, h),
                        prrt: st.prrt,
                    },
                )
            }
        },
    }
}

/// Reading the children of a `ritual_pars` node from the one at `m` on: a field
/// name followed by its type node, or a type node alone (an unnamed field),
/// until a node of another kind or the end.
pub open spec fn spec_ritual_fields(
    children: Seq<Node>,
    m: int,
    st: RitualState,
    file_name: Seq<char>,
    file_type: FileType,
) -> Result<RitualState, ParseError>
    decreases children.len() - m,
{
    if m < 0 || m >= children.len() {
        Ok(st)
    } else if children[m].rule == Rule::element_ident {
        if m + 1 >= children.len() {
            Err(ParseError::MissingFieldType)
        } else {
            match spec_field(children[m].inner_text@, children[m + 1], st, file_name, file_type) {
                Err(e) => Err(e),
                Ok(st2) => spec_ritual_fields(children, m + 2, st2, file_name, file_type),
            }
        }
    } else if children[m].rule == Rule::typee {
        match spec_field(Seq::empty(), children[m], st, file_name, file_type) {
            Err(e) => Err(e),
            Ok(st2) => spec_ritual_fields(children, m + 1, st2, file_name, file_type),
        }
    } else {
        Ok(st)
    }
}

/// Reading the children of a `ritual_dec` node from the one at `k` on, in
/// order: a privacy node sets the privacy, an identifier the name, a
/// `ritual_pars` node adds its fields; other nodes are passed over.
pub open spec fn spec_ritual(
    children: Seq<Node>,
    k: int,
    st: RitualState,
    file_name: Seq<char>,
    file_type: FileType,
) -> Result<RitualState, ParseError>
    decreases children.len() - k,
{
    if k < 0 || k >= children.len() {
        Ok(st)
    } else {
        let c = children[k];
        let next = if c.rule == Rule::privacy {
            Ok(
                RitualState {
                    privacy: privacy_named(c.text@),
                    identifier: st.identifier,
                    pars: st.pars,
                    purt: st.purt,
                    prrt: st.prrt,
                },
            )
        } else if c.rule == Rule::identifier {
            Ok(
                RitualState {
                    privacy: st.privacy,
                    identifier: c.text@,
                    pars: st.pars,
                    purt: st.purt,
                    prrt: st.prrt,
                },
            )
        } else if c.rule == Rule::ritual_pars {
            spec_ritual_fields(c.children@, 0, st, file_name, file_type)
        } else {
            Ok(st)
        };
        match next {
            Err(e) => Err(e),
            Ok(st2) => spec_ritual(children, k + 1, st2, file_name, file_type),
        }
    }
}

/// The state that the variables of a ritual being read stand for.
pub open spec fn ritual_state(
    privacy: Privacy,
    identifier: Seq<char>,
    pars: Seq<Par>,
    purt: Seq<TodoModel>,
    prrt: Seq<TodoModel>,
) -> RitualState {
    RitualState { privacy, identifier, pars: pars_of(pars), purt, prrt }
}

/// Reads one field of a ritual.
fn parse_field(
    id: String,
    tnode: &Node,
    owner_id: &String,
    privacy: Privacy,
    pars: &mut Vec<Par>,
    file: &File,
    purt: &mut TodoTable,
    prrt: &mut TodoTable,
) -> (r: Result<(), ParseError>)
    ensures
        ({
            let st = ritual_state(privacy, owner_id@, old(pars)@, old(purt)@, old(prrt)@);
            let spec = spec_field(id@, *tnode, st, file.identifier@, file.file_type);
            match r {
                Ok(()) => spec == Ok::<RitualState, ParseError>(
                    ritual_state(privacy, owner_id@, final(pars)@, final(purt)@, final(prrt)@),
                ),
                Err(e) => spec == Err::<RitualState, ParseError>(e),
            }
        }),
        table_wf(old(purt)@) ==> table_wf(final(purt)@),
        table_wf(old(prrt)@) ==> table_wf(final(prrt)@),
{
    let ghost p0 = pars@;
    match type_shape(tnode, &ExprType::Empty)? {
        TypeShape::Known(t) => {
            let ghost tm = t@;
            pars.push(Par { identifier: id, par_type: t });
            assert(pars_of(pars@) =~= pars_of(p0).push(ParModel { identifier: id@, par_type: tm }));
            Ok(())
        },
        TypeShape::Named { name, pointer, dimensions } => {
            if str_is(owner_id.as_str(), name.as_str()) && !pointer {
                return Err(ParseError::InfiniteRitual);
            }
            parse_todo_type(
                id,
                name,
                pointer,
                dimensions,
                file,
                owner_id.clone(),
                purt,
                prrt,
                privacy,
            );
            Ok(())
        },
    }
}

/// Reads the fields that a `ritual_pars` node lists.
fn parse_fields(
    c: &Node,
    identifier: &String,
    privacy: Privacy,
    pars: &mut Vec<Par>,
    file: &File,
    purt: &mut TodoTable,
    prrt: &mut TodoTable,
) -> (r: Result<(), ParseError>)
    ensures
        ({
            let st = ritual_state(privacy, identifier@, old(pars)@, old(purt)@, old(prrt)@);
            let spec = spec_ritual_fields(c.children@, 0, st, file.identifier@, file.file_type);
            match r {
                Ok(()) => spec == Ok::<RitualState, ParseError>(
                    ritual_state(privacy, identifier@, final(pars)@, final(purt)@, final(prrt)@),
                ),
                Err(e) => spec == Err::<RitualState, ParseError>(e),
            }
        }),
        table_wf(old(purt)@) ==> table_wf(final(purt)@),
        table_wf(old(prrt)@) ==> table_wf(final(prrt)@),
{
    let ghost fch = c.children@;
    let ghost fname = file.identifier@;
    let ghost ftype = file.file_type;
    let ghost fspec = spec_ritual_fields(
        fch,
        0,
        ritual_state(privacy, identifier@, pars@, purt@, prrt@),
        fname,
        ftype,
    );
    let mut m: usize = 0;
    while m < c.children.len()
        invariant
            fch == c.children@,
            fname == file.identifier@,
            ftype == file.file_type,
            m <= fch.len(),
            fspec == spec_ritual_fields(
                fch,
                0,
                ritual_state(privacy, identifier@, old(pars)@, old(purt)@, old(prrt)@),
                fname,
                ftype,
            ),
            fspec == spec_ritual_fields(
                fch,
                m as int,
                ritual_state(privacy, identifier@, pars@, purt@, prrt@),
                fname,
                ftype,
            ),
            table_wf(old(purt)@) ==> table_wf(purt@),
            table_wf(old(prrt)@) ==> table_wf(prrt@),
        decreases fch.len() - m,
    {
        let f = &c.children[m];
        if f.rule == Rule::element_ident {
            if m + 1 >= c.children.len() {
                return Err(ParseError::MissingFieldType);
            }
            parse_field(
                f.inner_text.clone(),
                &c.children[m + 1],
                identifier,
                privacy,
                pars,
                file,
                purt,
                prrt,
            )?;
            m = m + 2;
        } else if f.rule == Rule::typee {
            parse_field(String::new(), f, identifier, privacy, pars, file, purt, prrt)?;
            m = m + 1;
        } else {
            m = c.children.len();
        }
    }
    Ok(())
}

/// Reads a ritual declaration of `file`, recording the fields whose type names
/// a ritual as pending (see `spec_field`). A field name with no type after it
/// is refused with `MissingFieldType`, and a field that holds the ritual itself
/// other than through a pointer with `InfiniteRitual` (its size would be
/// infinite); a pointer to the ritual itself is recorded as pending.
pub fn parse_ritual(node: &Node, file: &File, purt: &mut TodoTable, prrt: &mut TodoTable) -> (r: Result<
    Ritual,
    ParseError,
>)
    ensures
        ({
            let spec = spec_ritual(
                node.children@,
                0,
                ritual_start(old(purt)@, old(prrt)@),
                file.identifier@,
                file.file_type,
            );
            match r {
                Ok(rit) => spec matches Ok(st) && rit@ == (RitualModel {
                    privacy: st.privacy,
                    identifier: st.identifier,
                    content: st.pars,
                }) && final(purt)@ == st.purt && final(prrt)@ == st.prrt,
                Err(e) => spec == Err::<RitualState, ParseError>(e),
            }
        }),
        table_wf(old(purt)@) ==> table_wf(final(purt)@),
        table_wf(old(prrt)@) ==> table_wf(final(prrt)@),
{
    let ghost ch = node.children@;
    let ghost fname = file.identifier@;
    let ghost ftype = file.file_type;
    let ghost spec0 = spec_ritual(ch, 0, ritual_start(purt@, prrt@), fname, ftype);
    let mut privacy = Privacy::Forall;
    let mut identifier = String::new();
    let mut pars: Vec<Par> = Vec::new();
    let mut k: usize = 0;
    assert(pars_of(pars@) =~= Seq::<ParModel>::empty());
    while k < node.children.len()
        invariant
            ch == node.children@,
            fname == file.identifier@,
            ftype == file.file_type,
            k <= ch.len(),
            spec0 == spec_ritual(ch, 0, ritual_start(old(purt)@, old(prrt)@), fname, ftype),
            spec0 == spec_ritual(
                ch,
                k as int,
                ritual_state(privacy, identifier@, pars@, purt@, prrt@),
                fname,
                ftype,
            ),
            table_wf(old(purt)@) ==> table_wf(purt@),
            table_wf(old(prrt)@) ==> table_wf(prrt@),
        decreases ch.len() - k,
    {
        let c = &node.children[k];
        if c.rule == Rule::privacy {
            privacy = if str_is(c.text.as_str(), "mine") {
                Privacy::Mine
            } else {
                Privacy::Forall
            };
        } else if c.rule == Rule::identifier {
            identifier = c.text.clone();
        } else if c.rule == Rule::ritual_pars {
            parse_fields(c, &identifier, privacy, &mut pars, file, purt, prrt)?;
        }
        k = k + 1;
    }
    Ok(Ritual { privacy, identifier, content: pars })
}

/// The index of the first attachment known as `id`, if any.
pub open spec fn attachment_index(atts: Seq<AttachmentModel>, id: Seq<char>) -> Option<int>
    decreases atts.len(),
{
    if atts.len() == 0 {
        None
    } else {
        match attachment_index(atts.drop_last(), id) {
            Some(i) => Some(i),
            None => if atts.last().identifier == id {
                Some(atts.len() - 1)
            } else {
                None
            },
        }
    }
}

proof fn lemma_attachment_index_prefix(atts: Seq<AttachmentModel>, id: Seq<char>, k: int)
    requires
        0 <= k <= atts.len(),
    ensures
        attachment_index(atts.take(k), id) is Some ==> attachment_index(atts, id)
            == attachment_index(atts.take(k), id),
        attachment_index(atts, id) matches Some(i) ==> 0 <= i < atts.len(),
    decreases atts.len(),
{
    if atts.len() > 0 {
        lemma_attachment_index_prefix(atts.drop_last(), id, if k == atts.len() {
            k - 1
        } else {
            k
        });
    }
    if k == atts.len() {
        assert(atts.take(k) =~= atts);
    } else {
        assert(atts.drop_last().take(k) =~= atts.take(k));
    }
}

/// The index of the first attachment known as `id`, if any.
pub fn find_attachment(atts: &Vec<Attachment>, id: &str) -> (r: Option<usize>)
    ensures
        r is None <==> attachment_index(attachments_of(atts@), id@) is None,
        r matches Some(i) ==> attachment_index(attachments_of(atts@), id@) == Some(i as int) && i
            < atts.len(),
{
    let ghost a = attachments_of(atts@);
    proof {
        lemma_attachment_index_prefix(a, id@, a.len() as int);
    }
    let mut i: usize = 0;
    assert(a.take(0) =~= Seq::<AttachmentModel>::empty());
    while i < atts.len()
        invariant
            a == attachments_of(atts@),
            i <= a.len(),
            attachment_index(a.take(i as int), id@) is None,
        decreases a.len() - i,
    {
        assert(a.take(i + 1).drop_last() =~= a.take(i as int));
        if str_is(atts[i].identifier.as_str(), id) {
            assert(attachment_index(a.take(i + 1), id@) == Some(i as int));
            proof {
                lemma_attachment_index_prefix(a, id@, i + 1);
            }
            return Some(i);
        }
        i = i + 1;
    }
    assert(a.take(a.len() as int) =~= a);
    None
}

/// The attachments with `a` added under its name: it takes the place of the
/// attachment of that name, or is added at the end.
pub open spec fn insert_attachment(atts: Seq<AttachmentModel>, a: AttachmentModel) -> Seq<
    AttachmentModel,
> {
    match attachment_index(atts, a.identifier) {
        Some(i) => atts.update(i, a),
        None => atts.push(a),
    }
}

/// The rituals with `r` added under its name: it takes the place of the ritual
/// of that name, or is added at the end.
pub open spec fn insert_ritual(rs: Seq<RitualModel>, r: RitualModel) -> Seq<RitualModel> {
    match ritual_index(rs, r.identifier) {
        Some(i) => rs.update(i, r),
        None => rs.push(r),
    }
}

/// The declarations of a file read so far, and the two tables of pending fields.
pub struct FileDecls {
    pub attachments: Seq<AttachmentModel>,
    pub rituals: Seq<RitualModel>,
    pub purt: Seq<TodoModel>,
    pub prrt: Seq<TodoModel>,
}

/// Reading the top-level nodes of a file from the one at `k` on: each
/// attachment and each ritual declaration is added under its name; other
/// nodes are left for later.
pub open spec fn spec_pre_parse(
    nodes: Seq<Node>,
    k: int,
    st: FileDecls,
    file_name: Seq<char>,
    file_type: FileType,
) -> Result<FileDecls, ParseError>
    decreases nodes.len() - k,
{
    if k < 0 || k >= nodes.len() {
        Ok(st)
    } else {
        let c = nodes[k];
        let next = if c.rule == Rule::attach {
            match spec_attachment(c) {
                Err(e) => Err(e),
                Ok(a) => Ok(
                    FileDecls {
                        attachments: insert_attachment(st.attachments, a),
                        rituals: st.rituals,
                        purt: st.purt,
                        prrt: st.prrt,
                    },
                ),
            }
        } else if c.rule == Rule::ritual_dec {
            match spec_ritual(c.children@, 0, ritual_start(st.purt, st.prrt), file_name, file_type) {
                Err(e) => Err(e),
                Ok(rs) => Ok(
                    FileDecls {
                        attachments: st.attachments,
                        rituals: insert_ritual(
                            st.rituals,
                            RitualModel {
                                privacy: rs.privacy,
                                identifier: rs.identifier,
                                content: rs.pars,
                            },
                        ),
                        purt: rs.purt,
                        prrt: rs.prrt,
                    },
                ),
            }
        } else {
            Ok(st)
        };
        match next {
            Err(e) => Err(e),
            Ok(st2) => spec_pre_parse(nodes, k + 1, st2, file_name, file_type),
        }
    }
}

/// The declarations that the variables of a file being read stand for.
pub open spec fn file_decls(file: File, purt: Seq<TodoModel>, prrt: Seq<TodoModel>) -> FileDecls {
    FileDecls {
        attachments: attachments_of(file.attachments@),
        rituals: rituals_of(file.rituals@),
        purt,
        prrt,
    }
}

/// Reads the attachments and ritual declarations among the top-level nodes of a
/// file into it, recording the ritual fields whose type names a ritual as
/// pending. The file's name, type, spells and expressions are left as they are.
pub fn pre_parse(nodes: &Vec<Node>, file: &mut File, purt: &mut TodoTable, prrt: &mut TodoTable) -> (r:
    Result<(), ParseError>)
    ensures
        ({
            let spec = spec_pre_parse(
                nodes@,
                0,
                file_decls(*old(file), old(purt)@, old(prrt)@),
                old(file).identifier@,
                old(file).file_type,
            );
            match r {
                Ok(()) => spec == Ok::<FileDecls, ParseError>(
                    file_decls(*final(file), final(purt)@, final(prrt)@),
                ),
                Err(e) => spec == Err::<FileDecls, ParseError>(e),
            }
        }),
        final(file).identifier == old(file).identifier,
        final(file).file_type == old(file).file_type,
        final(file).spells == old(file).spells,
        final(file).content == old(file).content,
        table_wf(old(purt)@) ==> table_wf(final(purt)@),
        table_wf(old(prrt)@) ==> table_wf(final(prrt)@),
{
    let ghost ns = nodes@;
    let ghost fname = file.identifier@;
    let ghost ftype = file.file_type;
    let ghost spec0 = spec_pre_parse(ns, 0, file_decls(*file, purt@, prrt@), fname, ftype);
    let mut k: usize = 0;
    while k < nodes.len()
        invariant
            ns == nodes@,
            fname == old(file).identifier@,
            ftype == old(file).file_type,
            spec0 == spec_pre_parse(
                ns,
                0,
                file_decls(*old(file), old(purt)@, old(prrt)@),
                fname,
                ftype,
            ),
            k <= ns.len(),
            spec0 == spec_pre_parse(ns, k as int, file_decls(*file, purt@, prrt@), fname, ftype),
            file.identifier == old(file).identifier,
            file.file_type == old(file).file_type,
            file.spells == old(file).spells,
            file.content == old(file).content,
            table_wf(old(purt)@) ==> table_wf(purt@),
            table_wf(old(prrt)@) ==> table_wf(prrt@),
        decreases ns.len() - k,
    {
        let c = &nodes[k];
        if c.rule == Rule::attach {
            let a = parse_attachment(c)?;
            let ghost atts0 = attachments_of(file.attachments@);
            let ghost am = a@;
            match find_attachment(&file.attachments, a.identifier.as_str()) {
                Some(i) => {
                    file.attachments.set(i, a);
                    assert(attachments_of(file.attachments@) =~= atts0.update(i as int, am));
                },
                None => {
                    file.attachments.push(a);
                    assert(attachments_of(file.attachments@) =~= atts0.push(am));
                },
            }
        } else if c.rule == Rule::ritual_dec {
            let rit = parse_ritual(c, &*file, purt, prrt)?;
            let ghost rs0 = rituals_of(file.rituals@);
            let ghost rm = rit@;
            match find_ritual(&file.rituals, rit.identifier.as_str()) {
                Some(i) => {
                    file.rituals.set(i, rit);
                    assert(rituals_of(file.rituals@) =~= rs0.update(i as int, rm));
                },
                None => {
                    file.rituals.push(rit);
                    assert(rituals_of(file.rituals@) =~= rs0.push(rm));
                },
            }
        }
        k = k + 1;
    }
    Ok(())
}

/// The declared type of an integer literal: a four-byte signed integer.
pub open spec fn integer_literal_type() -> TypeDecModel {
    TypeDecModel {
        base_type: TypeModel { identifier: "i"@, signed: true, size: 4 },
        pointer: false,
        dimensions: Seq::empty(),
    }
}

/// The declared type of a float literal: a four-byte signed float.
pub open spec fn float_literal_type() -> TypeDecModel {
    TypeDecModel {
        base_type: TypeModel { identifier: "f"@, signed: true, size: 4 },
        pointer: false,
        dimensions: Seq::empty(),
    }
}

/// Reads a literal expression standing in `context`: a hexadecimal literal
/// (after any leading `0x`) or a decimal integer literal reads as an `i32`;
/// a float literal takes the bit pattern of the `f32` that its text reads as,
/// which the caller passes as `float_value` (`None` where the text does not
/// read as one). Any other expression is refused with `UnsupportedExpression`,
/// and a literal that is no `i32` with `BadHexLiteral` or `BadIntegerLiteral`.
pub fn parse_expr(context: usize, node: &Node, float_value: Option<u32>) -> (r: Result<Expr, ParseError>)
    ensures
        node.rule == Rule::hex_literal ==> match spec_parse_i32(strip_hex_prefix(node.text@), 16) {
            Some(v) => r matches Ok(e) && e.context == context && e.expr_type@
                == integer_literal_type() && e.exp == ExprType::Integer(v),
            None => r == Err::<Expr, ParseError>(ParseError::BadHexLiteral),
        },
        node.rule == Rule::integer_literal ==> match spec_parse_i32(node.text@, 10) {
            Some(v) => r matches Ok(e) && e.context == context && e.expr_type@
                == integer_literal_type() && e.exp == ExprType::Integer(v),
            None => r == Err::<Expr, ParseError>(ParseError::BadIntegerLiteral),
        },
        node.rule == Rule::float_literal ==> match float_value {
            Some(b) => r matches Ok(e) && e.context == context && e.expr_type@
                == float_literal_type() && e.exp == ExprType::Float(b),
            None => r == Err::<Expr, ParseError>(ParseError::BadFloatLiteral),
        },
        node.rule != Rule::hex_literal && node.rule != Rule::integer_literal && node.rule
            != Rule::float_literal ==> r == Err::<Expr, ParseError>(ParseError::UnsupportedExpression),
{
    if node.rule == Rule::hex_literal {
        let raw = node.text.as_str();
        let start = hex_prefix_end(raw);
        match parse_i32_from(raw, start, 16) {
            Some(v) => {
                let t = TypeDec { base_type: Type::integer(4), pointer: false, dimensions: Vec::new() };
                Ok(Expr { context, expr_type: t, exp: ExprType::Integer(v) })
            },
            None => Err(ParseError::BadHexLiteral),
        }
    } else if node.rule == Rule::integer_literal {
        let raw = node.text.as_str();
        assert(raw@.skip(0) =~= raw@);
        match parse_i32_from(raw, 0, 10) {
            Some(v) => {
                let t = TypeDec { base_type: Type::integer(4), pointer: false, dimensions: Vec::new() };
                Ok(Expr { context, expr_type: t, exp: ExprType::Integer(v) })
            },
            None => Err(ParseError::BadIntegerLiteral),
        }
    } else if node.rule == Rule::float_literal {
        match float_value {
            Some(b) => {
                let t = TypeDec { base_type: Type::float(4), pointer: false, dimensions: Vec::new() };
                Ok(Expr { context, expr_type: t, exp: ExprType::Float(b) })
            },
            None => Err(ParseError::BadFloatLiteral),
        }
    } else {
        Err(ParseError::UnsupportedExpression)
    }
}

} // verus!
