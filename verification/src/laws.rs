use vstd::prelude::*;

use crate::ast::{
    fields_size, files_of, is_primitive_name, primitive_model, AttachmentModel, ExprType, File,
    FileModel, FileType, ParModel, Privacy, RitualModel, TypeModel,
};
use crate::declarations::{insert_ritual, spec_attachment, spec_field, RitualState};
use crate::files::files_with;
use crate::literal::{spec_parse_usize, strip_hex_prefix};
use crate::resolve::{drop_fields, replace_field};
use crate::todo::{lemma_record_then_find, table_index, HolderModel, TodoKey};
use crate::tree::{Node, Rule};
use crate::types::{
    file_index, lemma_file_index_facts, lemma_ritual_index_facts, ritual_in_attachments,
    ritual_index, spec_dims, spec_type_shape, TypeShapeModel,
};

verus! {

/// Each primitive has a long and a short name, and both denote the same type
/// at every size.
pub proof fn law_primitive_aliases(size: usize)
    ensures
        primitive_model("bool"@, size) == primitive_model("b"@, size),
        primitive_model("int"@, size) == primitive_model("i"@, size),
        primitive_model("float"@, size) == primitive_model("f"@, size),
        primitive_model("fixed"@, size) == primitive_model("fx"@, size),
        primitive_model("uint"@, size) == primitive_model("ui"@, size),
        primitive_model("ufloat"@, size) == primitive_model("uf"@, size),
        primitive_model("ufixed"@, size) == primitive_model("ufx"@, size),
        primitive_model("bool"@, size) is Some,
        primitive_model("int"@, size) is Some,
        primitive_model("float"@, size) is Some,
        primitive_model("fixed"@, size) is Some,
        primitive_model("uint"@, size) is Some,
        primitive_model("ufloat"@, size) is Some,
        primitive_model("ufixed"@, size) is Some,
{
    reveal_strlit("bool");
    assert("bool"@.len() == 4 && "bool"@[0] == 'b' && "bool"@[1] == 'o' && "bool"@[2] == 'o' && "bool"@[3] == 'l');
    reveal_strlit("b");
    assert("b"@.len() == 1 && "b"@[0] == 'b');
    reveal_strlit("int");
    assert("int"@.len() == 3 && "int"@[0] == 'i' && "int"@[1] == 'n' && "int"@[2] == 't');
    reveal_strlit("i");
    assert("i"@.len() == 1 && "i"@[0] == 'i');
    reveal_strlit("float");
    assert("float"@.len() == 5 && "float"@[0] == 'f' && "float"@[1] == 'l' && "float"@[2] == 'o' && "float"@[3] == 'a' && "float"@[4] == 't');
    reveal_strlit("f");
    assert("f"@.len() == 1 && "f"@[0] == 'f');
    reveal_strlit("fixed");
    assert("fixed"@.len() == 5 && "fixed"@[0] == 'f' && "fixed"@[1] == 'i' && "fixed"@[2] == 'x' && "fixed"@[3] == 'e' && "fixed"@[4] == 'd');
    reveal_strlit("fx");
    assert("fx"@.len() == 2 && "fx"@[0] == 'f' && "fx"@[1] == 'x');
    reveal_strlit("uint");
    assert("uint"@.len() == 4 && "uint"@[0] == 'u' && "uint"@[1] == 'i' && "uint"@[2] == 'n' && "uint"@[3] == 't');
    reveal_strlit("ui");
    assert("ui"@.len() == 2 && "ui"@[0] == 'u' && "ui"@[1] == 'i');
    reveal_strlit("ufloat");
    assert("ufloat"@.len() == 6 && "ufloat"@[0] == 'u' && "ufloat"@[1] == 'f' && "ufloat"@[2] == 'l' && "ufloat"@[3] == 'o' && "ufloat"@[4] == 'a' && "ufloat"@[5] == 't');
    reveal_strlit("uf");
    assert("uf"@.len() == 2 && "uf"@[0] == 'u' && "uf"@[1] == 'f');
    reveal_strlit("ufixed");
    assert("ufixed"@.len() == 6 && "ufixed"@[0] == 'u' && "ufixed"@[1] == 'f' && "ufixed"@[2] == 'i' && "ufixed"@[3] == 'x' && "ufixed"@[4] == 'e' && "ufixed"@[5] == 'd');
    reveal_strlit("ufx");
    assert("ufx"@.len() == 3 && "ufx"@[0] == 'u' && "ufx"@[1] == 'f' && "ufx"@[2] == 'x');
}

/// The size of a list of fields is the sum of the sizes of its parts: a
/// ritual's size does not depend on how its fields are grouped.
pub proof fn law_fields_size_additive(a: Seq<ParModel>, b: Seq<ParModel>)
    ensures
        fields_size(a + b) == fields_size(a) + fields_size(b),
    decreases b.len(),
{
    if b.len() == 0 {
        assert(a + b =~= a);
    } else {
        law_fields_size_additive(a, b.drop_last());
        assert((a + b).drop_last() =~= a + b.drop_last());
        assert((a + b).last() == b.last());
    }
}

proof fn lemma_drop_fields_idempotent(c: Seq<ParModel>, id: Seq<char>, prim: Seq<char>)
    ensures
        drop_fields(drop_fields(c, id, prim), id, prim) == drop_fields(c, id, prim),
    decreases c.len(),
{
    if c.len() > 0 {
        lemma_drop_fields_idempotent(c.drop_last(), id, prim);
        let rest = drop_fields(c.drop_last(), id, prim);
        let x = c.last();
        if !(x.identifier == id && x.par_type.base_type.identifier == prim) {
            assert(rest.push(x).drop_last() =~= rest);
        }
    }
}

/// Resolving a pending field a second time, to the same ritual type, leaves
/// the fields as resolving it once does.
pub proof fn law_replace_field_idempotent(c: Seq<ParModel>, h: HolderModel, t: TypeModel)
    requires
        t.identifier == h.prim,
    ensures
        replace_field(replace_field(c, h, t), h, t) == replace_field(c, h, t),
{
    let once = replace_field(c, h, t);
    assert(once.drop_last() =~= drop_fields(c, h.identifier, h.prim));
    lemma_drop_fields_idempotent(c, h.identifier, h.prim);
}

/// Taking every leading `0x` off twice takes off as much as doing it once.
pub proof fn law_strip_hex_prefix_idempotent(s: Seq<char>)
    ensures
        strip_hex_prefix(strip_hex_prefix(s)) == strip_hex_prefix(s),
    decreases s.len(),
{
    if s.len() >= 2 && s[0] == '0' && s[1] == 'x' {
        law_strip_hex_prefix_idempotent(s.skip(2));
    }
}

/// After a file is added to the loaded files, looking up its name and type
/// finds it.
pub proof fn law_insert_file_then_find(fs: Seq<File>, f: File)
    ensures
        ({
            let r = files_with(fs, f);
            file_index(files_of(r), f.identifier@, f.file_type) matches Some(i) && r[i] == f
        }),
{
    let r = files_with(fs, f);
    crate::types::lemma_file_index_facts(files_of(fs), f.identifier@, f.file_type);
    crate::types::lemma_file_index_facts(files_of(r), f.identifier@, f.file_type);
    match file_index(files_of(fs), f.identifier@, f.file_type) {
        Some(i) => {
            assert(files_of(r)[i] == f@);
            if let Some(k) = file_index(files_of(r), f.identifier@, f.file_type) {
                if k < i {
                    assert(files_of(r)[k] == files_of(fs)[k]);
                }
            }
        },
        None => {
            assert(files_of(r)[fs.len() as int] == f@);
            if let Some(k) = file_index(files_of(r), f.identifier@, f.file_type) {
                if k < fs.len() {
                    assert(files_of(r)[k] == files_of(fs)[k]);
                }
            }
        },
    }
}

/// After a ritual is added to a file's rituals, looking up its name finds it.
pub proof fn law_insert_ritual_then_find(rs: Seq<RitualModel>, r: RitualModel)
    ensures
        ({
            let n = insert_ritual(rs, r);
            ritual_index(n, r.identifier) matches Some(i) && n[i] == r
        }),
{
    crate::types::lemma_ritual_index_facts(rs, r.identifier);
    let n = insert_ritual(rs, r);
    crate::types::lemma_ritual_index_facts(n, r.identifier);
    match ritual_index(rs, r.identifier) {
        Some(i) => {
            assert(n[i] == r);
            if let Some(k) = ritual_index(n, r.identifier) {
                if k < i {
                    assert(n[k] == rs[k]);
                }
            }
        },
        None => {
            assert(n[rs.len() as int] == r);
            if let Some(k) = ritual_index(n, r.identifier) {
                if k < rs.len() {
                    assert(n[k] == rs[k]);
                }
            }
        },
    }
}

/// A primitive written with a bit count takes that many bits in bytes: for
/// every bit count, the type that `[primitive p, integer_literal n]` writes is
/// the primitive `p` of `n / 8` bytes, neither a pointer nor an array.
pub proof fn law_sized_primitive_takes_its_bits(node: Node, expr: ExprType, bits: usize)
    requires
        node.children@.len() == 2,
        node.children@[0].rule == Rule::primitive,
        is_primitive_name(node.children@[0].text@),
        node.children@[1].rule == Rule::integer_literal,
        spec_parse_usize(node.children@[1].text@) == Some(bits),
    ensures
        spec_type_shape(node, expr) matches Ok(TypeShapeModel::Known(t)) && t.base_type.size == bits / 8
            && primitive_model(node.children@[0].text@, (bits / 8) as usize) == Some(t.base_type)
            && !t.pointer && t.dimensions.len() == 0,
{
}

/// Whether the loaded file that `a` names declares a ritual named `name`.
pub open spec fn declares(files: Seq<FileModel>, a: AttachmentModel, name: Seq<char>) -> bool {
    file_index(files, a.file_name, a.file_type) matches Some(fi) && ritual_index(files[fi].rituals, name) is Some
}

/// Looking a ritual up through attachments that are all loaded finds the one
/// of the first attached file that declares it, however many attached files
/// before it declare none.
pub proof fn law_attachment_lookup_finds_first(
    atts: Seq<AttachmentModel>,
    files: Seq<FileModel>,
    name: Seq<char>,
    j: int,
)
    requires
        forall|k: int| 0 <= k < atts.len() ==> file_index(files, (#[trigger] atts[k]).file_name, atts[k].file_type) is Some,
        0 <= j < atts.len(),
        declares(files, atts[j], name),
        forall|k: int| 0 <= k < j ==> !declares(files, #[trigger] atts[k], name),
    ensures
        ({
            let fi = file_index(files, atts[j].file_name, atts[j].file_type).unwrap();
            let ri = ritual_index(files[fi].rituals, name).unwrap();
            &&& ritual_in_attachments(atts, files, name) == Ok::<RitualModel, crate::tree::ParseError>(files[fi].rituals[ri])
            &&& files[fi].rituals[ri].identifier == name
        }),
    decreases j,
{
    let fi = file_index(files, atts[j].file_name, atts[j].file_type).unwrap();
    lemma_ritual_index_facts(files[fi].rituals, name);
    if j > 0 {
        let rest = atts.drop_first();
        assert(file_index(files, atts[0].file_name, atts[0].file_type) is Some);
        assert(!declares(files, atts[0], name));
        assert forall|k: int| 0 <= k < rest.len() implies file_index(files, (#[trigger] rest[k]).file_name, rest[k].file_type) is Some by {
            assert(rest[k] == atts[k + 1]);
        }
        assert forall|k: int| 0 <= k < j - 1 implies !declares(files, #[trigger] rest[k], name) by {
            assert(rest[k] == atts[k + 1]);
        }
        assert(rest[j - 1] == atts[j]);
        law_attachment_lookup_finds_first(rest, files, name, j - 1);
    }
}

/// Looking a ritual up through attachments that are all loaded and of which
/// none declares it gives `UnknownRitual`.
pub proof fn law_attachment_lookup_unknown(atts: Seq<AttachmentModel>, files: Seq<FileModel>, name: Seq<char>)
    requires
        forall|k: int| 0 <= k < atts.len() ==> file_index(files, (#[trigger] atts[k]).file_name, atts[k].file_type) is Some,
        forall|k: int| 0 <= k < atts.len() ==> !declares(files, #[trigger] atts[k], name),
    ensures
        ritual_in_attachments(atts, files, name) == Err::<RitualModel, crate::tree::ParseError>(
            crate::tree::ParseError::UnknownRitual,
        ),
    decreases atts.len(),
{
    if atts.len() > 0 {
        let rest = atts.drop_first();
        assert(file_index(files, atts[0].file_name, atts[0].file_type) is Some);
        assert(!declares(files, atts[0], name));
        assert forall|k: int| 0 <= k < rest.len() implies file_index(files, (#[trigger] rest[k]).file_name, rest[k].file_type) is Some by {
            assert(rest[k] == atts[k + 1]);
        }
        assert forall|k: int| 0 <= k < rest.len() implies !declares(files, #[trigger] rest[k], name) by {
            assert(rest[k] == atts[k + 1]);
        }
        law_attachment_lookup_unknown(rest, files, name);
    }
}

/// A resolved field keeps what was written for it: the field added for the
/// pending field `h` has `h`'s name, pointer mark and dimensions, and only its
/// base type comes from the ritual it names; it is the last field.
pub proof fn law_resolved_field_keeps_holder(c: Seq<ParModel>, h: HolderModel, t: TypeModel)
    ensures
        replace_field(c, h, t).len() > 0,
        replace_field(c, h, t).last().identifier == h.identifier,
        replace_field(c, h, t).last().par_type.pointer == h.pointer,
        replace_field(c, h, t).last().par_type.dimensions == h.dimensions,
        replace_field(c, h, t).last().par_type.base_type == t,
{
}

/// A field whose type names a ritual is recorded as pending with everything
/// written in its type: the last pending field recorded for the ritual being
/// read (in `prrt` for a `forall` ritual, in `purt` for a `mine` one) has the
/// field's name, the named ritual, and the pointer mark and dimensions that
/// its type node writes; the ritual's fields and the other table stay.
pub proof fn law_pending_field_keeps_its_shape(
    id: Seq<char>,
    tnode: Node,
    st: RitualState,
    file_name: Seq<char>,
    file_type: FileType,
    name: Seq<char>,
    p: bool,
    d: Seq<usize>,
)
    requires
        spec_type_shape(tnode, ExprType::Empty) == Ok::<TypeShapeModel, crate::tree::ParseError>(
            TypeShapeModel::Named(name, p, d),
        ),
        !(name == st.identifier && !p),
    ensures
        spec_field(id, tnode, st, file_name, file_type) matches Ok(st2) && ({
            let key = TodoKey { ritual: st.identifier, file_name, file_type };
            let t = if st.privacy == Privacy::Forall {
                st2.prrt
            } else {
                st2.purt
            };
            &&& table_index(t, key) matches Some(i) && t[i].holders.last() == (HolderModel {
                identifier: id,
                prim: name,
                pointer: p,
                dimensions: d,
            })
            &&& st2.pars == st.pars
            &&& st.privacy == Privacy::Forall ==> st2.purt == st.purt
            &&& st.privacy != Privacy::Forall ==> st2.prrt == st.prrt
        }),
{
    let key = TodoKey { ritual: st.identifier, file_name, file_type };
    let h = HolderModel { identifier: id, prim: name, pointer: p, dimensions: d };
    lemma_record_then_find(st.prrt, key, h);
    lemma_record_then_find(st.purt, key, h);
}

/// An attachment's file type is the one its first word names: `necr`, `wiza`,
/// `sorc` and `hexy` give a `necr`, `wiza`, `sorc` and `hexy` file, named by
/// the second word, and known by the third word or else by its name.
pub proof fn law_attachment_file_type(node: Node)
    requires
        node.children@.len() >= 2,
    ensures
        ({
            let ch = node.children@;
            let known = if ch.len() >= 3 {
                ch[2].text@
            } else {
                ch[1].text@
            };
            &&& ch[0].text@ == "necr"@ ==> spec_attachment(node) == Ok::<AttachmentModel, crate::tree::ParseError>(
                AttachmentModel { identifier: known, file_name: ch[1].text@, file_type: FileType::Necr, context: 0 },
            )
            &&& ch[0].text@ == "wiza"@ ==> spec_attachment(node) == Ok::<AttachmentModel, crate::tree::ParseError>(
                AttachmentModel { identifier: known, file_name: ch[1].text@, file_type: FileType::Wiza, context: 0 },
            )
            &&& ch[0].text@ == "sorc"@ ==> spec_attachment(node) == Ok::<AttachmentModel, crate::tree::ParseError>(
                AttachmentModel { identifier: known, file_name: ch[1].text@, file_type: FileType::Sorc, context: 0 },
            )
            &&& ch[0].text@ == "hexy"@ ==> spec_attachment(node) == Ok::<AttachmentModel, crate::tree::ParseError>(
                AttachmentModel { identifier: known, file_name: ch[1].text@, file_type: FileType::Hexy, context: 0 },
            )
        }),
{
    reveal_strlit("necr");
    reveal_strlit("wiza");
    reveal_strlit("sorc");
    reveal_strlit("hexy");
    assert("necr"@.len() == 4 && "necr"@[0] == 'n');
    assert("wiza"@.len() == 4 && "wiza"@[0] == 'w');
    assert("sorc"@.len() == 4 && "sorc"@[0] == 's');
    assert("hexy"@.len() == 4 && "hexy"@[0] == 'h');
}

/// The dimensions of an array are the numbers its integer literals write, in order.
pub proof fn law_array_dims(children: Seq<Node>)
    requires
        forall|i: int| 0 <= i < children.len() ==> (#[trigger] children[i]).rule == Rule::integer_literal
            && spec_parse_usize(children[i].text@) is Some,
    ensures
        spec_dims(children) matches Ok(d) && d.len() == children.len() && forall|i: int|
            0 <= i < children.len() ==> Some(#[trigger] d[i]) == spec_parse_usize(children[i].text@),
    decreases children.len(),
{
    if children.len() > 0 {
        let rest = children.drop_last();
        assert forall|i: int| 0 <= i < rest.len() implies (#[trigger] rest[i]).rule == Rule::integer_literal
            && spec_parse_usize(rest[i].text@) is Some by {
            assert(rest[i] == children[i]);
        }
        law_array_dims(rest);
        let last = children[children.len() - 1];
        assert(last.rule == Rule::integer_literal && spec_parse_usize(last.text@) is Some);
    }
}

/// A ritual-typed field written with an array and no pointer mark is named by
/// its identifier, is no pointer, and has the array's dimensions.
pub proof fn law_named_array_shape(node: Node, expr: ExprType)
    requires
        node.children@.len() == 2,
        node.children@[0].rule == Rule::identifier,
        node.children@[1].rule == Rule::array,
        forall|i: int| 0 <= i < node.children@[1].children@.len() ==> (#[trigger] node.children@[1].children@[i]).rule
            == Rule::integer_literal && spec_parse_usize(node.children@[1].children@[i].text@) is Some,
    ensures
        spec_type_shape(node, expr) matches Ok(TypeShapeModel::Named(n, p, d)) && n == node.children@[0].text@
            && !p && d.len() == node.children@[1].children@.len() && forall|i: int|
            0 <= i < d.len() ==> Some(#[trigger] d[i]) == spec_parse_usize(node.children@[1].children@[i].text@),
{
    law_array_dims(node.children@[1].children@);
}

/// A primitive written without a size takes one byte for a bool and four
/// otherwise; `char` takes one byte; `string` takes one byte more than the
/// text of the expression it is declared for has characters.
pub proof fn law_unsized_type_sizes(node: Node, expr: ExprType)
    requires
        node.children@.len() == 1,
    ensures
        ({
            let c = node.children@[0];
            &&& c.rule == Rule::primitive && is_primitive_name(c.text@) ==> (spec_type_shape(node, expr) matches Ok(
                TypeShapeModel::Known(t),
            ) && t.base_type.size == (if c.text@ == "bool"@ || c.text@ == "b"@ {
                1usize
            } else {
                4usize
            }) && !t.pointer && t.dimensions.len() == 0)
            &&& c.rule == Rule::sized_primitive && c.text@ == "char"@ ==> (spec_type_shape(node, expr) matches Ok(
                TypeShapeModel::Known(t),
            ) && t.base_type.size == 1 && !t.pointer)
            &&& c.rule == Rule::sized_primitive && c.text@ == "string"@ && crate::types::expr_text_len(expr)
                < usize::MAX ==> (spec_type_shape(node, expr) matches Ok(TypeShapeModel::Known(t))
                && t.base_type.size == crate::types::expr_text_len(expr) + 1 && !t.pointer)
        }),
{
    reveal_strlit("char");
    reveal_strlit("string");
    reveal_strlit("str");
    reveal_strlit("c");
    assert("char"@.len() == 4 && "string"@.len() == 6 && "str"@.len() == 3 && "c"@.len() == 1);
    assert("string"@[3] == 'i' && "char"@[0] == 'c' && "str"@[0] == 's');
}

} // verus!
