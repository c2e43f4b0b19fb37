//! Resolving the same pending ritual twice in a row: the second time changes
//! nothing, where the rituals that its fields name are pending nowhere.
use vstd::prelude::*;

use crate::ast::{
    ritual_size_fits, ritual_type, AttachmentModel, FileModel, ParModel, RitualModel, TypeModel,
};
use crate::resolve::{
    drop_fields, law_do_todo_settles, replace_field, resolved_par, spec_attach_loop, spec_do_todo,
    spec_holders, spec_resolve, take_pending, todo_fuel, with_field, with_files, with_rituals,
    TodoState,
};
use crate::todo::{lemma_table_index, table_index, table_remove, table_wf, HolderModel, TodoKey, TodoModel};
use crate::tree::ParseError;
use crate::types::{file_index, lemma_file_index_facts, lemma_ritual_index_facts, ritual_index};

verus! {

/// Whether the field `x` is one that resolving `h` takes out: same name, and
/// of the type that `h` names.
pub open spec fn field_of(x: ParModel, h: HolderModel) -> bool {
    x.identifier == h.identifier && x.par_type.base_type.identifier == h.prim
}

/// Resolving the fields `ops` in order, each to its type, starting from `c`.
pub open spec fn apply_ops(c: Seq<ParModel>, ops: Seq<(HolderModel, TypeModel)>) -> Seq<ParModel>
    decreases ops.len(),
{
    if ops.len() == 0 {
        c
    } else {
        apply_ops(replace_field(c, ops[0].0, ops[0].1), ops.drop_first())
    }
}

/// The fields of `c` that resolving none of `ops` takes out.
pub open spec fn drop_ops(c: Seq<ParModel>, ops: Seq<(HolderModel, TypeModel)>) -> Seq<ParModel>
    decreases ops.len(),
{
    if ops.len() == 0 {
        c
    } else {
        drop_ops(drop_fields(c, ops[0].0.identifier, ops[0].0.prim), ops.drop_first())
    }
}

/// The resolved fields that `ops` add, in order.
pub open spec fn ops_pars(ops: Seq<(HolderModel, TypeModel)>) -> Seq<ParModel>
    decreases ops.len(),
{
    if ops.len() == 0 {
        Seq::empty()
    } else {
        seq![resolved_par(ops[0].0, ops[0].1)] + ops_pars(ops.drop_first())
    }
}

/// Whether each of `ops` resolves a field to a type named as the field's
/// ritual, and no two of them are for a field of the same name and ritual.
pub open spec fn ops_wf(ops: Seq<(HolderModel, TypeModel)>) -> bool {
    &&& forall|k: int| 0 <= k < ops.len() ==> (#[trigger] ops[k]).1.identifier == ops[k].0.prim
    &&& forall|k: int, l: int|
        0 <= k < l < ops.len() ==> !(#[trigger] ops[k].0.identifier == #[trigger] ops[l].0.identifier
            && ops[k].0.prim == ops[l].0.prim)
}

proof fn lemma_drop_push(x: Seq<ParModel>, p: ParModel, h: HolderModel)
    ensures
        drop_fields(x.push(p), h.identifier, h.prim) == if field_of(p, h) {
            drop_fields(x, h.identifier, h.prim)
        } else {
            drop_fields(x, h.identifier, h.prim).push(p)
        },
{
    assert(x.push(p).drop_last() =~= x);
}

proof fn lemma_drop_concat(a: Seq<ParModel>, b: Seq<ParModel>, h: HolderModel)
    ensures
        drop_fields(a + b, h.identifier, h.prim) == drop_fields(a, h.identifier, h.prim) + drop_fields(
            b,
            h.identifier,
            h.prim,
        ),
    decreases b.len(),
{
    if b.len() == 0 {
        assert(a + b =~= a);
        assert(drop_fields(a, h.identifier, h.prim) + drop_fields(b, h.identifier, h.prim)
            =~= drop_fields(a, h.identifier, h.prim));
    } else {
        lemma_drop_concat(a, b.drop_last(), h);
        assert((a + b).drop_last() =~= a + b.drop_last());
        assert((a + b).last() == b.last());
        let da = drop_fields(a, h.identifier, h.prim);
        let db = drop_fields(b.drop_last(), h.identifier, h.prim);
        assert((da + db).push(b.last()) =~= da + db.push(b.last()));
    }
}

proof fn lemma_drop_unmatched(x: Seq<ParModel>, h: HolderModel)
    requires
        forall|i: int| 0 <= i < x.len() ==> !field_of(#[trigger] x[i], h),
    ensures
        drop_fields(x, h.identifier, h.prim) == x,
    decreases x.len(),
{
    if x.len() > 0 {
        lemma_drop_unmatched(x.drop_last(), h);
        assert(!field_of(x[x.len() - 1], h));
        assert(x.drop_last().push(x.last()) =~= x);
    }
}

proof fn lemma_drop_keeps_unmatched(x: Seq<ParModel>, h: HolderModel, g: HolderModel)
    requires
        forall|i: int| 0 <= i < x.len() ==> !field_of(#[trigger] x[i], g),
    ensures
        forall|i: int|
            0 <= i < drop_fields(x, h.identifier, h.prim).len() ==> !field_of(
                #[trigger] drop_fields(x, h.identifier, h.prim)[i],
                g,
            ),
    decreases x.len(),
{
    if x.len() > 0 {
        lemma_drop_keeps_unmatched(x.drop_last(), h, g);
        assert(!field_of(x[x.len() - 1], g));
        let rest = drop_fields(x.drop_last(), h.identifier, h.prim);
        assert forall|i: int| 0 <= i < rest.push(x.last()).len() implies !field_of(
            #[trigger] rest.push(x.last())[i],
            g,
        ) by {
            if i < rest.len() {
                assert(rest.push(x.last())[i] == rest[i]);
            }
        }
    }
}

proof fn lemma_drop_unmatches(x: Seq<ParModel>, h: HolderModel)
    ensures
        forall|i: int|
            0 <= i < drop_fields(x, h.identifier, h.prim).len() ==> !field_of(
                #[trigger] drop_fields(x, h.identifier, h.prim)[i],
                h,
            ),
    decreases x.len(),
{
    if x.len() > 0 {
        lemma_drop_unmatches(x.drop_last(), h);
        let rest = drop_fields(x.drop_last(), h.identifier, h.prim);
        assert forall|i: int| 0 <= i < rest.push(x.last()).len() implies !field_of(
            #[trigger] rest.push(x.last())[i],
            h,
        ) || field_of(x.last(), h) by {
            if i < rest.len() {
                assert(rest.push(x.last())[i] == rest[i]);
            }
        }
    }
}

proof fn lemma_drop_ops_keeps_unmatched(x: Seq<ParModel>, ops: Seq<(HolderModel, TypeModel)>, g: HolderModel)
    requires
        forall|i: int| 0 <= i < x.len() ==> !field_of(#[trigger] x[i], g),
    ensures
        forall|i: int| 0 <= i < drop_ops(x, ops).len() ==> !field_of(#[trigger] drop_ops(x, ops)[i], g),
    decreases ops.len(),
{
    if ops.len() > 0 {
        lemma_drop_keeps_unmatched(x, ops[0].0, g);
        let d = drop_fields(x, ops[0].0.identifier, ops[0].0.prim);
        lemma_drop_ops_keeps_unmatched(d, ops.drop_first(), g);
        assert(drop_ops(x, ops) == drop_ops(d, ops.drop_first()));
    }
}

proof fn lemma_drop_ops_unmatches(c: Seq<ParModel>, ops: Seq<(HolderModel, TypeModel)>, k: int)
    requires
        0 <= k < ops.len(),
    ensures
        forall|i: int|
            0 <= i < drop_ops(c, ops).len() ==> !field_of(#[trigger] drop_ops(c, ops)[i], ops[k].0),
    decreases ops.len(),
{
    let d = drop_fields(c, ops[0].0.identifier, ops[0].0.prim);
    assert(drop_ops(c, ops) == drop_ops(d, ops.drop_first()));
    if k == 0 {
        lemma_drop_unmatches(c, ops[0].0);
        lemma_drop_ops_keeps_unmatched(d, ops.drop_first(), ops[0].0);
    } else {
        lemma_drop_ops_unmatches(d, ops.drop_first(), k - 1);
        assert(ops.drop_first()[k - 1] == ops[k]);
    }
}

proof fn lemma_drop_ops_fixed(x: Seq<ParModel>, ops: Seq<(HolderModel, TypeModel)>)
    requires
        forall|k: int, i: int| 0 <= k < ops.len() && 0 <= i < x.len() ==> !field_of(#[trigger] x[i], #[trigger] ops[k].0),
    ensures
        drop_ops(x, ops) == x,
    decreases ops.len(),
{
    if ops.len() > 0 {
        assert forall|i: int| 0 <= i < x.len() implies !field_of(#[trigger] x[i], ops[0].0) by {}
        lemma_drop_unmatched(x, ops[0].0);
        assert forall|k: int, i: int| 0 <= k < ops.drop_first().len() && 0 <= i < x.len() implies !field_of(
            #[trigger] x[i],
            #[trigger] ops.drop_first()[k].0,
        ) by {
            assert(ops.drop_first()[k] == ops[k + 1]);
        }
        lemma_drop_ops_fixed(x, ops.drop_first());
    }
}

proof fn lemma_drop_ops_concat(a: Seq<ParModel>, b: Seq<ParModel>, ops: Seq<(HolderModel, TypeModel)>)
    ensures
        drop_ops(a + b, ops) == drop_ops(a, ops) + drop_ops(b, ops),
    decreases ops.len(),
{
    if ops.len() > 0 {
        lemma_drop_concat(a, b, ops[0].0);
        lemma_drop_ops_concat(
            drop_fields(a, ops[0].0.identifier, ops[0].0.prim),
            drop_fields(b, ops[0].0.identifier, ops[0].0.prim),
            ops.drop_first(),
        );
    }
}

proof fn lemma_ops_wf_rest(ops: Seq<(HolderModel, TypeModel)>)
    requires
        ops_wf(ops),
        ops.len() > 0,
    ensures
        ops_wf(ops.drop_first()),
{
    let r = ops.drop_first();
    assert forall|k: int| 0 <= k < r.len() implies (#[trigger] r[k]).1.identifier == r[k].0.prim by {
        assert(r[k] == ops[k + 1]);
    }
    assert forall|k: int, l: int| 0 <= k < l < r.len() implies !(#[trigger] r[k].0.identifier
        == #[trigger] r[l].0.identifier && r[k].0.prim == r[l].0.prim) by {
        assert(r[k] == ops[k + 1]);
        assert(r[l] == ops[l + 1]);
    }
}

/// The resolved fields of the later ones of `ops` are not the first one's.
proof fn lemma_pars_unmatched_by_first(ops: Seq<(HolderModel, TypeModel)>)
    requires
        ops_wf(ops),
        ops.len() > 0,
    ensures
        forall|i: int|
            0 <= i < ops_pars(ops.drop_first()).len() ==> !field_of(
                #[trigger] ops_pars(ops.drop_first())[i],
                ops[0].0,
            ),
{
    lemma_pars_unmatched_from(ops, 1);
}

proof fn lemma_pars_unmatched_from(ops: Seq<(HolderModel, TypeModel)>, j: int)
    requires
        ops_wf(ops),
        1 <= j <= ops.len(),
    ensures
        forall|i: int|
            0 <= i < ops_pars(ops.subrange(j, ops.len() as int)).len() ==> !field_of(
                #[trigger] ops_pars(ops.subrange(j, ops.len() as int))[i],
                ops[0].0,
            ),
    decreases ops.len() - j,
{
    let s = ops.subrange(j, ops.len() as int);
    if j < ops.len() {
        lemma_pars_unmatched_from(ops, j + 1);
        assert(s.drop_first() =~= ops.subrange(j + 1, ops.len() as int));
        assert(s[0] == ops[j]);
        assert(ops[j].1.identifier == ops[j].0.prim);
        let p = resolved_par(s[0].0, s[0].1);
        assert(!field_of(p, ops[0].0)) by {
            assert(!(ops[0].0.identifier == ops[j].0.identifier && ops[0].0.prim == ops[j].0.prim));
        }
        let rest = ops_pars(s.drop_first());
        assert(ops_pars(s) == seq![p] + rest);
        assert forall|i: int| 0 <= i < ops_pars(s).len() implies !field_of(#[trigger] ops_pars(s)[i], ops[0].0) by {
            if i > 0 {
                assert(ops_pars(s)[i] == rest[i - 1]);
            }
        }
    } else {
        assert(s.len() == 0);
    }
    if j == 1 {
        assert(s =~= ops.drop_first());
    }
}

proof fn lemma_drop_ops_pars(ops: Seq<(HolderModel, TypeModel)>)
    requires
        ops_wf(ops),
    ensures
        drop_ops(ops_pars(ops), ops) == Seq::<ParModel>::empty(),
    decreases ops.len(),
{
    if ops.len() > 0 {
        let h = ops[0].0;
        let p = resolved_par(h, ops[0].1);
        let rest = ops_pars(ops.drop_first());
        lemma_pars_unmatched_by_first(ops);
        lemma_drop_concat(seq![p], rest, h);
        lemma_drop_unmatched(rest, h);
        lemma_drop_push(Seq::empty(), p, h);
        assert(Seq::<ParModel>::empty().push(p) =~= seq![p]);
        assert(drop_fields(Seq::<ParModel>::empty(), h.identifier, h.prim) =~= Seq::<ParModel>::empty());
        assert(drop_fields(ops_pars(ops), h.identifier, h.prim) =~= rest);
        lemma_ops_wf_rest(ops);
        lemma_drop_ops_pars(ops.drop_first());
    }
}

/// Resolving `ops` keeps the fields that none of them takes out and adds the
/// resolved fields at the end, in order.
proof fn lemma_apply_ops_shape(c: Seq<ParModel>, ops: Seq<(HolderModel, TypeModel)>)
    requires
        ops_wf(ops),
    ensures
        apply_ops(c, ops) == drop_ops(c, ops) + ops_pars(ops),
    decreases ops.len(),
{
    if ops.len() == 0 {
        assert(c + Seq::<ParModel>::empty() =~= c);
    } else {
        let h = ops[0].0;
        let p = resolved_par(h, ops[0].1);
        let rest = ops.drop_first();
        let d = drop_fields(c, h.identifier, h.prim);
        lemma_ops_wf_rest(ops);
        lemma_apply_ops_shape(d.push(p), rest);
        // the resolved field of the first is kept by the others
        assert(d.push(p) =~= d + seq![p]);
        lemma_drop_ops_concat(d, seq![p], rest);
        assert forall|k: int, i: int| 0 <= k < rest.len() && 0 <= i < seq![p].len() implies !field_of(
            #[trigger] seq![p][i],
            #[trigger] rest[k].0,
        ) by {
            assert(rest[k] == ops[k + 1]);
            assert(seq![p][i] == p);
            assert(!(ops[0].0.identifier == ops[k + 1].0.identifier && ops[0].0.prim == ops[k + 1].0.prim));
        }
        lemma_drop_ops_fixed(seq![p], rest);
        assert(drop_ops(c, ops) == drop_ops(d, rest));
        assert(ops_pars(ops) == seq![p] + ops_pars(rest));
        assert((drop_ops(d, rest) + seq![p]) + ops_pars(rest) =~= drop_ops(d, rest) + (seq![p] + ops_pars(rest)));
    }
}

/// Resolving the same fields twice in a row gives what resolving them once does.
pub proof fn law_apply_ops_twice(c: Seq<ParModel>, ops: Seq<(HolderModel, TypeModel)>)
    requires
        ops_wf(ops),
    ensures
        apply_ops(apply_ops(c, ops), ops) == apply_ops(c, ops),
{
    let d = drop_ops(c, ops);
    let p = ops_pars(ops);
    lemma_apply_ops_shape(c, ops);
    lemma_apply_ops_shape(d + p, ops);
    lemma_drop_ops_concat(d, p, ops);
    lemma_drop_ops_pars(ops);
    assert forall|k: int, i: int| 0 <= k < ops.len() && 0 <= i < d.len() implies !field_of(
        #[trigger] d[i],
        #[trigger] ops[k].0,
    ) by {
        lemma_drop_ops_unmatches(c, ops, k);
    }
    lemma_drop_ops_fixed(d, ops);
    assert(d + Seq::<ParModel>::empty() =~= d);
}

/// Where the ritual `key` stands: the index of its file among `files` and its
/// index among that file's rituals.
pub open spec fn owner_at(files: Seq<FileModel>, key: TodoKey) -> Option<(int, int)> {
    match file_index(files, key.file_name, key.file_type) {
        None => None,
        Some(fi) => match ritual_index(files[fi].rituals, key.ritual) {
            None => None,
            Some(r0) => Some((fi, r0)),
        },
    }
}

/// The fields of the ritual `key` (none where it is not found).
pub open spec fn content_of(files: Seq<FileModel>, key: TodoKey) -> Seq<ParModel> {
    match owner_at(files, key) {
        Some((fi, r0)) => files[fi].rituals[r0].content,
        None => Seq::empty(),
    }
}

/// The files with the fields of the ritual `key` set to `c` (unchanged where
/// it is not found).
pub open spec fn set_content(files: Seq<FileModel>, key: TodoKey, c: Seq<ParModel>) -> Seq<FileModel> {
    match owner_at(files, key) {
        Some((fi, r0)) => {
            let f = files[fi];
            files.update(
                fi,
                with_rituals(
                    f,
                    f.rituals.update(
                        r0,
                        RitualModel {
                            privacy: f.rituals[r0].privacy,
                            identifier: f.rituals[r0].identifier,
                            content: c,
                        },
                    ),
                ),
            )
        },
        None => files,
    }
}

/// What resolving the field `h` of the ritual `key` finds through the
/// attachments `atts` from the one at `j` on, where no table holds the ritual
/// it names: an error, nothing, or the type of the last attached file's
/// ritual of that name. `owner` tells whether the file declares `key`.
pub open spec fn attach_choice(
    files: Seq<FileModel>,
    h: HolderModel,
    atts: Seq<AttachmentModel>,
    j: int,
    owner: bool,
) -> Result<Option<TypeModel>, ParseError>
    decreases (if 0 <= j <= atts.len() {
        atts.len() - j
    } else {
        0
    }) as nat,
{
    if j < 0 || j >= atts.len() {
        Ok(None)
    } else {
        let a = atts[j];
        match file_index(files, a.file_name, a.file_type) {
            None => Err(ParseError::MissingAttachment),
            Some(ai) => match ritual_index(files[ai].rituals, h.prim) {
                None => attach_choice(files, h, atts, j + 1, owner),
                Some(ri) => if !owner {
                    Err(ParseError::MissingRitual)
                } else if ritual_size_fits(files[ai].rituals[ri]) {
                    match attach_choice(files, h, atts, j + 1, owner) {
                        Ok(None) => Ok(Some(ritual_type(files[ai].rituals[ri]))),
                        other => other,
                    }
                } else {
                    Err(ParseError::SizeOverflow)
                },
            },
        }
    }
}

/// What resolving the field `h` of the ritual `key` finds where no table
/// holds the ritual it names: an error, nothing (the field stays pending), or
/// the type to give it.
pub open spec fn spec_choice(files: Seq<FileModel>, key: TodoKey, h: HolderModel) -> Result<
    Option<TypeModel>,
    ParseError,
> {
    match file_index(files, key.file_name, key.file_type) {
        None => Err(ParseError::MissingFile),
        Some(fi) => {
            let f = files[fi];
            match ritual_index(f.rituals, h.prim) {
                Some(r1) => match ritual_index(f.rituals, key.ritual) {
                    None => Err(ParseError::MissingRitual),
                    Some(_) => if ritual_size_fits(f.rituals[r1]) {
                        Ok(Some(ritual_type(f.rituals[r1])))
                    } else {
                        Err(ParseError::SizeOverflow)
                    },
                },
                None => attach_choice(
                    files,
                    h,
                    f.attachments,
                    0,
                    ritual_index(f.rituals, key.ritual) is Some,
                ),
            }
        }
    }
}

/// The fields among `hs` from the one at `i` on that resolving gives a type,
/// each with that type, in order; or the first error.
pub open spec fn resolve_ops(files: Seq<FileModel>, key: TodoKey, hs: Seq<HolderModel>, i: int) -> Result<
    Seq<(HolderModel, TypeModel)>,
    ParseError,
>
    decreases (if 0 <= i <= hs.len() {
        hs.len() - i
    } else {
        0
    }) as nat,
{
    if i < 0 || i >= hs.len() {
        Ok(Seq::empty())
    } else {
        match spec_choice(files, key, hs[i]) {
            Err(e) => Err(e),
            Ok(None) => resolve_ops(files, key, hs, i + 1),
            Ok(Some(t)) => match resolve_ops(files, key, hs, i + 1) {
                Err(e) => Err(e),
                Ok(rest) => Ok(seq![(hs[i], t)] + rest),
            },
        }
    }
}

/// Whether a table holds no entry for a ritual named `name`, in any file.
pub open spec fn no_entry_named(t: Seq<TodoModel>, name: Seq<char>) -> bool {
    forall|j: int| 0 <= j < t.len() ==> (#[trigger] t[j]).key.ritual != name
}

/// Whether the fields `hs` of the ritual `key` name rituals other than `key`
/// that neither table holds.
pub open spec fn names_settled(st: TodoState, key: TodoKey, hs: Seq<HolderModel>) -> bool {
    forall|k: int|
        0 <= k < hs.len() ==> {
            &&& (#[trigger] hs[k]).prim != key.ritual
            &&& no_entry_named(st.purt, hs[k].prim)
            &&& no_entry_named(st.prrt, hs[k].prim)
        }
}

/// Whether no two of the fields `hs` have the same name and name the same ritual.
pub open spec fn holders_distinct(hs: Seq<HolderModel>) -> bool {
    forall|k: int, l: int|
        0 <= k < l < hs.len() ==> !(#[trigger] hs[k].identifier == #[trigger] hs[l].identifier
            && hs[k].prim == hs[l].prim)
}

proof fn lemma_no_entry_lookup(t: Seq<TodoModel>, key: TodoKey)
    requires
        no_entry_named(t, key.ritual),
    ensures
        table_index(t, key) is None,
{
    lemma_table_index(t, key);
    if let Some(i) = table_index(t, key) {
        assert(t[i].key.ritual != key.ritual);
    }
}

proof fn lemma_no_entry_remove(t: Seq<TodoModel>, key: TodoKey, name: Seq<char>)
    requires
        no_entry_named(t, name),
    ensures
        no_entry_named(table_remove(t, key), name),
{
    lemma_table_index(t, key);
    if let Some(i) = table_index(t, key) {
        let r = t.remove(i);
        assert forall|j: int| 0 <= j < r.len() implies (#[trigger] r[j]).key.ritual != name by {
            if j < i {
                assert(r[j] == t[j]);
            } else {
                assert(r[j] == t[j + 1]);
            }
        }
    }
}

proof fn lemma_file_index_same(a: Seq<FileModel>, b: Seq<FileModel>, name: Seq<char>, ft: crate::ast::FileType)
    requires
        a.len() == b.len(),
        forall|j: int| 0 <= j < a.len() ==> (#[trigger] a[j]).identifier == b[j].identifier && a[j].file_type == b[j].file_type,
    ensures
        file_index(a, name, ft) == file_index(b, name, ft),
    decreases a.len(),
{
    if a.len() > 0 {
        lemma_file_index_same(a.drop_last(), b.drop_last(), name, ft);
        assert(a[a.len() - 1].identifier == b[b.len() - 1].identifier);
    }
}

proof fn lemma_ritual_index_same(a: Seq<RitualModel>, b: Seq<RitualModel>, name: Seq<char>)
    requires
        a.len() == b.len(),
        forall|j: int| 0 <= j < a.len() ==> (#[trigger] a[j]).identifier == b[j].identifier,
    ensures
        ritual_index(a, name) == ritual_index(b, name),
    decreases a.len(),
{
    if a.len() > 0 {
        lemma_ritual_index_same(a.drop_last(), b.drop_last(), name);
        assert(a[a.len() - 1].identifier == b[b.len() - 1].identifier);
    }
}

/// Setting the fields of the ritual `key` moves no file and no ritual.
proof fn lemma_set_content_lookups(files: Seq<FileModel>, key: TodoKey, c: Seq<ParModel>)
    ensures
        ({
            let f2 = set_content(files, key, c);
            &&& f2.len() == files.len()
            &&& forall|name: Seq<char>, ft: crate::ast::FileType| #[trigger] file_index(f2, name, ft) == file_index(files, name, ft)
            &&& forall|j: int| 0 <= j < files.len() ==> (#[trigger] f2[j]).attachments == files[j].attachments
            &&& forall|j: int, name: Seq<char>| 0 <= j < files.len() ==> #[trigger] ritual_index(f2[j].rituals, name) == ritual_index(files[j].rituals, name)
            &&& forall|j: int, r: int| 0 <= j < files.len() && 0 <= r < files[j].rituals.len() && !(owner_at(files, key) == Some((j, r)))
                ==> #[trigger] f2[j].rituals[r] == files[j].rituals[r]
            &&& owner_at(f2, key) == owner_at(files, key)
            &&& owner_at(files, key) is Some ==> content_of(f2, key) == c
        }),
{
    let f2 = set_content(files, key, c);
    if let Some((fi, r0)) = owner_at(files, key) {
        lemma_file_index_facts(files, key.file_name, key.file_type);
        lemma_ritual_index_facts(files[fi].rituals, key.ritual);
        assert forall|name: Seq<char>, ft: crate::ast::FileType| #[trigger] file_index(f2, name, ft) == file_index(files, name, ft) by {
            lemma_file_index_same(f2, files, name, ft);
        }
        assert forall|j: int, name: Seq<char>| 0 <= j < files.len() implies #[trigger] ritual_index(f2[j].rituals, name) == ritual_index(files[j].rituals, name) by {
            if j == fi {
                lemma_ritual_index_same(f2[j].rituals, files[j].rituals, name);
            }
        }
        lemma_file_index_same(f2, files, key.file_name, key.file_type);
        lemma_ritual_index_same(f2[fi].rituals, files[fi].rituals, key.ritual);
    }
}

/// Where `spec_choice` gives a type, it is named as the ritual the field names,
/// and the ritual `key` is found.
proof fn lemma_choice_some(files: Seq<FileModel>, key: TodoKey, h: HolderModel)
    ensures
        spec_choice(files, key, h) matches Ok(Some(t)) ==> t.identifier == h.prim && owner_at(files, key) is Some,
{
    if let Some(fi) = file_index(files, key.file_name, key.file_type) {
        let f = files[fi];
        lemma_ritual_index_facts(f.rituals, h.prim);
        if ritual_index(f.rituals, h.prim) is None {
            lemma_attach_choice_some(files, h, f.attachments, 0, ritual_index(f.rituals, key.ritual) is Some);
        }
    }
}

proof fn lemma_attach_choice_some(files: Seq<FileModel>, h: HolderModel, atts: Seq<AttachmentModel>, j: int, owner: bool)
    ensures
        attach_choice(files, h, atts, j, owner) matches Ok(Some(t)) ==> t.identifier == h.prim && owner,
    decreases (if 0 <= j <= atts.len() {
        atts.len() - j
    } else {
        0
    }) as nat,
{
    if 0 <= j < atts.len() {
        let a = atts[j];
        lemma_attach_choice_some(files, h, atts, j + 1, owner);
        if let Some(ai) = file_index(files, a.file_name, a.file_type) {
            lemma_ritual_index_facts(files[ai].rituals, h.prim);
        }
    }
}

/// Setting the fields of the ritual `key` changes nothing that resolving one
/// of its fields looks at, where the field names another ritual.
proof fn lemma_choice_stable(files: Seq<FileModel>, key: TodoKey, h: HolderModel, c: Seq<ParModel>)
    requires
        h.prim != key.ritual,
    ensures
        spec_choice(set_content(files, key, c), key, h) == spec_choice(files, key, h),
{
    let f2 = set_content(files, key, c);
    lemma_set_content_lookups(files, key, c);
    if let Some((fi, r0)) = owner_at(files, key) {
        lemma_file_index_facts(files, key.file_name, key.file_type);
        assert(file_index(f2, key.file_name, key.file_type) == Some(fi));
        assert(ritual_index(f2[fi].rituals, h.prim) == ritual_index(files[fi].rituals, h.prim));
        assert(ritual_index(f2[fi].rituals, key.ritual) == ritual_index(files[fi].rituals, key.ritual));
        lemma_ritual_index_facts(files[fi].rituals, h.prim);
        lemma_ritual_index_facts(files[fi].rituals, key.ritual);
        if let Some(r1) = ritual_index(files[fi].rituals, h.prim) {
            assert(r1 != r0);
            assert(f2[fi].rituals[r1] == files[fi].rituals[r1]);
        }
        assert(f2[fi].attachments == files[fi].attachments);
        lemma_attach_choice_stable(files, key, h, c, files[fi].attachments, 0, ritual_index(files[fi].rituals, key.ritual) is Some);
    }
}

proof fn lemma_attach_choice_stable(
    files: Seq<FileModel>,
    key: TodoKey,
    h: HolderModel,
    c: Seq<ParModel>,
    atts: Seq<AttachmentModel>,
    j: int,
    owner: bool,
)
    requires
        h.prim != key.ritual,
    ensures
        attach_choice(set_content(files, key, c), h, atts, j, owner) == attach_choice(files, h, atts, j, owner),
    decreases (if 0 <= j <= atts.len() {
        atts.len() - j
    } else {
        0
    }) as nat,
{
    let f2 = set_content(files, key, c);
    lemma_set_content_lookups(files, key, c);
    if 0 <= j < atts.len() {
        lemma_attach_choice_stable(files, key, h, c, atts, j + 1, owner);
        let a = atts[j];
        assert(file_index(f2, a.file_name, a.file_type) == file_index(files, a.file_name, a.file_type));
        if let Some(ai) = file_index(files, a.file_name, a.file_type) {
            lemma_file_index_facts(files, a.file_name, a.file_type);
            assert(ritual_index(f2[ai].rituals, h.prim) == ritual_index(files[ai].rituals, h.prim));
            lemma_ritual_index_facts(files[ai].rituals, h.prim);
            if let Some(ri) = ritual_index(files[ai].rituals, h.prim) {
                if let Some((fi, r0)) = owner_at(files, key) {
                    lemma_ritual_index_facts(files[fi].rituals, key.ritual);
                    assert(!(fi == ai && r0 == ri));
                }
                assert(f2[ai].rituals[ri] == files[ai].rituals[ri]);
            }
        }
    }
}

proof fn lemma_replace_twice(c: Seq<ParModel>, h: HolderModel, t1: TypeModel, t2: TypeModel)
    requires
        t1.identifier == h.prim,
    ensures
        replace_field(replace_field(c, h, t1), h, t2) == replace_field(c, h, t2),
{
    let d = drop_fields(c, h.identifier, h.prim);
    lemma_drop_push(d, resolved_par(h, t1), h);
    lemma_drop_unmatches(c, h);
    lemma_drop_unmatched(d, h);
}

proof fn lemma_with_field_twice(rs: Seq<RitualModel>, r0: int, h: HolderModel, t1: TypeModel, t2: TypeModel)
    requires
        0 <= r0 < rs.len(),
        t1.identifier == h.prim,
    ensures
        with_field(with_field(rs, r0, h, t1), r0, h, t2) == with_field(rs, r0, h, t2),
{
    lemma_replace_twice(rs[r0].content, h, t1, t2);
    assert(with_field(with_field(rs, r0, h, t1), r0, h, t2) =~= with_field(rs, r0, h, t2));
}

proof fn lemma_with_field_names(rs: Seq<RitualModel>, r0: int, h: HolderModel, t: TypeModel, name: Seq<char>)
    requires
        0 <= r0 < rs.len(),
    ensures
        ritual_index(with_field(rs, r0, h, t), name) == ritual_index(rs, name),
{
    lemma_ritual_index_same(with_field(rs, r0, h, t), rs, name);
}

/// Resolving a field through the attachments, where the ritual it names is
/// pending in no file's public table, is what `attach_choice` finds.
proof fn lemma_attach_pure(
    fuel: nat,
    st: TodoState,
    key: TodoKey,
    h: HolderModel,
    rs: Seq<RitualModel>,
    atts: Seq<AttachmentModel>,
    j: int,
)
    requires
        fuel > 0,
        no_entry_named(st.purt, h.prim),
    ensures
        spec_attach_loop(fuel, st, key, h, rs, atts, j) == match attach_choice(
            st.files,
            h,
            atts,
            j,
            ritual_index(rs, key.ritual) is Some,
        ) {
            Err(e) => Err(e),
            Ok(None) => Ok((st, rs)),
            Ok(Some(t)) => Ok((st, with_field(rs, ritual_index(rs, key.ritual).unwrap(), h, t))),
        },
    decreases (if 0 <= j <= atts.len() {
        atts.len() - j
    } else {
        0
    }) as nat,
{
    if 0 <= j < atts.len() {
        let a = atts[j];
        let owner = ritual_index(rs, key.ritual) is Some;
        if let Some(ai) = file_index(st.files, a.file_name, a.file_type) {
            let f1 = st.files[ai];
            match ritual_index(f1.rituals, h.prim) {
                None => {
                    lemma_attach_pure(fuel, st, key, h, rs, atts, j + 1);
                },
                Some(ri) => {
                    let pubk = TodoKey { ritual: h.prim, file_name: a.file_name, file_type: a.file_type };
                    lemma_no_entry_lookup(st.purt, pubk);
                    lemma_ritual_index_facts(f1.rituals, h.prim);
                    lemma_ritual_index_facts(rs, key.ritual);
                    if let Some(r0) = ritual_index(rs, key.ritual) {
                        if ritual_size_fits(f1.rituals[ri]) {
                            let tt = ritual_type(f1.rituals[ri]);
                            let rs2 = with_field(rs, r0, h, tt);
                            lemma_with_field_names(rs, r0, h, tt, key.ritual);
                            lemma_attach_pure(fuel, st, key, h, rs2, atts, j + 1);
                            if let Ok(Some(t2)) = attach_choice(st.files, h, atts, j + 1, owner) {
                                lemma_with_field_twice(rs, r0, h, tt, t2);
                            }
                        }
                    }
                },
            }
        }
    }
}

/// Resolving one field, where the ritual it names is pending nowhere, is what
/// `spec_choice` finds: the tables stay, and the field is given the type found.
proof fn lemma_resolve_pure(fuel: nat, st: TodoState, key: TodoKey, h: HolderModel)
    requires
        fuel > 0,
        no_entry_named(st.purt, h.prim),
        no_entry_named(st.prrt, h.prim),
    ensures
        spec_resolve(fuel, st, key, h) == match spec_choice(st.files, key, h) {
            Err(e) => Err(e),
            Ok(None) => Ok(st),
            Ok(Some(t)) => Ok(
                with_files(st, set_content(st.files, key, replace_field(content_of(st.files, key), h, t))),
            ),
        },
{
    let pk = TodoKey { ritual: h.prim, file_name: key.file_name, file_type: key.file_type };
    lemma_no_entry_lookup(st.prrt, pk);
    if let Some(fi) = file_index(st.files, key.file_name, key.file_type) {
        let f = st.files[fi];
        lemma_file_index_facts(st.files, key.file_name, key.file_type);
        lemma_ritual_index_facts(f.rituals, key.ritual);
        if ritual_index(f.rituals, h.prim) is None {
            lemma_attach_pure(fuel, st, key, h, f.rituals, f.attachments, 0);
            assert(with_rituals(f, f.rituals) == f);
            assert(st.files.update(fi, f) =~= st.files);
            assert(with_files(st, st.files) == st);
            if let Ok(Some(t)) = spec_choice(st.files, key, h) {
                lemma_choice_some(st.files, key, h);
                let r0 = ritual_index(f.rituals, key.ritual).unwrap();
                assert(owner_at(st.files, key) == Some((fi, r0)));
                assert(with_field(f.rituals, r0, h, t) == f.rituals.update(
                    r0,
                    RitualModel {
                        privacy: f.rituals[r0].privacy,
                        identifier: f.rituals[r0].identifier,
                        content: replace_field(content_of(st.files, key), h, t),
                    },
                ));
            }
        } else if let Some(r0) = ritual_index(f.rituals, key.ritual) {
            assert(owner_at(st.files, key) == Some((fi, r0)));
            if let Ok(Some(t)) = spec_choice(st.files, key, h) {
                assert(with_field(f.rituals, r0, h, t) == f.rituals.update(
                    r0,
                    RitualModel {
                        privacy: f.rituals[r0].privacy,
                        identifier: f.rituals[r0].identifier,
                        content: replace_field(content_of(st.files, key), h, t),
                    },
                ));
            }
        }
    }
}

proof fn lemma_set_content_twice(files: Seq<FileModel>, key: TodoKey, c: Seq<ParModel>, c2: Seq<ParModel>)
    ensures
        set_content(set_content(files, key, c), key, c2) == set_content(files, key, c2),
{
    lemma_set_content_lookups(files, key, c);
    let f2 = set_content(files, key, c);
    if let Some((fi, r0)) = owner_at(files, key) {
        lemma_file_index_facts(files, key.file_name, key.file_type);
        lemma_ritual_index_facts(files[fi].rituals, key.ritual);
        let f = files[fi];
        assert(f2[fi].rituals.update(
            r0,
            RitualModel { privacy: f2[fi].rituals[r0].privacy, identifier: f2[fi].rituals[r0].identifier, content: c2 },
        ) =~= f.rituals.update(
            r0,
            RitualModel { privacy: f.rituals[r0].privacy, identifier: f.rituals[r0].identifier, content: c2 },
        ));
        assert(set_content(f2, key, c2) =~= set_content(files, key, c2));
    }
}

/// Resolving the fields `hs` from the one at `i` on, where the rituals they
/// name are pending nowhere, on files that differ from `files` at most in the
/// fields `c` of the ritual `key`: the tables stay, and the fields of `key`
/// become `c` with the fields that `resolve_ops` finds resolved.
proof fn lemma_holders_pure(
    fuel: nat,
    st: TodoState,
    files: Seq<FileModel>,
    key: TodoKey,
    hs: Seq<HolderModel>,
    i: int,
    c: Seq<ParModel>,
)
    requires
        fuel > 0,
        names_settled(st, key, hs),
        st.files == set_content(files, key, c),
    ensures
        spec_holders(fuel, st, key, hs, i) == match resolve_ops(files, key, hs, i) {
            Err(e) => Err(e),
            Ok(ops) => Ok(with_files(st, set_content(files, key, apply_ops(c, ops)))),
        },
    decreases (if 0 <= i <= hs.len() {
        hs.len() - i
    } else {
        0
    }) as nat,
{
    if i < 0 || i >= hs.len() {
        assert(apply_ops(c, Seq::empty()) == c);
        assert(with_files(st, st.files) == st);
    } else {
        let h = hs[i];
        assert(h.prim != key.ritual && no_entry_named(st.purt, h.prim) && no_entry_named(st.prrt, h.prim));
        lemma_resolve_pure(fuel, st, key, h);
        lemma_choice_stable(files, key, h, c);
        lemma_choice_some(files, key, h);
        lemma_set_content_lookups(files, key, c);
        match spec_choice(files, key, h) {
            Err(e) => {},
            Ok(None) => {
                lemma_holders_pure(fuel, st, files, key, hs, i + 1, c);
            },
            Ok(Some(t)) => {
                let c2 = replace_field(c, h, t);
                let st2 = with_files(st, set_content(st.files, key, replace_field(content_of(st.files, key), h, t)));
                let (fi, r0) = owner_at(files, key).unwrap();
                assert(content_of(st.files, key) == c);
                lemma_set_content_twice(files, key, c, c2);
                assert(names_settled(st2, key, hs));
                lemma_holders_pure(fuel, st2, files, key, hs, i + 1, c2);
                if let Ok(rest) = resolve_ops(files, key, hs, i + 1) {
                    let ops = seq![(h, t)] + rest;
                    assert(ops.drop_first() =~= rest);
                    assert(apply_ops(c, ops) == apply_ops(c2, rest));
                }
            },
        }
    }
}

proof fn lemma_set_content_self(files: Seq<FileModel>, key: TodoKey)
    ensures
        set_content(files, key, content_of(files, key)) == files,
{
    if let Some((fi, r0)) = owner_at(files, key) {
        lemma_file_index_facts(files, key.file_name, key.file_type);
        lemma_ritual_index_facts(files[fi].rituals, key.ritual);
        let f = files[fi];
        assert(f.rituals.update(
            r0,
            RitualModel { privacy: f.rituals[r0].privacy, identifier: f.rituals[r0].identifier, content: f.rituals[r0].content },
        ) =~= f.rituals);
        assert(with_rituals(f, f.rituals) == f);
        assert(set_content(files, key, content_of(files, key)) =~= files);
    }
}

/// Whether two fields have the same name and name the same ritual.
pub open spec fn same_field(a: HolderModel, b: HolderModel) -> bool {
    a.identifier == b.identifier && a.prim == b.prim
}

proof fn lemma_ops_avoid(files: Seq<FileModel>, key: TodoKey, hs: Seq<HolderModel>, i: int, g: HolderModel)
    requires
        forall|j: int| i <= j < hs.len() ==> !same_field(#[trigger] hs[j], g),
    ensures
        resolve_ops(files, key, hs, i) matches Ok(ops) ==> forall|k: int|
            0 <= k < ops.len() ==> !same_field(#[trigger] ops[k].0, g),
    decreases (if 0 <= i <= hs.len() {
        hs.len() - i
    } else {
        0
    }) as nat,
{
    if 0 <= i < hs.len() {
        lemma_ops_avoid(files, key, hs, i + 1, g);
        if let Ok(Some(t)) = spec_choice(files, key, hs[i]) {
            if let Ok(rest) = resolve_ops(files, key, hs, i + 1) {
                let ops = seq![(hs[i], t)] + rest;
                assert forall|k: int| 0 <= k < ops.len() implies !same_field(#[trigger] ops[k].0, g) by {
                    if k > 0 {
                        assert(ops[k] == rest[k - 1]);
                    }
                }
            }
        }
    }
}

proof fn lemma_ops_wf(files: Seq<FileModel>, key: TodoKey, hs: Seq<HolderModel>, i: int)
    requires
        holders_distinct(hs),
    ensures
        resolve_ops(files, key, hs, i) matches Ok(ops) ==> ops_wf(ops),
    decreases (if 0 <= i <= hs.len() {
        hs.len() - i
    } else {
        0
    }) as nat,
{
    if 0 <= i < hs.len() {
        lemma_ops_wf(files, key, hs, i + 1);
        lemma_choice_some(files, key, hs[i]);
        assert forall|j: int| i + 1 <= j < hs.len() implies !same_field(#[trigger] hs[j], hs[i]) by {
            assert(!(hs[i].identifier == hs[j].identifier && hs[i].prim == hs[j].prim));
        }
        lemma_ops_avoid(files, key, hs, i + 1, hs[i]);
        if let Ok(Some(t)) = spec_choice(files, key, hs[i]) {
            if let Ok(rest) = resolve_ops(files, key, hs, i + 1) {
                let ops = seq![(hs[i], t)] + rest;
                assert forall|k: int| 0 <= k < ops.len() implies (#[trigger] ops[k]).1.identifier == ops[k].0.prim by {
                    if k > 0 {
                        assert(ops[k] == rest[k - 1]);
                    }
                }
                assert forall|k: int, l: int| 0 <= k < l < ops.len() implies !(#[trigger] ops[k].0.identifier
                    == #[trigger] ops[l].0.identifier && ops[k].0.prim == ops[l].0.prim) by {
                    assert(ops[l] == rest[l - 1]);
                    if k > 0 {
                        assert(ops[k] == rest[k - 1]);
                    } else {
                        assert(!same_field(rest[l - 1].0, hs[i]));
                    }
                }
            }
        }
    }
}

/// Resolving the same pending ritual twice in a row changes nothing the second
/// time: where the keys of each table are unique, the ritual is not pending in
/// both tables, its fields name rituals other than itself that neither table
/// holds, and no two of its fields have the same name and name the same ritual,
/// then after a first `do_todo` that succeeds, a second one on the same entry
/// succeeds and leaves the files and both tables as the first one left them.
pub proof fn law_do_todo_twice(st: TodoState, key: TodoKey, hs: Seq<HolderModel>)
    requires
        table_wf(st.purt),
        table_wf(st.prrt),
        !(table_index(st.purt, key) is Some && table_index(st.prrt, key) is Some),
        names_settled(st, key, hs),
        holders_distinct(hs),
    ensures
        spec_do_todo(todo_fuel(st, key), st, key, hs) matches Ok(st1) ==> spec_do_todo(
            todo_fuel(st1, key),
            st1,
            key,
            hs,
        ) == Ok::<TodoState, ParseError>(st1),
{
    let fuel = todo_fuel(st, key);
    let st0 = take_pending(st, key);
    let files = st.files;
    let c0 = content_of(files, key);
    assert forall|k: int| 0 <= k < hs.len() implies {
        &&& (#[trigger] hs[k]).prim != key.ritual
        &&& no_entry_named(st0.purt, hs[k].prim)
        &&& no_entry_named(st0.prrt, hs[k].prim)
    } by {
        assert(hs[k].prim != key.ritual && no_entry_named(st.purt, hs[k].prim) && no_entry_named(st.prrt, hs[k].prim));
        lemma_no_entry_remove(st.purt, key, hs[k].prim);
        lemma_no_entry_remove(st.prrt, key, hs[k].prim);
    }
    lemma_set_content_self(files, key);
    lemma_holders_pure(fuel, st0, files, key, hs, 0, c0);
    law_do_todo_settles(st, key, hs);
    lemma_ops_wf(files, key, hs, 0);
    if let Ok(st1) = spec_do_todo(fuel, st, key, hs) {
        let ops = resolve_ops(files, key, hs, 0).unwrap();
        let c1 = apply_ops(c0, ops);
        assert(st1 == with_files(st0, set_content(files, key, c1)));
        assert(table_index(st1.purt, key) is None);
        if table_index(st.purt, key) is Some {
            assert(table_index(st.prrt, key) is None);
            if table_index(st1.prrt, key) is Some {
                assert(table_index(st.prrt, key) is Some);
            }
        }
        assert(table_index(st1.prrt, key) is None);
        assert(take_pending(st1, key) == st1);
        let fuel2 = todo_fuel(st1, key);
        assert(names_settled(st1, key, hs));
        lemma_holders_pure(fuel2, st1, files, key, hs, 0, c1);
        law_apply_ops_twice(c0, ops);
        assert(with_files(st1, st1.files) == st1);
    }
}

/// Whether, in `files`, the last field of the ritual `key` is `h` resolved to
/// the type of the ritual that `h` names in the same file, as that ritual
/// stands in `files`.
pub open spec fn named_type_given(files: Seq<FileModel>, key: TodoKey, h: HolderModel) -> bool {
    match owner_at(files, key) {
        Some((fi, r0)) => match ritual_index(files[fi].rituals, h.prim) {
            Some(r1) => files[fi].rituals[r0].content.len() > 0 && files[fi].rituals[r0].content.last()
                == resolved_par(h, ritual_type(files[fi].rituals[r1])),
            None => false,
        },
        None => false,
    }
}

proof fn lemma_given(files: Seq<FileModel>, key: TodoKey, h: HolderModel, fi: int, r0: int, r1: int)
    requires
        file_index(files, key.file_name, key.file_type) == Some(fi),
        ritual_index(files[fi].rituals, key.ritual) == Some(r0),
        ritual_index(files[fi].rituals, h.prim) == Some(r1),
        h.prim != key.ritual,
    ensures
        named_type_given(
            files.update(
                fi,
                with_rituals(
                    files[fi],
                    with_field(files[fi].rituals, r0, h, ritual_type(files[fi].rituals[r1])),
                ),
            ),
            key,
            h,
        ),
{
    let f = files[fi];
    let t = ritual_type(f.rituals[r1]);
    let c = replace_field(f.rituals[r0].content, h, t);
    lemma_file_index_facts(files, key.file_name, key.file_type);
    lemma_ritual_index_facts(f.rituals, key.ritual);
    lemma_ritual_index_facts(f.rituals, h.prim);
    assert(owner_at(files, key) == Some((fi, r0)));
    assert(with_field(f.rituals, r0, h, t) == f.rituals.update(
        r0,
        RitualModel { privacy: f.rituals[r0].privacy, identifier: f.rituals[r0].identifier, content: c },
    ));
    let f2 = set_content(files, key, c);
    lemma_set_content_lookups(files, key, c);
    assert(r1 != r0);
    assert(f2[fi].rituals[r1] == f.rituals[r1]);
    assert(content_of(f2, key) == c);
    assert(c.last() == resolved_par(h, t));
}

/// A pending field that names a ritual of its own file gets that ritual's
/// type, taken after that ritual is itself resolved where it was pending in
/// `prrt`: once the field is resolved, the last field of its ritual is it,
/// with the type of the named ritual as that ritual then stands.
pub proof fn law_resolve_gives_named_type(fuel: nat, st: TodoState, key: TodoKey, h: HolderModel)
    requires
        fuel > 0,
        h.prim != key.ritual,
    ensures
        spec_resolve(fuel, st, key, h) matches Ok(st2) ==> (file_index(
            st.files,
            key.file_name,
            key.file_type,
        ) matches Some(fi0) && ritual_index(st.files[fi0].rituals, h.prim) is Some ==> named_type_given(
            st2.files,
            key,
            h,
        )),
{
    let pk = TodoKey { ritual: h.prim, file_name: key.file_name, file_type: key.file_type };
    match table_index(st.prrt, pk) {
        Some(pi) => {
            if let Ok(st2) = spec_do_todo((fuel - 1) as nat, st, pk, st.prrt[pi].holders) {
                if let Some(fi) = file_index(st2.files, key.file_name, key.file_type) {
                    let f = st2.files[fi];
                    if let Some(r1) = ritual_index(f.rituals, h.prim) {
                        if let Some(r0) = ritual_index(f.rituals, key.ritual) {
                            lemma_given(st2.files, key, h, fi, r0, r1);
                        }
                    }
                }
            }
        },
        None => {
            if let Some(fi) = file_index(st.files, key.file_name, key.file_type) {
                let f = st.files[fi];
                if let Some(r1) = ritual_index(f.rituals, h.prim) {
                    if let Some(r0) = ritual_index(f.rituals, key.ritual) {
                        lemma_given(st.files, key, h, fi, r0, r1);
                    }
                }
            }
        },
    }
}

} // verus!
