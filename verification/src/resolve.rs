use vstd::prelude::*;

use crate::ast::{
    attachments_of, copy_dims, files_of, ritual_size_checked, ritual_size_fits, ritual_type,
    rituals_of, Attachment, File, FileModel, FileType, Par, ParModel, Ritual, RitualModel, Type,
    TypeDec, TypeDecModel, TypeModel,
};
use crate::declarations::pars_of;
use crate::text::str_is;
use crate::todo::{
    lemma_remove_keeps_wf, lemma_remove_then_absent, lemma_table_index, table_index, table_remove,
    table_wf, HolderModel,
    Todo, TodoKey, TodoModel, TodoTable, TypeHolder,
};
use crate::tree::ParseError;
use crate::types::{file_index, find_file, find_ritual, ritual_index};

verus! {

/// The fields with every field named `id` whose type names the ritual `prim` taken out.
pub open spec fn drop_fields(content: Seq<ParModel>, id: Seq<char>, prim: Seq<char>) -> Seq<ParModel>
    decreases content.len(),
{
    if content.len() == 0 {
        Seq::empty()
    } else {
        let rest = drop_fields(content.drop_last(), id, prim);
        let x = content.last();
        if x.identifier == id && x.par_type.base_type.identifier == prim {
            rest
        } else {
            rest.push(x)
        }
    }
}

/// The field that a pending field becomes once the ritual it names has type `t`.
pub open spec fn resolved_par(h: HolderModel, t: TypeModel) -> ParModel {
    ParModel {
        identifier: h.identifier,
        par_type: TypeDecModel { base_type: t, pointer: h.pointer, dimensions: h.dimensions },
    }
}

/// The fields with the pending field `h` resolved to type `t`: any field of
/// that name that already names `h`'s ritual is taken out, and the resolved
/// field is added at the end.
pub open spec fn replace_field(content: Seq<ParModel>, h: HolderModel, t: TypeModel) -> Seq<ParModel> {
    drop_fields(content, h.identifier, h.prim).push(resolved_par(h, t))
}

/// The rituals with the pending field `h` of the ritual at `i` resolved to type `t`.
pub open spec fn with_field(rs: Seq<RitualModel>, i: int, h: HolderModel, t: TypeModel) -> Seq<
    RitualModel,
> {
    rs.update(
        i,
        RitualModel {
            privacy: rs[i].privacy,
            identifier: rs[i].identifier,
            content: replace_field(rs[i].content, h, t),
        },
    )
}

/// A file with other rituals.
pub open spec fn with_rituals(f: FileModel, rs: Seq<RitualModel>) -> FileModel {
    FileModel {
        identifier: f.identifier,
        file_type: f.file_type,
        attachments: f.attachments,
        rituals: rs,
    }
}

/// The two tables of pending rituals and the loaded files.
pub struct TodoState {
    pub purt: Seq<TodoModel>,
    pub prrt: Seq<TodoModel>,
    pub files: Seq<FileModel>,
}

/// A state with other files.
pub open spec fn with_files(st: TodoState, files: Seq<FileModel>) -> TodoState {
    TodoState { purt: st.purt, prrt: st.prrt, files }
}

/// The number of pending rituals in both tables.
pub open spec fn pending(st: TodoState) -> nat {
    st.purt.len() + st.prrt.len()
}

/// Whether either table holds an entry for `key`.
pub open spec fn is_pending(st: TodoState, key: TodoKey) -> bool {
    table_index(st.purt, key) is Some || table_index(st.prrt, key) is Some
}

/// Enough fuel to resolve the ritual `key` in `st`: one more than the pending
/// rituals, or two more where `key` is pending in neither table.
pub open spec fn todo_fuel(st: TodoState, key: TodoKey) -> nat {
    pending(st) + if is_pending(st, key) {
        1nat
    } else {
        2nat
    }
}

/// A state without the entry for `key` in `purt`, or else in `prrt`.
pub open spec fn take_pending(st: TodoState, key: TodoKey) -> TodoState {
    if table_index(st.purt, key) is Some {
        TodoState { purt: table_remove(st.purt, key), prrt: st.prrt, files: st.files }
    } else if table_index(st.prrt, key) is Some {
        TodoState { purt: st.purt, prrt: table_remove(st.prrt, key), files: st.files }
    } else {
        st
    }
}

/// Resolving the pending fields `holders` of the ritual `key`: its entry is
/// first taken out of the tables, then each field is resolved in order (see
/// `spec_resolve`). `fuel` bounds the depth of the resolution of the rituals
/// that the fields name; `todo_fuel` is enough.
pub open spec fn spec_do_todo(fuel: nat, st: TodoState, key: TodoKey, holders: Seq<HolderModel>) -> Result<
    TodoState,
    ParseError,
>
    decreases fuel, 3nat, 0nat,
{
    if fuel == 0 {
        Ok(st)
    } else {
        spec_holders(fuel, take_pending(st, key), key, holders, 0)
    }
}

/// Resolving the pending fields `holders` of the ritual `key` from the one at `i` on.
pub open spec fn spec_holders(
    fuel: nat,
    st: TodoState,
    key: TodoKey,
    holders: Seq<HolderModel>,
    i: int,
) -> Result<TodoState, ParseError>
    decreases fuel, 2nat, (if 0 <= i <= holders.len() {
        holders.len() - i
    } else {
        0
    }) as nat,
{
    if i < 0 || i >= holders.len() {
        Ok(st)
    } else {
        match spec_resolve(fuel, st, key, holders[i]) {
            Err(e) => Err(e),
            Ok(st2) => spec_holders(fuel, st2, key, holders, i + 1),
        }
    }
}

/// Resolving the pending field `h` of the ritual `key`.
///
/// Where the ritual it names, in the same file, is pending in `prrt`, that one
/// is resolved first; then the file's ritual `key` gets the field with the
/// named ritual's type.
/// Otherwise, where the file declares the named ritual, the field gets its type.
/// Otherwise each attachment of the file is looked at in order (see
/// `spec_attach_loop`), on a copy of the file's rituals that at the end takes
/// the place of the file's rituals.
pub open spec fn spec_resolve(fuel: nat, st: TodoState, key: TodoKey, h: HolderModel) -> Result<
    TodoState,
    ParseError,
>
    decreases fuel, 1nat, 0nat,
{
    if fuel == 0 {
        Ok(st)
    } else {
        let pk = TodoKey { ritual: h.prim, file_name: key.file_name, file_type: key.file_type };
        match table_index(st.prrt, pk) {
            Some(pi) => match spec_do_todo((fuel - 1) as nat, st, pk, st.prrt[pi].holders) {
                Err(e) => Err(e),
                Ok(st2) => match file_index(st2.files, key.file_name, key.file_type) {
                    None => Err(ParseError::MissingFile),
                    Some(fi) => {
                        let f = st2.files[fi];
                        match ritual_index(f.rituals, h.prim) {
                            None => Err(ParseError::MissingRitual),
                            Some(r1) => match ritual_index(f.rituals, key.ritual) {
                                None => Err(ParseError::MissingRitual),
                                Some(r0) => if ritual_size_fits(f.rituals[r1]) {
                                    Ok(
                                        with_files(
                                            st2,
                                            st2.files.update(
                                                fi,
                                                with_rituals(
                                                    f,
                                                    with_field(
                                                        f.rituals,
                                                        r0,
                                                        h,
                                                        ritual_type(f.rituals[r1]),
                                                    ),
                                                ),
                                            ),
                                        ),
                                    )
                                } else {
                                    Err(ParseError::SizeOverflow)
                                },
                            },
                        }
                    },
                },
            },
            None => match file_index(st.files, key.file_name, key.file_type) {
                None => Err(ParseError::MissingFile),
                Some(fi) => {
                    let f = st.files[fi];
                    match ritual_index(f.rituals, h.prim) {
                        Some(r1) => match ritual_index(f.rituals, key.ritual) {
                            None => Err(ParseError::MissingRitual),
                            Some(r0) => if ritual_size_fits(f.rituals[r1]) {
                                Ok(
                                    with_files(
                                        st,
                                        st.files.update(
                                            fi,
                                            with_rituals(
                                                f,
                                                with_field(
                                                    f.rituals,
                                                    r0,
                                                    h,
                                                    ritual_type(f.rituals[r1]),
                                                ),
                                            ),
                                        ),
                                    ),
                                )
                            } else {
                                Err(ParseError::SizeOverflow)
                            },
                        },
                        None => match spec_attach_loop(
                            fuel,
                            st,
                            key,
                            h,
                            f.rituals,
                            f.attachments,
                            0,
                        ) {
                            Err(e) => Err(e),
                            Ok((st3, rs)) => Ok(
                                with_files(st3, st3.files.update(fi, with_rituals(f, rs))),
                            ),
                        },
                    }
                },
            },
        }
    }
}

/// Resolving the pending field `h` of the ritual `key` through the attachments
/// `atts` of its file, from the one at `j` on, on the copy `rs` of the file's
/// rituals. For each attached file that declares the named ritual, that ritual
/// is first resolved where it is pending in `purt`, and then the field gets the
/// type of the named ritual as the attached file declared it before; an
/// attached file that declares no such ritual is passed over.
pub open spec fn spec_attach_loop(
    fuel: nat,
    st: TodoState,
    key: TodoKey,
    h: HolderModel,
    rs: Seq<RitualModel>,
    atts: Seq<crate::ast::AttachmentModel>,
    j: int,
) -> Result<(TodoState, Seq<RitualModel>), ParseError>
    decreases fuel, 0nat, (if 0 <= j <= atts.len() {
        atts.len() - j
    } else {
        0
    }) as nat,
{
    if fuel == 0 || j < 0 || j >= atts.len() {
        Ok((st, rs))
    } else {
        let a = atts[j];
        match file_index(st.files, a.file_name, a.file_type) {
            None => Err(ParseError::MissingAttachment),
            Some(ai) => {
                let f1 = st.files[ai];
                match ritual_index(f1.rituals, h.prim) {
                    None => spec_attach_loop(fuel, st, key, h, rs, atts, j + 1),
                    Some(ri) => {
                        let pubk = TodoKey {
                            ritual: h.prim,
                            file_name: a.file_name,
                            file_type: a.file_type,
                        };
                        let next = match table_index(st.purt, pubk) {
                            Some(pi) => spec_do_todo(
                                (fuel - 1) as nat,
                                st,
                                pubk,
                                st.purt[pi].holders,
                            ),
                            None => Ok(st),
                        };
                        match next {
                            Err(e) => Err(e),
                            Ok(st2) => match ritual_index(rs, key.ritual) {
                                None => Err(ParseError::MissingRitual),
                                Some(r0) => if ritual_size_fits(f1.rituals[ri]) {
                                    spec_attach_loop(
                                        fuel,
                                        st2,
                                        key,
                                        h,
                                        with_field(rs, r0, h, ritual_type(f1.rituals[ri])),
                                        atts,
                                        j + 1,
                                    )
                                } else {
                                    Err(ParseError::SizeOverflow)
                                },
                            },
                        }
                    },
                }
            },
        }
    }
}

/// The models of a sequence of holders.
pub open spec fn holders_of(hs: Seq<TypeHolder>) -> Seq<HolderModel> {
    hs.map_values(|h: TypeHolder| h@)
}

/// The state that two tables and a list of files stand for.
pub open spec fn state_of(purt: TodoTable, prrt: TodoTable, files: Seq<File>) -> TodoState {
    TodoState { purt: purt@, prrt: prrt@, files: files_of(files) }
}

/// Whether `new` holds the files of `old` with at most their rituals changed.
pub open spec fn files_frame(old: Seq<File>, new: Seq<File>) -> bool {
    &&& old.len() == new.len()
    &&& forall|i: int|
        0 <= i < old.len() ==> {
            &&& (#[trigger] new[i]).identifier == old[i].identifier
            &&& new[i].file_type == old[i].file_type
            &&& new[i].attachments == old[i].attachments
            &&& new[i].spells == old[i].spells
            &&& new[i].content == old[i].content
        }
}

/// Resolving pending rituals finds every file where it was found before: a
/// change of the files that keeps each file's name and type in its place
/// (as `do_todo` and `resolve_todos` ensure) keeps the index of every name and type.
pub proof fn law_frame_keeps_file_index(old: Seq<File>, new: Seq<File>, name: Seq<char>, ft: FileType)
    requires
        files_frame(old, new),
    ensures
        file_index(files_of(new), name, ft) == file_index(files_of(old), name, ft),
    decreases old.len(),
{
    if old.len() > 0 {
        assert(files_frame(old.drop_last(), new.drop_last())) by {
            assert forall|i: int| 0 <= i < old.drop_last().len() implies new.drop_last()[i]
                == new[i] && old.drop_last()[i] == old[i] by {}
        }
        law_frame_keeps_file_index(old.drop_last(), new.drop_last(), name, ft);
        assert(files_of(new).drop_last() =~= files_of(new.drop_last()));
        assert(files_of(old).drop_last() =~= files_of(old.drop_last()));
        assert(new[old.len() - 1].identifier == old[old.len() - 1].identifier);
    }
}

/// A copy of a list of rituals.
fn copy_rituals(rs: &Vec<Ritual>) -> (r: Vec<Ritual>)
    ensures
        rituals_of(r@) == rituals_of(rs@),
{
    let mut r: Vec<Ritual> = Vec::new();
    let mut i: usize = 0;
    while i < rs.len()
        invariant
            i <= rs.len(),
            r.len() == i,
            forall|j: int| 0 <= j < i ==> #[trigger] r@[j]@ == rs@[j]@,
        decreases rs.len() - i,
    {
        r.push(rs[i].duplicate());
        i = i + 1;
    }
    assert(rituals_of(r@) =~= rituals_of(rs@));
    r
}

/// A copy of a list of attachments.
pub(crate) fn copy_attachments(atts: &Vec<Attachment>) -> (r: Vec<Attachment>)
    ensures
        attachments_of(r@) == attachments_of(atts@),
{
    let mut r: Vec<Attachment> = Vec::new();
    let mut i: usize = 0;
    while i < atts.len()
        invariant
            i <= atts.len(),
            r.len() == i,
            forall|j: int| 0 <= j < i ==> #[trigger] r@[j]@ == atts@[j]@,
        decreases atts.len() - i,
    {
        r.push(atts[i].duplicate());
        i = i + 1;
    }
    assert(attachments_of(r@) =~= attachments_of(atts@));
    r
}

/// Resolves the pending field `h` in a list of fields to type `t`: every field
/// of its name that already names its ritual is taken out, and the resolved
/// field is added at the end.
pub fn replace_field_in(content: &mut Vec<Par>, h: &TypeHolder, t: Type)
    ensures
        pars_of(final(content)@) == replace_field(pars_of(old(content)@), h@, t@),
{
    let ghost old_ps = pars_of(content@);
    let ghost id = h.identifier@;
    let ghost prim = h.prim@;
    assert(old_ps.len() == content.len());
    let mut i: usize = 0;
    let mut k: usize = 0;
    assert(old_ps.take(0) =~= Seq::<ParModel>::empty());
    assert(pars_of(content@) =~= drop_fields(old_ps.take(0), id, prim) + old_ps.skip(0));
    while i < content.len()
        invariant
            id == h.identifier@,
            prim == h.prim@,
            k <= old_ps.len(),
            old_ps.len() <= usize::MAX,
            pars_of(content@) == drop_fields(old_ps.take(k as int), id, prim) + old_ps.skip(
                k as int,
            ),
            i == drop_fields(old_ps.take(k as int), id, prim).len(),
        decreases content.len() - i,
    {
        let ghost d = drop_fields(old_ps.take(k as int), id, prim);
        assert(pars_of(content@).len() == content@.len());
        assert(k < old_ps.len());
        assert(old_ps.take(k + 1).drop_last() =~= old_ps.take(k as int));
        assert(pars_of(content@)[i as int] == old_ps[k as int]);
        assert(old_ps.take(k + 1).last() == old_ps[k as int]);
        let x = &content[i];
        if str_is(x.identifier.as_str(), h.identifier.as_str()) && str_is(
            x.par_type.base_type.identifier.as_str(),
            h.prim.as_str(),
        ) {
            let ghost before = content@;
            content.remove(i);
            assert(pars_of(before).remove(i as int) =~= d + old_ps.skip(k + 1));
            assert(pars_of(content@) =~= pars_of(before).remove(i as int));
        } else {
            assert(d.push(old_ps[k as int]) + old_ps.skip(k + 1) =~= d + old_ps.skip(k as int));
            i = i + 1;
        }
        k = k + 1;
    }
    assert(old_ps.skip(k as int) =~= Seq::<ParModel>::empty());
    assert(old_ps.take(k as int) =~= old_ps);
    let ghost dropped = pars_of(content@);
    let ghost tm = t@;
    content.push(
        Par {
            identifier: h.identifier.clone(),
            par_type: TypeDec {
                base_type: t,
                pointer: h.pointer,
                dimensions: copy_dims(&h.dimensions),
            },
        },
    );
    assert(pars_of(content@) =~= dropped.push(resolved_par(h@, tm)));
}

/// Resolves the pending fields `holders` of the ritual `ritual` of the file
/// `file_name` (see `spec_do_todo`).
fn do_todo_rec(
    ritual: &String,
    file_name: &String,
    file_type: FileType,
    holders: &Vec<TypeHolder>,
    purt: &mut TodoTable,
    prrt: &mut TodoTable,
    files: &mut Vec<File>,
    Ghost(fuel): Ghost<nat>,
) -> (r: Result<(), ParseError>)
    requires
        fuel >= todo_fuel(
            state_of(*old(purt), *old(prrt), old(files)@),
            TodoKey { ritual: ritual@, file_name: file_name@, file_type },
        ),
    ensures
        files_frame(old(files)@, final(files)@),
        pending(state_of(*final(purt), *final(prrt), final(files)@)) + (if is_pending(
            state_of(*old(purt), *old(prrt), old(files)@),
            TodoKey { ritual: ritual@, file_name: file_name@, file_type },
        ) {
            1int
        } else {
            0int
        }) <= pending(state_of(*old(purt), *old(prrt), old(files)@)),
        ({
            let spec = spec_do_todo(
                fuel,
                state_of(*old(purt), *old(prrt), old(files)@),
                TodoKey { ritual: ritual@, file_name: file_name@, file_type },
                holders_of(holders@),
            );
            match r {
                Ok(()) => spec == Ok::<TodoState, ParseError>(
                    state_of(*final(purt), *final(prrt), final(files)@),
                ),
                Err(e) => spec == Err::<TodoState, ParseError>(e),
            }
        }),
    decreases fuel, 2nat,
{
    let ghost key = TodoKey { ritual: ritual@, file_name: file_name@, file_type };
    let ghost st0 = state_of(*purt, *prrt, files@);
    match purt.index_of(ritual.as_str(), file_name.as_str(), file_type) {
        Some(_) => {
            purt.remove(ritual.as_str(), file_name.as_str(), file_type);
        },
        None => match prrt.index_of(ritual.as_str(), file_name.as_str(), file_type) {
            Some(_) => {
                prrt.remove(ritual.as_str(), file_name.as_str(), file_type);
            },
            None => {},
        },
    }
    let ghost st1 = state_of(*purt, *prrt, files@);
    assert(st1 == take_pending(st0, key));
    proof {
        lemma_table_index(st0.purt, key);
        lemma_table_index(st0.prrt, key);
    }
    assert(pending(st1) + (if is_pending(st0, key) {
        1nat
    } else {
        0nat
    }) == pending(st0));
    let ghost hs = holders_of(holders@);
    assert(spec_do_todo(fuel, st0, key, hs) == spec_holders(fuel, st1, key, hs, 0));
    let mut i: usize = 0;
    while i < holders.len()
        invariant
            hs == holders_of(holders@),
            hs.len() == holders.len(),
            i <= hs.len(),
            fuel >= 1,
            key == (TodoKey { ritual: ritual@, file_name: file_name@, file_type }),
            st0 == state_of(*old(purt), *old(prrt), old(files)@),
            pending(st1) + (if is_pending(st0, key) {
                1nat
            } else {
                0nat
            }) == pending(st0),
            spec_do_todo(fuel, st0, key, hs) == spec_holders(fuel, st1, key, hs, 0),
            pending(st1) + 2 <= fuel,
            files_frame(old(files)@, files@),
            pending(state_of(*purt, *prrt, files@)) <= pending(st1),
            spec_holders(fuel, st1, key, hs, 0) == spec_holders(
                fuel,
                state_of(*purt, *prrt, files@),
                key,
                hs,
                i as int,
            ),
        decreases hs.len() - i,
    {
        let ghost cur = state_of(*purt, *prrt, files@);
        let ghost fs_before = files@;
        assert(hs[i as int] == holders@[i as int]@);
        resolve_holder(ritual, file_name, file_type, &holders[i], purt, prrt, files, Ghost(fuel))?;
        i = i + 1;
    }
    Ok(())
}

/// Resolves the pending field `h` of the ritual `ritual` of the file
/// `file_name` (see `spec_resolve`).
fn resolve_holder(
    ritual: &String,
    file_name: &String,
    file_type: FileType,
    h: &TypeHolder,
    purt: &mut TodoTable,
    prrt: &mut TodoTable,
    files: &mut Vec<File>,
    Ghost(fuel): Ghost<nat>,
) -> (r: Result<(), ParseError>)
    requires
        fuel >= 1,
        pending(state_of(*old(purt), *old(prrt), old(files)@)) + 2 <= fuel,
    ensures
        files_frame(old(files)@, final(files)@),
        pending(state_of(*final(purt), *final(prrt), final(files)@)) <= pending(
            state_of(*old(purt), *old(prrt), old(files)@),
        ),
        ({
            let spec = spec_resolve(
                fuel,
                state_of(*old(purt), *old(prrt), old(files)@),
                TodoKey { ritual: ritual@, file_name: file_name@, file_type },
                h@,
            );
            match r {
                Ok(()) => spec == Ok::<TodoState, ParseError>(
                    state_of(*final(purt), *final(prrt), final(files)@),
                ),
                Err(e) => spec == Err::<TodoState, ParseError>(e),
            }
        }),
    decreases fuel, 1nat,
{
    let ghost key = TodoKey { ritual: ritual@, file_name: file_name@, file_type };
    let ghost st0 = state_of(*purt, *prrt, files@);
    let ghost fs0 = files@;
    match prrt.index_of(h.prim.as_str(), file_name.as_str(), file_type) {
        Some(pi) => {
            let (_, _, _, rits) = prrt.entry(pi);
            do_todo_rec(
                &h.prim,
                file_name,
                file_type,
                &rits,
                purt,
                prrt,
                files,
                Ghost((fuel - 1) as nat),
            )?;
            let ghost st2 = state_of(*purt, *prrt, files@);
            let fi = match find_file(files, file_name.as_str(), file_type) {
                Some(i) => i,
                None => return Err(ParseError::MissingFile),
            };
            let r1 = match find_ritual(&files[fi].rituals, h.prim.as_str()) {
                Some(i) => i,
                None => return Err(ParseError::MissingRitual),
            };
            let r0 = match find_ritual(&files[fi].rituals, ritual.as_str()) {
                Some(i) => i,
                None => return Err(ParseError::MissingRitual),
            };
            let rit = files[fi].rituals[r1].duplicate();
            if ritual_size_checked(&rit).is_none() {
                return Err(ParseError::SizeOverflow);
            }
            let t = Type::from_ritual(rit);
            let ghost fs2 = files@;
            replace_field_in(&mut files[fi].rituals[r0].content, h, t);
            proof {
                let f = st2.files[fi as int];
                assert(rituals_of(files@[fi as int].rituals@) =~= with_field(
                    f.rituals,
                    r0 as int,
                    h@,
                    t@,
                ));
                assert(files_of(files@) =~= st2.files.update(
                    fi as int,
                    with_rituals(f, with_field(f.rituals, r0 as int, h@, t@)),
                ));
                assert(files_frame(fs2, files@));
            }
            Ok(())
        },
        None => {
            let fi = match find_file(files, file_name.as_str(), file_type) {
                Some(i) => i,
                None => return Err(ParseError::MissingFile),
            };
            match find_ritual(&files[fi].rituals, h.prim.as_str()) {
                Some(r1) => {
                    let r0 = match find_ritual(&files[fi].rituals, ritual.as_str()) {
                        Some(i) => i,
                        None => return Err(ParseError::MissingRitual),
                    };
                    let rit = files[fi].rituals[r1].duplicate();
                    if ritual_size_checked(&rit).is_none() {
                        return Err(ParseError::SizeOverflow);
                    }
                    let t = Type::from_ritual(rit);
                    replace_field_in(&mut files[fi].rituals[r0].content, h, t);
                    proof {
                        let f = st0.files[fi as int];
                        assert(rituals_of(files@[fi as int].rituals@) =~= with_field(
                            f.rituals,
                            r0 as int,
                            h@,
                            t@,
                        ));
                        assert(files_of(files@) =~= st0.files.update(
                            fi as int,
                            with_rituals(f, with_field(f.rituals, r0 as int, h@, t@)),
                        ));
                    }
                    Ok(())
                },
                None => {
                    let mut rs = copy_rituals(&files[fi].rituals);
                    let atts = copy_attachments(&files[fi].attachments);
                    attach_loop(
                        ritual,
                        file_name,
                        file_type,
                        h,
                        &mut rs,
                        &atts,
                        purt,
                        prrt,
                        files,
                        Ghost(fuel),
                    )?;
                    let ghost st3 = state_of(*purt, *prrt, files@);
                    let ghost rsm = rituals_of(rs@);
                    let ghost fs3 = files@;
                    files[fi].rituals = rs;
                    proof {
                        let f = st0.files[fi as int];
                        assert(files_of(files@) =~= st3.files.update(
                            fi as int,
                            with_rituals(f, rsm),
                        ));
                    }
                    Ok(())
                },
            }
        },
    }
}

/// Resolves the pending field `h` of the ritual `ritual` of the file
/// `file_name` through the attachments `atts` of the file, on the copy `rs`
/// of its rituals (see `spec_attach_loop`).
fn attach_loop(
    ritual: &String,
    file_name: &String,
    file_type: FileType,
    h: &TypeHolder,
    rs: &mut Vec<Ritual>,
    atts: &Vec<Attachment>,
    purt: &mut TodoTable,
    prrt: &mut TodoTable,
    files: &mut Vec<File>,
    Ghost(fuel): Ghost<nat>,
) -> (r: Result<(), ParseError>)
    requires
        fuel >= 1,
        pending(state_of(*old(purt), *old(prrt), old(files)@)) + 2 <= fuel,
    ensures
        files_frame(old(files)@, final(files)@),
        pending(state_of(*final(purt), *final(prrt), final(files)@)) <= pending(
            state_of(*old(purt), *old(prrt), old(files)@),
        ),
        ({
            let spec = spec_attach_loop(
                fuel,
                state_of(*old(purt), *old(prrt), old(files)@),
                TodoKey { ritual: ritual@, file_name: file_name@, file_type },
                h@,
                rituals_of(old(rs)@),
                attachments_of(atts@),
                0,
            );
            match r {
                Ok(()) => spec == Ok::<(TodoState, Seq<RitualModel>), ParseError>(
                    (state_of(*final(purt), *final(prrt), final(files)@), rituals_of(final(rs)@)),
                ),
                Err(e) => spec == Err::<(TodoState, Seq<RitualModel>), ParseError>(e),
            }
        }),
    decreases fuel, 0nat,
{
    let ghost key = TodoKey { ritual: ritual@, file_name: file_name@, file_type };
    let ghost am = attachments_of(atts@);
    let ghost st0 = state_of(*purt, *prrt, files@);
    let ghost spec0 = spec_attach_loop(fuel, st0, key, h@, rituals_of(rs@), am, 0);
    let mut j: usize = 0;
    while j < atts.len()
        invariant
            am == attachments_of(atts@),
            am.len() == atts.len(),
            j <= am.len(),
            fuel >= 1,
            key == (TodoKey { ritual: ritual@, file_name: file_name@, file_type }),
            st0 == state_of(*old(purt), *old(prrt), old(files)@),
            pending(st0) + 2 <= fuel,
            files_frame(old(files)@, files@),
            pending(state_of(*purt, *prrt, files@)) <= pending(st0),
            spec0 == spec_attach_loop(fuel, st0, key, h@, rituals_of(old(rs)@), am, 0),
            spec0 == spec_attach_loop(
                fuel,
                state_of(*purt, *prrt, files@),
                key,
                h@,
                rituals_of(rs@),
                am,
                j as int,
            ),
        decreases am.len() - j,
    {
        let a = &atts[j];
        assert(am[j as int] == a@);
        let ai = match find_file(files, a.file_name.as_str(), a.file_type) {
            Some(i) => i,
            None => return Err(ParseError::MissingAttachment),
        };
        match find_ritual(&files[ai].rituals, h.prim.as_str()) {
            None => {},
            Some(ri) => {
                let rit = files[ai].rituals[ri].duplicate();
                match purt.index_of(h.prim.as_str(), a.file_name.as_str(), a.file_type) {
                    Some(pi) => {
                        let (_, _, _, rits) = purt.entry(pi);
                        do_todo_rec(
                            &h.prim,
                            &a.file_name,
                            a.file_type,
                            &rits,
                            purt,
                            prrt,
                            files,
                            Ghost((fuel - 1) as nat),
                        )?;
                    },
                    None => {},
                }
                let r0 = match find_ritual(rs, ritual.as_str()) {
                    Some(i) => i,
                    None => return Err(ParseError::MissingRitual),
                };
                if ritual_size_checked(&rit).is_none() {
                    return Err(ParseError::SizeOverflow);
                }
                let t = Type::from_ritual(rit);
                let ghost rs_before = rituals_of(rs@);
                replace_field_in(&mut rs[r0].content, h, t);
                assert(rituals_of(rs@) =~= with_field(rs_before, r0 as int, h@, t@));
            },
        }
        j = j + 1;
    }
    Ok(())
}

/// Resolves the pending fields of `todo`: the entry for its ritual is taken out
/// of `purt`, or else out of `prrt`, and each of its fields gets the type of the
/// ritual it names (see `spec_do_todo`), the rituals that those name being
/// resolved first where they are pending. Files keep everything but their
/// rituals, and no pending ritual is added.
pub fn do_todo(todo: &Todo, purt: &mut TodoTable, prrt: &mut TodoTable, files: &mut Vec<File>) -> (r:
    Result<(), ParseError>)
    ensures
        files_frame(old(files)@, final(files)@),
        pending(state_of(*final(purt), *final(prrt), final(files)@)) + (if is_pending(
            state_of(*old(purt), *old(prrt), old(files)@),
            todo@.key,
        ) {
            1int
        } else {
            0int
        }) <= pending(state_of(*old(purt), *old(prrt), old(files)@)),
        ({
            let st = state_of(*old(purt), *old(prrt), old(files)@);
            let spec = spec_do_todo(todo_fuel(st, todo@.key), st, todo@.key, todo@.holders);
            match r {
                Ok(()) => spec == Ok::<TodoState, ParseError>(
                    state_of(*final(purt), *final(prrt), final(files)@),
                ),
                Err(e) => spec == Err::<TodoState, ParseError>(e),
            }
        }),
        r is Ok ==> {
            &&& table_index(final(purt)@, todo@.key) is None
            &&& table_index(old(purt)@, todo@.key) is None ==> table_index(final(prrt)@, todo@.key) is None
            &&& keys_within(final(purt)@, old(purt)@)
            &&& keys_within(final(prrt)@, old(prrt)@)
        },
        tables_disjoint(old(purt)@, old(prrt)@) && r is Ok ==> forall|m: int|
            0 <= m < todo@.holders.len() ==> table_index(
                final(prrt)@,
                named_key(todo@.key, #[trigger] todo@.holders[m]),
            ) is None,
{
    proof {
        use_type_invariant(&*purt);
        use_type_invariant(&*prrt);
    }
    let ghost st = state_of(*purt, *prrt, files@);
    assert(holders_of(todo.holders@) == todo@.holders);
    let r = do_todo_rec(
        &todo.ritual,
        &todo.file_name,
        todo.file_type,
        &todo.holders,
        purt,
        prrt,
        files,
        Ghost(todo_fuel(st, todo@.key)),
    );
    proof {
        law_do_todo_settles(st, todo@.key, todo@.holders);
        if tables_disjoint(st.purt, st.prrt) {
            law_do_todo_consumes(st, todo@.key, todo@.holders);
        }
    }
    r
}

/// The entries of `purt` whose key `prrt` does not hold.
pub open spec fn unshadowed(purt: Seq<TodoModel>, prrt: Seq<TodoModel>) -> Seq<TodoModel>
    decreases purt.len(),
{
    if purt.len() == 0 {
        Seq::empty()
    } else {
        let rest = unshadowed(purt.drop_last(), prrt);
        if table_index(prrt, purt.last().key) is Some {
            rest
        } else {
            rest.push(purt.last())
        }
    }
}

/// The pending rituals to resolve once every file is read: both tables put
/// together, an entry of `prrt` standing for one of `purt` with its key; the
/// entries of `purt` come first, each table in its own order.
pub open spec fn combined(purt: Seq<TodoModel>, prrt: Seq<TodoModel>) -> Seq<TodoModel> {
    unshadowed(purt, prrt) + prrt
}

/// Resolving the entries `todos` in turn from the one at `i` on, each as
/// `do_todo` does, on the state that the ones before leave.
pub open spec fn spec_resolve_all(st: TodoState, todos: Seq<TodoModel>, i: int) -> Result<
    TodoState,
    ParseError,
>
    decreases todos.len() - i,
{
    if i < 0 || i >= todos.len() {
        Ok(st)
    } else {
        match spec_do_todo(todo_fuel(st, todos[i].key), st, todos[i].key, todos[i].holders) {
            Err(e) => Err(e),
            Ok(st2) => spec_resolve_all(st2, todos, i + 1),
        }
    }
}

/// Copies of the entries of both tables put together (see `combined`).
pub fn combined_todos(purt: &TodoTable, prrt: &TodoTable) -> (r: Vec<Todo>)
    ensures
        r@.map_values(|t: Todo| t@) == combined(purt@, prrt@),
{
    proof {
        purt.lemma_view();
        prrt.lemma_view();
    }
    let ghost pu = purt@;
    let ghost pr = prrt@;
    let mut r: Vec<Todo> = Vec::new();
    let mut i: usize = 0;
    assert(pu.take(0) =~= Seq::<TodoModel>::empty());
    while i < purt.entries.len()
        invariant
            pu == purt@,
            pr == prrt@,
            pu == purt.entries@.map_values(|t: Todo| t@),
            pu.len() == purt.entries.len(),
            i <= pu.len(),
            r@.map_values(|t: Todo| t@) == unshadowed(pu.take(i as int), pr),
        decreases pu.len() - i,
    {
        let e = &purt.entries[i];
        assert(pu[i as int] == e@);
        assert(pu.take(i + 1).drop_last() =~= pu.take(i as int));
        assert(pu.take(i + 1).last() == e@);
        let ghost before = r@.map_values(|t: Todo| t@);
        match prrt.index_of(e.ritual.as_str(), e.file_name.as_str(), e.file_type) {
            Some(_) => {},
            None => {
                let c = e.duplicate();
                r.push(c);
                assert(r@.map_values(|t: Todo| t@) =~= before.push(e@));
            },
        }
        i = i + 1;
    }
    assert(pu.take(pu.len() as int) =~= pu);
    let ghost first = r@.map_values(|t: Todo| t@);
    let mut j: usize = 0;
    while j < prrt.entries.len()
        invariant
            pr == prrt@,
            pr == prrt.entries@.map_values(|t: Todo| t@),
            pr.len() == prrt.entries.len(),
            j <= pr.len(),
            r@.map_values(|t: Todo| t@) == first + pr.take(j as int),
        decreases pr.len() - j,
    {
        let e = &prrt.entries[j];
        assert(pr[j as int] == e@);
        let ghost before = r@.map_values(|t: Todo| t@);
        let c = e.duplicate();
        r.push(c);
        assert(r@.map_values(|t: Todo| t@) =~= before.push(e@));
        assert(before.push(e@) =~= first + pr.take(j + 1));
        j = j + 1;
    }
    assert(pr.take(pr.len() as int) =~= pr);
    r
}

/// Resolves every pending ritual once every file is read: the entries of both
/// tables, as they stand now, are resolved in turn (see `combined` and
/// `do_todo`). An entry that an earlier one already resolved is resolved again.
pub fn resolve_todos(purt: &mut TodoTable, prrt: &mut TodoTable, files: &mut Vec<File>) -> (r: Result<
    (),
    ParseError,
>)
    ensures
        files_frame(old(files)@, final(files)@),
        pending(state_of(*final(purt), *final(prrt), final(files)@)) <= pending(
            state_of(*old(purt), *old(prrt), old(files)@),
        ),
        ({
            let spec = spec_resolve_all(
                state_of(*old(purt), *old(prrt), old(files)@),
                combined(old(purt)@, old(prrt)@),
                0,
            );
            match r {
                Ok(()) => spec == Ok::<TodoState, ParseError>(
                    state_of(*final(purt), *final(prrt), final(files)@),
                ),
                Err(e) => spec == Err::<TodoState, ParseError>(e),
            }
        }),
        tables_disjoint(old(purt)@, old(prrt)@) && r is Ok ==> final(purt)@.len() == 0
            && final(prrt)@.len() == 0,
{
    proof {
        use_type_invariant(&*purt);
        use_type_invariant(&*prrt);
    }
    let todos = combined_todos(purt, prrt);
    let ghost ts = todos@.map_values(|t: Todo| t@);
    let ghost st0 = state_of(*purt, *prrt, files@);
    let mut i: usize = 0;
    while i < todos.len()
        invariant
            ts == todos@.map_values(|t: Todo| t@),
            ts.len() == todos.len(),
            i <= ts.len(),
            st0 == state_of(*old(purt), *old(prrt), old(files)@),
            ts == combined(old(purt)@, old(prrt)@),
            files_frame(old(files)@, files@),
            pending(state_of(*purt, *prrt, files@)) <= pending(st0),
            spec_resolve_all(st0, ts, 0) == spec_resolve_all(
                state_of(*purt, *prrt, files@),
                ts,
                i as int,
            ),
        decreases ts.len() - i,
    {
        assert(ts[i as int] == todos@[i as int]@);
        do_todo(&todos[i], purt, prrt, files)?;
        i = i + 1;
    }
    proof {
        if tables_disjoint(st0.purt, st0.prrt) {
            law_resolve_all_settles(st0);
        }
    }
    Ok(())
}

/// Every key that `t2` holds an entry for, `t1` holds one for too.
pub open spec fn keys_within(t2: Seq<TodoModel>, t1: Seq<TodoModel>) -> bool {
    forall|k: TodoKey| #[trigger] table_index(t2, k) is Some ==> table_index(t1, k) is Some
}

/// Whether no key has an entry in both tables.
pub open spec fn tables_disjoint(purt: Seq<TodoModel>, prrt: Seq<TodoModel>) -> bool {
    forall|k: TodoKey| #[trigger] table_index(purt, k) is Some ==> table_index(prrt, k) is None
}

/// What a step of resolution keeps from `st` to `st2`, for the key `k`: where
/// a table holds no entry for `k` it holds none after, and a table whose keys
/// are unique stays so.
pub open spec fn step_keeps(st: TodoState, st2: TodoState, k: TodoKey) -> bool {
    &&& table_index(st.purt, k) is None ==> table_index(st2.purt, k) is None
    &&& table_index(st.prrt, k) is None ==> table_index(st2.prrt, k) is None
    &&& table_wf(st.purt) ==> table_wf(st2.purt)
    &&& table_wf(st.prrt) ==> table_wf(st2.prrt)
    &&& st2.purt.len() <= st.purt.len()
    &&& st2.prrt.len() <= st.prrt.len()
}

proof fn lemma_remove_keeps_absent(t: Seq<TodoModel>, key: TodoKey, k: TodoKey)
    requires
        table_index(t, k) is None,
    ensures
        table_index(table_remove(t, key), k) is None,
{
    lemma_table_index(t, k);
    lemma_table_index(t, key);
    let r = table_remove(t, key);
    lemma_table_index(r, k);
    if let Some(m) = table_index(r, k) {
        if let Some(i) = table_index(t, key) {
            let m0 = if m < i {
                m
            } else {
                m + 1
            };
            assert(r[m] == t[m0]);
        }
    }
}

proof fn lemma_take_pending_keeps(st: TodoState, key: TodoKey, k: TodoKey)
    ensures
        step_keeps(st, take_pending(st, key), k),
        table_wf(st.purt) ==> table_index(take_pending(st, key).purt, key) is None,
        table_wf(st.prrt) && table_index(st.purt, key) is None ==> table_index(
            take_pending(st, key).prrt,
            key,
        ) is None,
{
    lemma_table_index(st.purt, key);
    lemma_table_index(st.prrt, key);
    if table_index(st.purt, k) is None {
        lemma_remove_keeps_absent(st.purt, key, k);
    }
    if table_index(st.prrt, k) is None {
        lemma_remove_keeps_absent(st.prrt, key, k);
    }
    if table_wf(st.purt) {
        lemma_remove_keeps_wf(st.purt, key);
        lemma_remove_then_absent(st.purt, key);
    }
    if table_wf(st.prrt) {
        lemma_remove_keeps_wf(st.prrt, key);
        lemma_remove_then_absent(st.prrt, key);
    }
}

proof fn lemma_do_todo_keeps(fuel: nat, st: TodoState, key: TodoKey, holders: Seq<HolderModel>, k: TodoKey)
    ensures
        spec_do_todo(fuel, st, key, holders) matches Ok(st2) ==> step_keeps(st, st2, k),
    decreases fuel, 3nat, 0nat,
{
    if fuel > 0 {
        lemma_take_pending_keeps(st, key, k);
        lemma_holders_keeps(fuel, take_pending(st, key), key, holders, 0, k);
    }
}

proof fn lemma_holders_keeps(
    fuel: nat,
    st: TodoState,
    key: TodoKey,
    holders: Seq<HolderModel>,
    i: int,
    k: TodoKey,
)
    ensures
        spec_holders(fuel, st, key, holders, i) matches Ok(st2) ==> step_keeps(st, st2, k),
    decreases fuel, 2nat, (if 0 <= i <= holders.len() {
        holders.len() - i
    } else {
        0
    }) as nat,
{
    if 0 <= i < holders.len() {
        lemma_resolve_keeps(fuel, st, key, holders[i], k);
        if let Ok(st2) = spec_resolve(fuel, st, key, holders[i]) {
            lemma_holders_keeps(fuel, st2, key, holders, i + 1, k);
        }
    }
}

proof fn lemma_resolve_keeps(fuel: nat, st: TodoState, key: TodoKey, h: HolderModel, k: TodoKey)
    ensures
        spec_resolve(fuel, st, key, h) matches Ok(st2) ==> step_keeps(st, st2, k),
    decreases fuel, 1nat, 0nat,
{
    if fuel > 0 {
        let pk = TodoKey { ritual: h.prim, file_name: key.file_name, file_type: key.file_type };
        match table_index(st.prrt, pk) {
            Some(pi) => {
                lemma_do_todo_keeps((fuel - 1) as nat, st, pk, st.prrt[pi].holders, k);
            },
            None => {
                if let Some(fi) = file_index(st.files, key.file_name, key.file_type) {
                    let f = st.files[fi];
                    if ritual_index(f.rituals, h.prim) is None {
                        lemma_attach_keeps(fuel, st, key, h, f.rituals, f.attachments, 0, k);
                    }
                }
            },
        }
    }
}

proof fn lemma_attach_keeps(
    fuel: nat,
    st: TodoState,
    key: TodoKey,
    h: HolderModel,
    rs: Seq<RitualModel>,
    atts: Seq<crate::ast::AttachmentModel>,
    j: int,
    k: TodoKey,
)
    ensures
        spec_attach_loop(fuel, st, key, h, rs, atts, j) matches Ok((st2, _)) ==> step_keeps(
            st,
            st2,
            k,
        ),
    decreases fuel, 0nat, (if 0 <= j <= atts.len() {
        atts.len() - j
    } else {
        0
    }) as nat,
{
    if !(fuel == 0 || j < 0 || j >= atts.len()) {
        let a = atts[j];
        if let Some(ai) = file_index(st.files, a.file_name, a.file_type) {
            let f1 = st.files[ai];
            match ritual_index(f1.rituals, h.prim) {
                None => {
                    lemma_attach_keeps(fuel, st, key, h, rs, atts, j + 1, k);
                },
                Some(ri) => {
                    let pubk = TodoKey {
                        ritual: h.prim,
                        file_name: a.file_name,
                        file_type: a.file_type,
                    };
                    let next = match table_index(st.purt, pubk) {
                        Some(pi) => {
                            lemma_do_todo_keeps((fuel - 1) as nat, st, pubk, st.purt[pi].holders, k);
                            spec_do_todo((fuel - 1) as nat, st, pubk, st.purt[pi].holders)
                        },
                        None => Ok(st),
                    };
                    if let Ok(st2) = next {
                        if let Some(r0) = ritual_index(rs, key.ritual) {
                            if ritual_size_fits(f1.rituals[ri]) {
                                lemma_attach_keeps(
                                    fuel,
                                    st2,
                                    key,
                                    h,
                                    with_field(rs, r0, h, ritual_type(f1.rituals[ri])),
                                    atts,
                                    j + 1,
                                    k,
                                );
                            }
                        }
                    }
                },
            }
        }
    }
}

/// Resolving a pending ritual settles it and adds nothing: where the keys of
/// each table are unique, once `do_todo` succeeds `purt` holds no entry for the
/// ritual, nor does `prrt` unless `purt` held one too; neither table holds an
/// entry for a key it did not hold before, and each table's keys stay unique.
pub proof fn law_do_todo_settles(st: TodoState, key: TodoKey, holders: Seq<HolderModel>)
    requires
        table_wf(st.purt),
        table_wf(st.prrt),
    ensures
        spec_do_todo(todo_fuel(st, key), st, key, holders) matches Ok(st2) ==> {
            &&& table_index(st2.purt, key) is None
            &&& table_index(st.purt, key) is None ==> table_index(st2.prrt, key) is None
            &&& keys_within(st2.purt, st.purt)
            &&& keys_within(st2.prrt, st.prrt)
            &&& table_wf(st2.purt)
            &&& table_wf(st2.prrt)
        },
{
    let fuel = todo_fuel(st, key);
    if let Ok(st2) = spec_do_todo(fuel, st, key, holders) {
        let st1 = take_pending(st, key);
        lemma_take_pending_keeps(st, key, key);
        lemma_holders_keeps(fuel, st1, key, holders, 0, key);
        assert(spec_holders(fuel, st1, key, holders, 0) == Ok::<TodoState, ParseError>(st2));
        assert forall|k: TodoKey| #[trigger] table_index(st2.purt, k) is Some implies table_index(
            st.purt,
            k,
        ) is Some by {
            lemma_do_todo_keeps(fuel, st, key, holders, k);
        }
        assert forall|k: TodoKey| #[trigger] table_index(st2.prrt, k) is Some implies table_index(
            st.prrt,
            k,
        ) is Some by {
            lemma_do_todo_keeps(fuel, st, key, holders, k);
        }
    }
}

/// Whether neither table holds an entry for `k`.
pub open spec fn settled(st: TodoState, k: TodoKey) -> bool {
    table_index(st.purt, k) is None && table_index(st.prrt, k) is None
}

/// The index, among the entries of `purt` that `prrt` does not shadow, of one
/// for a key that `purt` holds and `prrt` does not.
proof fn lemma_unshadowed_holds(purt: Seq<TodoModel>, prrt: Seq<TodoModel>, k: TodoKey) -> (m: int)
    requires
        table_index(purt, k) is Some,
        table_index(prrt, k) is None,
    ensures
        0 <= m < unshadowed(purt, prrt).len(),
        unshadowed(purt, prrt)[m].key == k,
    decreases purt.len(),
{
    let rest = unshadowed(purt.drop_last(), prrt);
    if table_index(purt.drop_last(), k) is Some {
        lemma_unshadowed_holds(purt.drop_last(), prrt, k)
    } else {
        assert(purt.last().key == k);
        assert(unshadowed(purt, prrt) == rest.push(purt.last()));
        rest.len() as int
    }
}

proof fn lemma_resolve_all_settles(st0: TodoState, cur: TodoState, todos: Seq<TodoModel>, i: int)
    requires
        0 <= i <= todos.len(),
        table_wf(cur.purt),
        table_wf(cur.prrt),
        keys_within(cur.purt, st0.purt),
        keys_within(cur.prrt, st0.prrt),
        tables_disjoint(st0.purt, st0.prrt),
        forall|m: int| 0 <= m < i ==> #[trigger] settled(cur, todos[m].key),
    ensures
        spec_resolve_all(cur, todos, i) matches Ok(st2) ==> {
            &&& keys_within(st2.purt, st0.purt)
            &&& keys_within(st2.prrt, st0.prrt)
            &&& forall|m: int| 0 <= m < todos.len() ==> #[trigger] settled(st2, todos[m].key)
        },
    decreases todos.len() - i,
{
    if i < todos.len() {
        let kk = todos[i].key;
        let hs = todos[i].holders;
        let fuel = todo_fuel(cur, kk);
        law_do_todo_settles(cur, kk, hs);
        if let Ok(st1) = spec_do_todo(fuel, cur, kk, hs) {
            assert forall|m: int| 0 <= m < i + 1 implies #[trigger] settled(st1, todos[m].key) by {
                lemma_do_todo_keeps(fuel, cur, kk, hs, todos[m].key);
                if m < i {
                    assert(settled(cur, todos[m].key));
                } else {
                    assert(table_index(st1.purt, kk) is None);
                    if table_index(cur.purt, kk) is Some {
                        assert(table_index(st0.purt, kk) is Some);
                        assert(table_index(st0.prrt, kk) is None);
                        assert(table_index(cur.prrt, kk) is None);
                    }
                    assert(table_index(st1.prrt, kk) is None);
                }
            }
            assert forall|k: TodoKey| #[trigger] table_index(st1.purt, k) is Some implies table_index(
                st0.purt,
                k,
            ) is Some by {
                assert(table_index(cur.purt, k) is Some);
            }
            assert forall|k: TodoKey| #[trigger] table_index(st1.prrt, k) is Some implies table_index(
                st0.prrt,
                k,
            ) is Some by {
                assert(table_index(cur.prrt, k) is Some);
            }
            lemma_resolve_all_settles(st0, st1, todos, i + 1);
        }
    }
}

/// Resolving every pending ritual leaves none pending: where the keys of each
/// table are unique and no key has an entry in both tables, once the entries
/// of both tables are all resolved in turn (as `resolve_todos` does), both
/// tables are empty.
pub proof fn law_resolve_all_settles(st: TodoState)
    requires
        table_wf(st.purt),
        table_wf(st.prrt),
        tables_disjoint(st.purt, st.prrt),
    ensures
        spec_resolve_all(st, combined(st.purt, st.prrt), 0) matches Ok(st2) ==> st2.purt.len() == 0
            && st2.prrt.len() == 0,
{
    let todos = combined(st.purt, st.prrt);
    let un = unshadowed(st.purt, st.prrt);
    lemma_resolve_all_settles(st, st, todos, 0);
    if let Ok(st2) = spec_resolve_all(st, todos, 0) {
        if st2.purt.len() > 0 {
            let k = st2.purt[0].key;
            lemma_table_index(st2.purt, k);
            assert(table_index(st2.purt, k) is Some);
            assert(table_index(st.purt, k) is Some);
            assert(table_index(st.prrt, k) is None);
            let m = lemma_unshadowed_holds(st.purt, st.prrt, k);
            assert(todos[m] == un[m]);
            assert(settled(st2, todos[m].key));
        }
        if st2.prrt.len() > 0 {
            let k = st2.prrt[0].key;
            lemma_table_index(st2.prrt, k);
            assert(table_index(st2.prrt, k) is Some);
            assert(table_index(st.prrt, k) is Some);
            lemma_table_index(st.prrt, k);
            let p = table_index(st.prrt, k).unwrap();
            let m = un.len() + p;
            assert(todos[m] == st.prrt[p]);
            assert(settled(st2, todos[m].key));
        }
    }
}

/// The key of the ritual that the pending field `h` of the ritual `key` names,
/// in the same file.
pub open spec fn named_key(key: TodoKey, h: HolderModel) -> TodoKey {
    TodoKey { ritual: h.prim, file_name: key.file_name, file_type: key.file_type }
}

proof fn lemma_disjoint_kept(st: TodoState, st2: TodoState)
    requires
        tables_disjoint(st.purt, st.prrt),
        forall|k: TodoKey| #[trigger] step_keeps(st, st2, k),
    ensures
        tables_disjoint(st2.purt, st2.prrt),
{
    assert forall|k: TodoKey| #[trigger] table_index(st2.purt, k) is Some implies table_index(st2.prrt, k) is None by {
        assert(step_keeps(st, st2, k));
    }
}

proof fn lemma_resolve_consumes(fuel: nat, st: TodoState, key: TodoKey, h: HolderModel)
    requires
        fuel > pending(st),
        table_wf(st.purt),
        table_wf(st.prrt),
        tables_disjoint(st.purt, st.prrt),
    ensures
        spec_resolve(fuel, st, key, h) matches Ok(st2) ==> table_index(st2.prrt, named_key(key, h)) is None,
{
    let pk = named_key(key, h);
    lemma_resolve_keeps(fuel, st, key, h, pk);
    if let Some(pi) = table_index(st.prrt, pk) {
        lemma_table_index(st.prrt, pk);
        assert(pending(st) >= 1);
        let f1 = (fuel - 1) as nat;
        assert(f1 > 0);
        assert(table_index(st.purt, pk) is None);
        let st1 = take_pending(st, pk);
        lemma_take_pending_keeps(st, pk, pk);
        assert(table_index(st1.prrt, pk) is None);
        lemma_holders_keeps(f1, st1, pk, st.prrt[pi].holders, 0, pk);
    }
}

proof fn lemma_holders_consume(fuel: nat, st: TodoState, key: TodoKey, hs: Seq<HolderModel>, i: int)
    requires
        fuel > pending(st),
        table_wf(st.purt),
        table_wf(st.prrt),
        tables_disjoint(st.purt, st.prrt),
        0 <= i,
    ensures
        spec_holders(fuel, st, key, hs, i) matches Ok(st2) ==> forall|m: int|
            i <= m < hs.len() ==> table_index(st2.prrt, named_key(key, #[trigger] hs[m])) is None,
    decreases (if 0 <= i <= hs.len() {
        hs.len() - i
    } else {
        0
    }) as nat,
{
    if i < hs.len() {
        let h = hs[i];
        lemma_resolve_consumes(fuel, st, key, h);
        if let Ok(sta) = spec_resolve(fuel, st, key, h) {
            assert forall|k: TodoKey| #[trigger] step_keeps(st, sta, k) by {
                lemma_resolve_keeps(fuel, st, key, h, k);
            }
            assert(step_keeps(st, sta, named_key(key, h)));
            lemma_disjoint_kept(st, sta);
            lemma_holders_consume(fuel, sta, key, hs, i + 1);
            lemma_holders_keeps(fuel, sta, key, hs, i + 1, named_key(key, h));
            if let Ok(st2) = spec_holders(fuel, sta, key, hs, i + 1) {
                assert forall|m: int| i <= m < hs.len() implies table_index(st2.prrt, named_key(key, #[trigger] hs[m])) is None by {
                    if m > i {
                    }
                }
            }
        }
    }
}

/// Resolving a pending ritual first resolves the private rituals of its file
/// that its fields name: where the keys of each table are unique and no key
/// has an entry in both tables, once `do_todo` succeeds no ritual of the same
/// file that one of its fields names is pending in `prrt`.
pub proof fn law_do_todo_consumes(st: TodoState, key: TodoKey, hs: Seq<HolderModel>)
    requires
        table_wf(st.purt),
        table_wf(st.prrt),
        tables_disjoint(st.purt, st.prrt),
    ensures
        spec_do_todo(todo_fuel(st, key), st, key, hs) matches Ok(st2) ==> forall|m: int|
            0 <= m < hs.len() ==> table_index(st2.prrt, named_key(key, #[trigger] hs[m])) is None,
{
    let fuel = todo_fuel(st, key);
    let st1 = take_pending(st, key);
    assert forall|k: TodoKey| #[trigger] step_keeps(st, st1, k) by {
        lemma_take_pending_keeps(st, key, k);
    }
    lemma_disjoint_kept(st, st1);
    assert(step_keeps(st, st1, key));
    assert(pending(st1) <= pending(st));
    lemma_holders_consume(fuel, st1, key, hs, 0);
}

} // verus!
