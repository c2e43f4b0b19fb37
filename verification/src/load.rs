//! The walk over the files that a file attaches, and that those attach in
//! turn: which attached file is read next, and which are passed over.
use vstd::prelude::*;

use crate::ast::{attachments_of, files_of, Attachment, AttachmentModel, File, FileModel, FileType};
use crate::files::{attachment_path, extension_text, files_with, get_file, insert_file};
use crate::resolve::copy_attachments;
use crate::text::str_is;
use crate::types::{file_index, find_file, lemma_file_index_facts};

verus! {

/// A file whose attachments are being walked: the directory it lies in, its
/// attachments, and how many of them are done.
#[derive(Debug)]
pub struct LoadFrame {
    pub dir: String,
    pub attachments: Vec<Attachment>,
    pub next: usize,
}

/// What a `LoadFrame` denotes.
pub struct LoadFrameModel {
    pub dir: Seq<char>,
    pub attachments: Seq<AttachmentModel>,
    pub next: nat,
}

impl View for LoadFrame {
    type V = LoadFrameModel;

    open spec fn view(&self) -> LoadFrameModel {
        LoadFrameModel {
            dir: self.dir@,
            attachments: attachments_of(self.attachments@),
            next: self.next as nat,
        }
    }
}

/// The walk: the files being walked, the innermost last; the name and type of
/// each file whose text has been read, in the order read; and the files asked
/// for whose declarations have not been handed back yet (`LoadState::enter`).
#[derive(Debug)]
pub struct LoadState {
    pub frames: Vec<LoadFrame>,
    pub read: Vec<(String, FileType)>,
    pub awaiting: Vec<(String, FileType)>,
}

/// What a `LoadState` denotes.
pub struct LoadStateModel {
    pub frames: Seq<LoadFrameModel>,
    pub read: Seq<(Seq<char>, FileType)>,
    pub awaiting: Seq<(Seq<char>, FileType)>,
}

impl View for LoadState {
    type V = LoadStateModel;

    open spec fn view(&self) -> LoadStateModel {
        LoadStateModel {
            frames: self.frames@.map_values(|f: LoadFrame| f@),
            read: self.read@.map_values(|p: (String, FileType)| (p.0@, p.1)),
            awaiting: self.awaiting@.map_values(|p: (String, FileType)| (p.0@, p.1)),
        }
    }
}

/// What the walk asks for next.
#[derive(Debug)]
pub enum LoadAction {
    /// Read the text of the attached file at `path`, read its declarations
    /// into the file that `attachment` names, and hand that file back with
    /// `LoadState::enter`, which walks its attachments next.
    Read { path: String, attachment: Attachment },
    /// The innermost file's attachments are all done; it was dropped from the walk.
    Leave,
    /// The next attachment names a file already read; it was passed over.
    Skip,
    /// Every attachment has been walked.
    Done,
}

/// Whether every file named as read is loaded.
pub open spec fn load_wf(st: LoadStateModel, files: Seq<FileModel>) -> bool {
    forall|i: int| 0 <= i < st.read.len() ==> file_index(files, (#[trigger] st.read[i]).0, st.read[i].1) is Some
}

/// Whether every attachment that the walk has taken names a loaded file.
pub open spec fn walked_loaded(st: LoadStateModel, files: Seq<FileModel>) -> bool {
    forall|i: int, j: int|
        0 <= i < st.frames.len() && 0 <= j < st.frames[i].next && j < st.frames[i].attachments.len()
            ==> file_index(
            files,
            (#[trigger] st.frames[i].attachments[j]).file_name,
            st.frames[i].attachments[j].file_type,
        ) is Some
}

/// Whether the file of the given name and type has been read.
pub open spec fn was_read(st: LoadStateModel, name: Seq<char>, file_type: FileType) -> bool {
    st.read.contains((name, file_type))
}

/// The walk with the innermost file's next attachment done.
pub open spec fn advance(st: LoadStateModel) -> LoadStateModel {
    let top = st.frames.last();
    LoadStateModel {
        frames: st.frames.update(
            st.frames.len() - 1,
            LoadFrameModel { dir: top.dir, attachments: top.attachments, next: top.next + 1 },
        ),
        read: st.read,
        awaiting: st.awaiting,
    }
}

/// The attachments of the loaded file of the given name and type (none where
/// no such file is loaded).
pub open spec fn file_attachments(files: Seq<FileModel>, name: Seq<char>, file_type: FileType) -> Seq<
    AttachmentModel,
> {
    match file_index(files, name, file_type) {
        Some(fi) => files[fi].attachments,
        None => Seq::empty(),
    }
}

/// Whether the attachment `a` is still to be taken by one of the files being walked.
pub open spec fn pending_in_frames(st: LoadStateModel, a: AttachmentModel) -> bool {
    exists|i: int, j: int|
        0 <= i < st.frames.len() && st.frames[i].next <= j < st.frames[i].attachments.len()
            && #[trigger] st.frames[i].attachments[j] == a
}

/// Whether the file that `a` names has been read or is still to be taken.
pub open spec fn covered(st: LoadStateModel, a: AttachmentModel) -> bool {
    was_read(st, a.file_name, a.file_type) || pending_in_frames(st, a)
}

/// Whether every attachment of the `r`-th file read is covered, unless that
/// file's declarations are still awaited.
pub open spec fn read_file_covered(st: LoadStateModel, files: Seq<FileModel>, r: int) -> bool {
    !st.awaiting.contains(st.read[r]) ==> forall|k: int|
        0 <= k < file_attachments(files, st.read[r].0, st.read[r].1).len() ==> #[trigger] covered(
            st,
            file_attachments(files, st.read[r].0, st.read[r].1)[k],
        )
}

/// Whether every attachment of every file read, save those still awaited, is
/// read or still to be taken: what the walk keeps, so that once it is done
/// the files read are closed under attachment.
pub open spec fn walk_covers(st: LoadStateModel, files: Seq<FileModel>) -> bool {
    forall|r: int| 0 <= r < st.read.len() ==> #[trigger] read_file_covered(st, files, r)
}

/// The keys of `aw` without `key`.
pub open spec fn strip(aw: Seq<(Seq<char>, FileType)>, key: (Seq<char>, FileType)) -> Seq<(Seq<char>, FileType)>
    decreases aw.len(),
{
    if aw.len() == 0 {
        aw
    } else if aw.last() == key {
        strip(aw.drop_last(), key)
    } else {
        strip(aw.drop_last(), key).push(aw.last())
    }
}

proof fn lemma_strip_contains(aw: Seq<(Seq<char>, FileType)>, key: (Seq<char>, FileType), x: (Seq<char>, FileType))
    ensures
        strip(aw, key).contains(x) <==> aw.contains(x) && x != key,
    decreases aw.len(),
{
    if aw.len() > 0 {
        lemma_strip_contains(aw.drop_last(), key, x);
        let d = strip(aw.drop_last(), key);
        if aw.contains(x) && x != key {
            let i = choose|i: int| 0 <= i < aw.len() && aw[i] == x;
            if i < aw.len() - 1 {
                assert(aw.drop_last()[i] == x);
            }
        }
        if aw.drop_last().contains(x) {
            let i = choose|i: int| 0 <= i < aw.drop_last().len() && aw.drop_last()[i] == x;
            assert(aw[i] == x);
        }
        if aw.last() != key {
            if d.push(aw.last()).contains(x) {
                let i = choose|i: int| 0 <= i < d.push(aw.last()).len() && d.push(aw.last())[i] == x;
                if i < d.len() {
                    assert(d[i] == x);
                }
            }
            if d.contains(x) {
                let i = choose|i: int| 0 <= i < d.len() && d[i] == x;
                assert(d.push(aw.last())[i] == x);
            }
            if x == aw.last() {
                assert(d.push(aw.last())[d.len() as int] == x);
            }
        }
    }
}

/// Adding a file leaves the attachments of every other loaded name and type as they were.
proof fn lemma_files_with_other(fs: Seq<File>, f: File, name: Seq<char>, ft: FileType)
    requires
        !(name == f.identifier@ && ft == f.file_type),
    ensures
        file_attachments(files_of(files_with(fs, f)), name, ft) == file_attachments(files_of(fs), name, ft),
{
    let m = files_of(fs);
    let r = files_of(files_with(fs, f));
    lemma_file_index_facts(m, name, ft);
    lemma_file_index_facts(m, f.identifier@, f.file_type);
    lemma_file_index_facts(r, name, ft);
    match file_index(m, f.identifier@, f.file_type) {
        Some(u) => {
            assert(r.len() == m.len());
            assert forall|j: int| 0 <= j < m.len() && j != u implies r[j] == m[j] by {}
            assert(r[u] == f@);
        },
        None => {
            assert(r.len() == m.len() + 1);
            assert forall|j: int| 0 <= j < m.len() implies r[j] == m[j] by {}
            assert(r[m.len() as int] == f@);
        },
    }
    match file_index(m, name, ft) {
        Some(k) => {
            if let Some(k2) = file_index(r, name, ft) {
                if k2 < k {
                    assert(r[k2].identifier == name && r[k2].file_type == ft);
                }
                assert(k2 == k);
            }
        },
        None => {
            if let Some(k2) = file_index(r, name, ft) {
                assert(r[k2].identifier == name && r[k2].file_type == ft);
            }
        },
    }
}

/// Adding a file makes its attachments the ones loaded under its name and type.
proof fn lemma_files_with_own(fs: Seq<File>, f: File)
    ensures
        file_attachments(files_of(files_with(fs, f)), f.identifier@, f.file_type) == f@.attachments,
{
    crate::laws::law_insert_file_then_find(fs, f);
    let r = files_with(fs, f);
    let i = file_index(files_of(r), f.identifier@, f.file_type).unwrap();
    lemma_file_index_facts(files_of(r), f.identifier@, f.file_type);
    assert(files_of(r)[i] == r[i]@);
}

proof fn lemma_covers_leave(st: LoadStateModel, files: Seq<FileModel>)
    requires
        st.frames.len() > 0,
        st.frames.last().next >= st.frames.last().attachments.len(),
        walk_covers(st, files),
    ensures
        walk_covers(LoadStateModel { frames: st.frames.drop_last(), read: st.read, awaiting: st.awaiting }, files),
{
    let st2 = LoadStateModel { frames: st.frames.drop_last(), read: st.read, awaiting: st.awaiting };
    assert forall|r: int| 0 <= r < st2.read.len() implies #[trigger] read_file_covered(st2, files, r) by {
        assert(read_file_covered(st, files, r));
        let atts = file_attachments(files, st.read[r].0, st.read[r].1);
        if !st2.awaiting.contains(st2.read[r]) {
            assert forall|k: int| 0 <= k < atts.len() implies #[trigger] covered(st2, atts[k]) by {
                assert(covered(st, atts[k]));
                if pending_in_frames(st, atts[k]) && !was_read(st, atts[k].file_name, atts[k].file_type) {
                    let (i, j) = choose|i: int, j: int|
                        0 <= i < st.frames.len() && st.frames[i].next <= j < st.frames[i].attachments.len()
                            && #[trigger] st.frames[i].attachments[j] == atts[k];
                    assert(i < st.frames.len() - 1);
                    assert(st2.frames[i] == st.frames[i]);
                    assert(st2.frames[i].attachments[j] == atts[k]);
                }
            }
        }
    }
}

proof fn lemma_covers_skip(st: LoadStateModel, files: Seq<FileModel>)
    requires
        st.frames.len() > 0,
        st.frames.last().next < st.frames.last().attachments.len(),
        was_read(
            st,
            st.frames.last().attachments[st.frames.last().next as int].file_name,
            st.frames.last().attachments[st.frames.last().next as int].file_type,
        ),
        walk_covers(st, files),
    ensures
        walk_covers(advance(st), files),
{
    let st2 = advance(st);
    let top = st.frames.len() - 1;
    assert forall|r: int| 0 <= r < st2.read.len() implies #[trigger] read_file_covered(st2, files, r) by {
        assert(read_file_covered(st, files, r));
        let atts = file_attachments(files, st.read[r].0, st.read[r].1);
        if !st2.awaiting.contains(st2.read[r]) {
            assert forall|k: int| 0 <= k < atts.len() implies #[trigger] covered(st2, atts[k]) by {
                assert(covered(st, atts[k]));
                if pending_in_frames(st, atts[k]) && !was_read(st, atts[k].file_name, atts[k].file_type) {
                    let (i, j) = choose|i: int, j: int|
                        0 <= i < st.frames.len() && st.frames[i].next <= j < st.frames[i].attachments.len()
                            && #[trigger] st.frames[i].attachments[j] == atts[k];
                    if i == top && j == st.frames[i].next {
                        assert(false);
                    } else {
                        assert(st2.frames[i].attachments == st.frames[i].attachments);
                        assert(st2.frames[i].attachments[j] == atts[k]);
                    }
                }
            }
        }
    }
}

proof fn lemma_covers_read(st: LoadStateModel, fs: Seq<File>, f: File)
    requires
        st.frames.len() > 0,
        st.frames.last().next < st.frames.last().attachments.len(),
        f.identifier@ == st.frames.last().attachments[st.frames.last().next as int].file_name,
        f.file_type == st.frames.last().attachments[st.frames.last().next as int].file_type,
        !was_read(st, f.identifier@, f.file_type),
        walk_covers(st, files_of(fs)),
    ensures
        walk_covers(
            LoadStateModel {
                frames: advance(st).frames,
                read: st.read.push((f.identifier@, f.file_type)),
                awaiting: st.awaiting.push((f.identifier@, f.file_type)),
            },
            files_of(files_with(fs, f)),
        ),
{
    let key = (f.identifier@, f.file_type);
    let st2 = LoadStateModel { frames: advance(st).frames, read: st.read.push(key), awaiting: st.awaiting.push(key) };
    let files = files_of(fs);
    let files2 = files_of(files_with(fs, f));
    let top = st.frames.len() - 1;
    assert(st2.read.last() == key);
    assert(was_read(st2, key.0, key.1));
    assert forall|r: int| 0 <= r < st2.read.len() implies #[trigger] read_file_covered(st2, files2, r) by {
        if r == st.read.len() {
            assert(st2.read[r] == key);
            assert(st2.awaiting[st.awaiting.len() as int] == key);
            assert(st2.awaiting.contains(st2.read[r]));
        } else {
            assert(st2.read[r] == st.read[r]);
            assert(read_file_covered(st, files, r));
            assert(st.read[r] != key);
            lemma_files_with_other(fs, f, st.read[r].0, st.read[r].1);
            let atts = file_attachments(files, st.read[r].0, st.read[r].1);
            if !st2.awaiting.contains(st2.read[r]) {
                if st.awaiting.contains(st.read[r]) {
                    let i = choose|i: int| 0 <= i < st.awaiting.len() && st.awaiting[i] == st.read[r];
                    assert(st2.awaiting[i] == st.read[r]);
                }
                assert forall|k: int| 0 <= k < atts.len() implies #[trigger] covered(st2, atts[k]) by {
                    assert(covered(st, atts[k]));
                    if was_read(st, atts[k].file_name, atts[k].file_type) {
                        let i = choose|i: int| 0 <= i < st.read.len() && st.read[i] == (atts[k].file_name, atts[k].file_type);
                        assert(st2.read[i] == st.read[i]);
                    } else {
                        let (i, j) = choose|i: int, j: int|
                            0 <= i < st.frames.len() && st.frames[i].next <= j < st.frames[i].attachments.len()
                                && #[trigger] st.frames[i].attachments[j] == atts[k];
                        if i == top && j == st.frames[i].next {
                            assert(atts[k].file_name == key.0 && atts[k].file_type == key.1);
                        } else {
                            assert(st2.frames[i].attachments == st.frames[i].attachments);
                            assert(st2.frames[i].attachments[j] == atts[k]);
                        }
                    }
                }
            }
        }
    }
}

proof fn lemma_covers_enter(st: LoadStateModel, fs: Seq<File>, file: File, dir: Seq<char>)
    requires
        walk_covers(st, files_of(fs)),
    ensures
        walk_covers(
            LoadStateModel {
                frames: st.frames.push(LoadFrameModel { dir, attachments: file@.attachments, next: 0 }),
                read: st.read,
                awaiting: strip(st.awaiting, (file.identifier@, file.file_type)),
            },
            files_of(files_with(fs, file)),
        ),
{
    let key = (file.identifier@, file.file_type);
    let fm = LoadFrameModel { dir, attachments: file@.attachments, next: 0 };
    let st2 = LoadStateModel { frames: st.frames.push(fm), read: st.read, awaiting: strip(st.awaiting, key) };
    let files = files_of(fs);
    let files2 = files_of(files_with(fs, file));
    let n = st.frames.len() as int;
    assert(st2.frames[n] == fm);
    assert forall|r: int| 0 <= r < st2.read.len() implies #[trigger] read_file_covered(st2, files2, r) by {
        if st.read[r] == key {
            lemma_files_with_own(fs, file);
            let atts = file_attachments(files2, key.0, key.1);
            assert forall|k: int| 0 <= k < atts.len() implies #[trigger] covered(st2, atts[k]) by {
                assert(st2.frames[n].attachments[k] == atts[k]);
            }
        } else {
            assert(read_file_covered(st, files, r));
            lemma_files_with_other(fs, file, st.read[r].0, st.read[r].1);
            lemma_strip_contains(st.awaiting, key, st.read[r]);
            let atts = file_attachments(files, st.read[r].0, st.read[r].1);
            if !st2.awaiting.contains(st2.read[r]) {
                assert forall|k: int| 0 <= k < atts.len() implies #[trigger] covered(st2, atts[k]) by {
                    assert(covered(st, atts[k]));
                    if !was_read(st, atts[k].file_name, atts[k].file_type) {
                        let (i, j) = choose|i: int, j: int|
                            0 <= i < st.frames.len() && st.frames[i].next <= j < st.frames[i].attachments.len()
                                && #[trigger] st.frames[i].attachments[j] == atts[k];
                        assert(st2.frames[i] == st.frames[i]);
                        assert(st2.frames[i].attachments[j] == atts[k]);
                    }
                }
            }
        }
    }
}

/// Once the walk is done and nothing is awaited, every attachment of every file
/// read names a file that has been read and is loaded: the files read are
/// closed under attachment.
pub proof fn law_walk_done_closed(st: LoadStateModel, files: Seq<FileModel>, r: int, k: int)
    requires
        walk_covers(st, files),
        load_wf(st, files),
        st.frames.len() == 0,
        st.awaiting.len() == 0,
        0 <= r < st.read.len(),
        0 <= k < file_attachments(files, st.read[r].0, st.read[r].1).len(),
    ensures
        ({
            let a = file_attachments(files, st.read[r].0, st.read[r].1)[k];
            was_read(st, a.file_name, a.file_type) && file_index(files, a.file_name, a.file_type) is Some
        }),
{
    let a = file_attachments(files, st.read[r].0, st.read[r].1)[k];
    assert(read_file_covered(st, files, r));
    assert(!st.awaiting.contains(st.read[r]));
    assert(covered(st, a));
    let i = choose|i: int| 0 <= i < st.read.len() && st.read[i] == (a.file_name, a.file_type);
    assert(file_index(files, st.read[i].0, st.read[i].1) is Some);
}

/// Adding a file keeps every file that was loaded loaded.
proof fn lemma_files_with_keeps(fs: Seq<File>, f: File, name: Seq<char>, ft: FileType)
    requires
        file_index(files_of(fs), name, ft) is Some,
    ensures
        file_index(files_of(files_with(fs, f)), name, ft) is Some,
{
    let m = files_of(fs);
    let r = files_of(files_with(fs, f));
    lemma_file_index_facts(m, name, ft);
    lemma_file_index_facts(m, f.identifier@, f.file_type);
    lemma_file_index_facts(r, name, ft);
    let k = file_index(m, name, ft).unwrap();
    assert(r[k].identifier == name && r[k].file_type == ft);
}

/// Adding a file makes its name and type loaded.
proof fn lemma_files_with_finds(fs: Seq<File>, f: File)
    ensures
        file_index(files_of(files_with(fs, f)), f.identifier@, f.file_type) is Some,
{
    crate::laws::law_insert_file_then_find(fs, f);
}

impl LoadState {
    /// The walk over the attachments of the file read first: the loaded file
    /// named `name` of type `file_type`, which lies in `dir`. That file counts
    /// as read; nothing is awaited.
    pub fn start(dir: String, files: &Vec<File>, name: String, file_type: FileType) -> (st: LoadState)
        ensures
            st@.frames == seq![
                LoadFrameModel {
                    dir: dir@,
                    attachments: file_attachments(files_of(files@), name@, file_type),
                    next: 0,
                },
            ],
            st@.read == seq![(name@, file_type)],
            st@.awaiting == Seq::<(Seq<char>, FileType)>::empty(),
            walk_covers(st@, files_of(files@)),
            walked_loaded(st@, files_of(files@)),
            file_index(files_of(files@), name@, file_type) is Some ==> load_wf(st@, files_of(files@)),
    {
        let ghost fs = files_of(files@);
        let attachments = match find_file(files, name.as_str(), file_type) {
            Some(i) => {
                assert(fs[i as int] == files@[i as int]@);
                copy_attachments(&files[i].attachments)
            },
            None => Vec::new(),
        };
        assert(attachments_of(attachments@) =~= file_attachments(fs, name@, file_type));
        let ghost fm = LoadFrameModel { dir: dir@, attachments: attachments_of(attachments@), next: 0 };
        let mut frames: Vec<LoadFrame> = Vec::new();
        frames.push(LoadFrame { dir, attachments, next: 0 });
        let mut read: Vec<(String, FileType)> = Vec::new();
        read.push((name, file_type));
        let st = LoadState { frames, read, awaiting: Vec::new() };
        assert(st@.frames =~= seq![fm]);
        assert(st@.read =~= seq![(name@, file_type)]);
        assert(st@.awaiting =~= Seq::<(Seq<char>, FileType)>::empty());
        assert(st@.frames[0] == fm);
        assert forall|r: int| 0 <= r < st@.read.len() implies #[trigger] read_file_covered(st@, fs, r) by {
            assert(r == 0);
            let atts = file_attachments(fs, name@, file_type);
            assert forall|k: int| 0 <= k < atts.len() implies #[trigger] covered(st@, atts[k]) by {
                assert(st@.frames[0].attachments[k] == atts[k]);
            }
        }
        st
    }

    /// Hands back the declarations of a file that the walk asked for: `file`,
    /// which lies in `dir`, is loaded in place of the file of its name and type,
    /// it is no longer awaited, and its attachments are walked before the rest
    /// of the walk.
    pub fn enter(&mut self, dir: String, file: File, files: &mut Vec<File>)
        ensures
            final(files)@ == files_with(old(files)@, file),
            final(self)@.frames == old(self)@.frames.push(
                LoadFrameModel { dir: dir@, attachments: file@.attachments, next: 0 },
            ),
            final(self)@.read == old(self)@.read,
            final(self)@.awaiting == strip(old(self)@.awaiting, (file.identifier@, file.file_type)),
            walk_covers(old(self)@, files_of(old(files)@)) ==> walk_covers(final(self)@, files_of(final(files)@)),
            load_wf(old(self)@, files_of(old(files)@)) ==> load_wf(final(self)@, files_of(final(files)@)),
            walked_loaded(old(self)@, files_of(old(files)@)) ==> walked_loaded(final(self)@, files_of(final(files)@)),
    {
        let ghost s0 = self@;
        let ghost fs0 = files@;
        let ghost fv = file;
        let ghost key = (file.identifier@, file.file_type);
        let attachments = copy_attachments(&file.attachments);
        let name = file.identifier.clone();
        let file_type = file.file_type;
        insert_file(files, file);
        let ghost fm = LoadFrameModel { dir: dir@, attachments: fv@.attachments, next: 0 };
        self.frames.push(LoadFrame { dir, attachments, next: 0 });
        assert(self@.frames =~= s0.frames.push(fm));
        let mut aw: Vec<(String, FileType)> = Vec::new();
        let ghost old_aw = s0.awaiting;
        let mut i: usize = 0;
        assert(old_aw.take(0) =~= Seq::<(Seq<char>, FileType)>::empty());
        while i < self.awaiting.len()
            invariant
                old_aw == self@.awaiting,
                old_aw.len() == self.awaiting.len(),
                i <= old_aw.len(),
                key == (name@, file_type),
                aw@.map_values(|p: (String, FileType)| (p.0@, p.1)) == strip(old_aw.take(i as int), key),
            decreases old_aw.len() - i,
        {
            let e = &self.awaiting[i];
            assert(old_aw[i as int] == (e.0@, e.1));
            assert(old_aw.take(i + 1).drop_last() =~= old_aw.take(i as int));
            assert(old_aw.take(i + 1).last() == old_aw[i as int]);
            let ghost before = aw@.map_values(|p: (String, FileType)| (p.0@, p.1));
            if !(str_is(e.0.as_str(), name.as_str()) && e.1 == file_type) {
                let n = e.0.clone();
                aw.push((n, e.1));
                assert(aw@.map_values(|p: (String, FileType)| (p.0@, p.1)) =~= before.push((e.0@, e.1)));
            }
            i = i + 1;
        }
        assert(old_aw.take(old_aw.len() as int) =~= old_aw);
        self.awaiting = aw;
        proof {
            if walk_covers(s0, files_of(fs0)) {
                lemma_covers_enter(s0, fs0, fv, dir@);
            }
            let fs2 = files_of(files@);
            if load_wf(s0, files_of(fs0)) {
                assert forall|j: int| 0 <= j < self@.read.len() implies file_index(fs2, (#[trigger] self@.read[j]).0, self@.read[j].1) is Some by {
                    assert(file_index(files_of(fs0), s0.read[j].0, s0.read[j].1) is Some);
                    lemma_files_with_keeps(fs0, fv, s0.read[j].0, s0.read[j].1);
                }
            }
            if walked_loaded(s0, files_of(fs0)) {
                assert forall|a: int, j: int|
                    0 <= a < self@.frames.len() && 0 <= j < self@.frames[a].next && j < self@.frames[a].attachments.len()
                        implies file_index(
                        fs2,
                        (#[trigger] self@.frames[a].attachments[j]).file_name,
                        self@.frames[a].attachments[j].file_type,
                    ) is Some by {
                    assert(a < s0.frames.len());
                    assert(self@.frames[a] == s0.frames[a]);
                    assert(file_index(files_of(fs0), s0.frames[a].attachments[j].file_name, s0.frames[a].attachments[j].file_type) is Some);
                    lemma_files_with_keeps(fs0, fv, s0.frames[a].attachments[j].file_name, s0.frames[a].attachments[j].file_type);
                }
            }
        }
    }

    /// Whether the file of the given name and type has been read.
    pub fn has_read(&self, name: &str, file_type: FileType) -> (b: bool)
        ensures
            b == was_read(self@, name@, file_type),
    {
        let ghost r = self@.read;
        let mut i: usize = 0;
        while i < self.read.len()
            invariant
                r == self@.read,
                r.len() == self.read.len(),
                i <= r.len(),
                forall|j: int| 0 <= j < i ==> r[j] != (name@, file_type),
            decreases r.len() - i,
        {
            let e = &self.read[i];
            assert(r[i as int] == (e.0@, e.1));
            if str_is(e.0.as_str(), name) && e.1 == file_type {
                assert(r[i as int] == (name@, file_type));
                return true;
            }
            i = i + 1;
        }
        false
    }
}

/// One step of the walk over attached files.
///
/// With nothing left to walk it is `Done`. Where the innermost file's
/// attachments are all done, that file leaves the walk. Otherwise its next
/// attachment is taken: unless the file it names is loaded and already read,
/// an empty file of that name and type is loaded (see `get_file`), it is
/// marked as read, and the walk asks for its text at the path that
/// `attachment_path` gives; otherwise it is passed over. The loaded files
/// are only added to, and no file is asked for twice.
pub fn load_step(st: &mut LoadState, files: &mut Vec<File>) -> (action: LoadAction)
    ensures
        old(st)@.frames.len() == 0 <==> action is Done,
        action is Done ==> final(st)@ == old(st)@ && final(files)@ == old(files)@,
        action is Leave <==> (old(st)@.frames.len() > 0 && old(st)@.frames.last().next
            >= old(st)@.frames.last().attachments.len()),
        action is Leave ==> final(st)@.frames == old(st)@.frames.drop_last() && final(st)@.read
            == old(st)@.read && final(st)@.awaiting == old(st)@.awaiting && final(files)@ == old(files)@,
        old(st)@.frames.len() > 0 && old(st)@.frames.last().next < old(st)@.frames.last().attachments.len()
            ==> ({
            let top = old(st)@.frames.last();
            let a = top.attachments[top.next as int];
            let loaded = file_index(files_of(old(files)@), a.file_name, a.file_type) is Some;
            let to_read = !(loaded && was_read(old(st)@, a.file_name, a.file_type));
            &&& final(st)@.frames == advance(old(st)@).frames
            &&& to_read ==> {
                &&& action matches LoadAction::Read { path, attachment } && path@ == top.dir + "/"@
                    + a.file_name + extension_text(a.file_type) && attachment@ == a
                &&& final(st)@.read == old(st)@.read.push((a.file_name, a.file_type))
                &&& final(st)@.awaiting == old(st)@.awaiting.push((a.file_name, a.file_type))
                &&& exists|f: File|
                    #![auto]
                    final(files)@ == files_with(old(files)@, f) && f.identifier@ == a.file_name
                        && f.file_type == a.file_type && f.spells@.len() == 0
                        && f.attachments@.len() == 0 && f.rituals@.len() == 0 && f.content@.len() == 0
            }
            &&& !to_read ==> action is Skip && final(st)@.read == old(st)@.read && final(st)@.awaiting
                == old(st)@.awaiting && final(files)@ == old(files)@
        }),
        forall|name: Seq<char>, ft: FileType|
            #[trigger] file_index(files_of(old(files)@), name, ft) is Some ==> file_index(
                files_of(final(files)@),
                name,
                ft,
            ) is Some,
        load_wf(old(st)@, files_of(old(files)@)) ==> load_wf(final(st)@, files_of(final(files)@)),
        walked_loaded(old(st)@, files_of(old(files)@)) ==> walked_loaded(final(st)@, files_of(final(files)@)),
        load_wf(old(st)@, files_of(old(files)@)) ==> (action matches LoadAction::Read { attachment, .. }
            ==> !was_read(old(st)@, attachment.file_name@, attachment.file_type)),
        load_wf(old(st)@, files_of(old(files)@)) && walk_covers(old(st)@, files_of(old(files)@))
            ==> walk_covers(final(st)@, files_of(final(files)@)),
{
    let n = st.frames.len();
    if n == 0 {
        return LoadAction::Done;
    }
    let ghost s0 = st@;
    let ghost fs0 = files@;
    let top = n - 1;
    if st.frames[top].next >= st.frames[top].attachments.len() {
        st.frames.pop();
        assert(st@.frames =~= s0.frames.drop_last());
        proof {
            if walk_covers(s0, files_of(fs0)) {
                lemma_covers_leave(s0, files_of(fs0));
                assert(st@ == LoadStateModel { frames: s0.frames.drop_last(), read: s0.read, awaiting: s0.awaiting });
            }
        }
        assert forall|i: int, j: int|
            0 <= i < st@.frames.len() && 0 <= j < st@.frames[i].next && j < st@.frames[i].attachments.len()
                && walked_loaded(s0, files_of(fs0)) implies file_index(
                files_of(fs0),
                (#[trigger] st@.frames[i].attachments[j]).file_name,
                st@.frames[i].attachments[j].file_type,
            ) is Some by {
            assert(st@.frames[i] == s0.frames[i]);
        }
        return LoadAction::Leave;
    }
    let k = st.frames[top].next;
    assert(st.frames@[top as int]@ == s0.frames.last());
    let a = st.frames[top].attachments[k].duplicate();
    assert(a@ == s0.frames.last().attachments[k as int]);
    let already = st.has_read(a.file_name.as_str(), a.file_type);
    let path = attachment_path(st.frames[top].dir.as_str(), &a);
    let mut frame = st.frames.pop().unwrap();
    frame.next = k + 1;
    st.frames.push(frame);
    assert(st@.frames =~= advance(s0).frames);
    assert(st@.read == s0.read);
    let to_read = get_file(&a, files, already);
    proof {
        if walked_loaded(s0, files_of(fs0)) {
            let fsn = files_of(files@);
            assert forall|name: Seq<char>, ft: FileType|
                #[trigger] file_index(files_of(fs0), name, ft) is Some implies file_index(fsn, name, ft) is Some by {
                if to_read {
                    let f = choose|f: File|
                        #![auto]
                        files@ == files_with(fs0, f) && f.identifier@ == a.file_name@ && f.file_type
                            == a.file_type && f.spells@.len() == 0 && f.attachments@.len() == 0
                            && f.rituals@.len() == 0 && f.content@.len() == 0;
                    lemma_files_with_keeps(fs0, f, name, ft);
                }
            }
            if to_read {
                let f = choose|f: File|
                    #![auto]
                    files@ == files_with(fs0, f) && f.identifier@ == a.file_name@ && f.file_type
                        == a.file_type && f.spells@.len() == 0 && f.attachments@.len() == 0
                        && f.rituals@.len() == 0 && f.content@.len() == 0;
                lemma_files_with_finds(fs0, f);
            }
            assert(file_index(fsn, a.file_name@, a.file_type) is Some);
            assert forall|i: int, j: int|
                0 <= i < st@.frames.len() && 0 <= j < st@.frames[i].next && j < st@.frames[i].attachments.len()
                    implies file_index(
                    fsn,
                    (#[trigger] st@.frames[i].attachments[j]).file_name,
                    st@.frames[i].attachments[j].file_type,
                ) is Some by {
                if i == top {
                    if j < k {
                        assert(st@.frames[i].attachments[j] == s0.frames[i].attachments[j]);
                        assert(file_index(files_of(fs0), s0.frames[i].attachments[j].file_name, s0.frames[i].attachments[j].file_type) is Some);
                    } else {
                        assert(st@.frames[i].attachments[j] == a@);
                    }
                } else {
                    assert(st@.frames[i] == s0.frames[i]);
                    assert(file_index(files_of(fs0), s0.frames[i].attachments[j].file_name, s0.frames[i].attachments[j].file_type) is Some);
                }
            }
        }
    }
    if to_read {
        let ghost before = st@.read;
        st.read.push((a.file_name.clone(), a.file_type));
        assert(st@.read =~= before.push((a.file_name@, a.file_type)));
        let ghost before_aw = st@.awaiting;
        st.awaiting.push((a.file_name.clone(), a.file_type));
        assert(st@.awaiting =~= before_aw.push((a.file_name@, a.file_type)));
        proof {
            let f = choose|f: File|
                #![auto]
                files@ == files_with(fs0, f) && f.identifier@ == a.file_name@ && f.file_type
                    == a.file_type && f.spells@.len() == 0 && f.attachments@.len() == 0
                    && f.rituals@.len() == 0 && f.content@.len() == 0;
            assert forall|name: Seq<char>, ft: FileType|
                #[trigger] file_index(files_of(fs0), name, ft) is Some implies file_index(
                    files_of(files@),
                    name,
                    ft,
                ) is Some by {
                lemma_files_with_keeps(fs0, f, name, ft);
            }
            lemma_files_with_finds(fs0, f);
            if load_wf(s0, files_of(fs0)) {
                assert forall|i: int| 0 <= i < st@.read.len() implies file_index(
                    files_of(files@),
                    (#[trigger] st@.read[i]).0,
                    st@.read[i].1,
                ) is Some by {
                    if i < s0.read.len() {
                        assert(st@.read[i] == s0.read[i]);
                        assert(file_index(files_of(fs0), s0.read[i].0, s0.read[i].1) is Some);
                        lemma_files_with_keeps(fs0, f, s0.read[i].0, s0.read[i].1);
                    }
                }
                if was_read(s0, a.file_name@, a.file_type) {
                    let i = choose|i: int| 0 <= i < s0.read.len() && s0.read[i] == (a.file_name@, a.file_type);
                    assert(file_index(files_of(fs0), s0.read[i].0, s0.read[i].1) is Some);
                }
                if walk_covers(s0, files_of(fs0)) {
                    lemma_covers_read(s0, fs0, f);
                    assert(st@ == LoadStateModel {
                        frames: advance(s0).frames,
                        read: s0.read.push((f.identifier@, f.file_type)),
                        awaiting: s0.awaiting.push((f.identifier@, f.file_type)),
                    });
                }
            }
        }
        LoadAction::Read { path, attachment: a }
    } else {
        proof {
            if load_wf(s0, files_of(fs0)) && walk_covers(s0, files_of(fs0)) {
                lemma_covers_skip(s0, files_of(fs0));
                assert(st@ == advance(s0));
            }
        }
        LoadAction::Skip
    }
}

} // verus!
