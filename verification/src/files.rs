use vstd::prelude::*;
use vstd::string::*;

use crate::ast::{files_of, Attachment, AttachmentModel, File, FileModel, FileType};
use crate::declarations::{file_type_named, spec_file_type_named};
use crate::types::{file_index, find_file, lemma_file_index_facts};

verus! {

/// The file type that a path's extension names; an unknown extension makes a `necr` file.
pub open spec fn spec_file_type_of_extension(extension: Seq<char>) -> FileType {
    match spec_file_type_named(extension) {
        Some(ft) => ft,
        None => FileType::Necr,
    }
}

/// The file type that a path's extension (without its dot) names; an unknown
/// extension makes a `necr` file.
pub fn file_type_of_extension(extension: &str) -> (ft: FileType)
    ensures
        ft == spec_file_type_of_extension(extension@),
{
    match file_type_named(extension) {
        Some(ft) => ft,
        None => FileType::Necr,
    }
}

/// The extension, with its dot, of the files of a type.
pub open spec fn extension_text(file_type: FileType) -> Seq<char> {
    match file_type {
        FileType::Necr => ".necr"@,
        FileType::Wiza => ".wiza"@,
        FileType::Sorc => ".sorc"@,
        FileType::Hexy => ".hexy"@,
    }
}

/// The extension, with its dot, of the files of a type.
pub fn file_extension(file_type: FileType) -> (e: &'static str)
    ensures
        e@ == extension_text(file_type),
{
    match file_type {
        FileType::Necr => ".necr",
        FileType::Wiza => ".wiza",
        FileType::Sorc => ".sorc",
        FileType::Hexy => ".hexy",
    }
}

/// The path of an attached file: the directory of the attaching file, a slash,
/// the file's name and its extension.
pub fn attachment_path(dir: &str, attachment: &Attachment) -> (p: String)
    ensures
        p@ == dir@ + "/"@ + attachment.file_name@ + extension_text(attachment.file_type),
{
    let mut p = dir.to_owned();
    p.append("/");
    p.append(attachment.file_name.as_str());
    p.append(file_extension(attachment.file_type));
    p
}

impl File {
    /// A file of the given name and type with nothing declared in it yet.
    pub fn empty(identifier: String, file_type: FileType) -> (f: File)
        ensures
            f.identifier@ == identifier@,
            f.file_type == file_type,
            f.spells@.len() == 0,
            f.attachments@.len() == 0,
            f.rituals@.len() == 0,
            f.content@.len() == 0,
    {
        File {
            identifier,
            file_type,
            spells: Vec::new(),
            attachments: Vec::new(),
            rituals: Vec::new(),
            content: Vec::new(),
        }
    }
}

/// The files with `file` added under its name and type: it takes the place of
/// the file of that name and type, or is added at the end.
pub open spec fn files_with(files: Seq<File>, file: File) -> Seq<File> {
    match file_index(files_of(files), file.identifier@, file.file_type) {
        Some(i) => files.update(i, file),
        None => files.push(file),
    }
}

/// Whether no two of the loaded files have the same name and type.
pub open spec fn files_unique(fs: Seq<FileModel>) -> bool {
    forall|i: int, j: int|
        0 <= i < j < fs.len() ==> !(#[trigger] fs[i].identifier == #[trigger] fs[j].identifier
            && fs[i].file_type == fs[j].file_type)
}

/// Adding a file under its name and type keeps the loaded files unique by
/// name and type.
pub proof fn law_files_with_keeps_unique(fs: Seq<File>, f: File)
    requires
        files_unique(files_of(fs)),
    ensures
        files_unique(files_of(files_with(fs, f))),
{
    let m = files_of(fs);
    lemma_file_index_facts(m, f.identifier@, f.file_type);
    let r = files_of(files_with(fs, f));
    match file_index(m, f.identifier@, f.file_type) {
        Some(k) => {
            assert forall|i: int, j: int| 0 <= i < j < r.len() implies !(#[trigger] r[i].identifier
                == #[trigger] r[j].identifier && r[i].file_type == r[j].file_type) by {
                assert(r[i].identifier == m[i].identifier && r[i].file_type == m[i].file_type);
                assert(r[j].identifier == m[j].identifier && r[j].file_type == m[j].file_type);
            }
        },
        None => {
            assert forall|i: int, j: int| 0 <= i < j < r.len() implies !(#[trigger] r[i].identifier
                == #[trigger] r[j].identifier && r[i].file_type == r[j].file_type) by {
                assert(r[i] == m[i]);
                if j < m.len() {
                    assert(r[j] == m[j]);
                }
            }
        },
    }
}

/// Adds `file` under its name and type, in place of the file of that name and
/// type where there is one.
pub fn insert_file(files: &mut Vec<File>, file: File)
    ensures
        final(files)@ == files_with(old(files)@, file),
        files_unique(files_of(old(files)@)) ==> files_unique(files_of(final(files)@)),
{
    proof {
        if files_unique(files_of(files@)) {
            law_files_with_keeps_unique(files@, file);
        }
    }
    match find_file(files, file.identifier.as_str(), file.file_type) {
        Some(i) => {
            files.set(i, file);
        },
        None => {
            files.push(file);
        },
    }
}

/// Registers the file that a path names, given the path's file stem and
/// extension: an empty file named after the stem, of the type that the
/// extension names, is added (in place of one of that name and type). The
/// attachment that names it is returned; its text is to be read next.
pub fn create_file(stem: &str, extension: &str, files: &mut Vec<File>) -> (at: Attachment)
    ensures
        at@ == (AttachmentModel {
            identifier: stem@,
            file_name: stem@,
            file_type: spec_file_type_of_extension(extension@),
            context: 0,
        }),
        exists|f: File|
            #![auto]
            final(files)@ == files_with(old(files)@, f) && f.identifier@ == stem@ && f.file_type
                == at.file_type && f.spells@.len() == 0 && f.attachments@.len() == 0
                && f.rituals@.len() == 0 && f.content@.len() == 0,
        files_unique(files_of(old(files)@)) ==> files_unique(files_of(final(files)@)),
{
    let file_type = file_type_of_extension(extension);
    let at = Attachment {
        identifier: stem.to_owned(),
        file_name: stem.to_owned(),
        file_type,
        context: 0,
    };
    let f = File::empty(stem.to_owned(), file_type);
    let ghost fv = f;
    insert_file(files, f);
    assert(final(files)@ == files_with(old(files)@, fv));
    at
}

/// Whether the file that `attachment` names is still to be read: unless it is
/// both registered and already read, an empty file of that name and type is
/// added (in place of one of that name and type) and `true` is returned.
/// Either way the file is registered afterwards, so a second call told that
/// the file has been read returns `false` and changes nothing.
pub fn get_file(attachment: &Attachment, files: &mut Vec<File>, already_read: bool) -> (to_read: bool)
    ensures
        to_read == !(file_index(files_of(old(files)@), attachment.file_name@, attachment.file_type)
            is Some && already_read),
        !to_read ==> final(files)@ == old(files)@,
        to_read ==> exists|f: File|
            #![auto]
            final(files)@ == files_with(old(files)@, f) && f.identifier@ == attachment.file_name@
                && f.file_type == attachment.file_type && f.spells@.len() == 0
                && f.attachments@.len() == 0 && f.rituals@.len() == 0 && f.content@.len() == 0,
        files_unique(files_of(old(files)@)) ==> files_unique(files_of(final(files)@)),
        file_index(files_of(final(files)@), attachment.file_name@, attachment.file_type) is Some,
{
    if find_file(files, attachment.file_name.as_str(), attachment.file_type).is_some()
        && already_read {
        return false;
    }
    let f = File::empty(attachment.file_name.clone(), attachment.file_type);
    let ghost fv = f;
    insert_file(files, f);
    assert(final(files)@ == files_with(old(files)@, fv));
    proof {
        crate::laws::law_insert_file_then_find(old(files)@, fv);
    }
    true
}

} // verus!
