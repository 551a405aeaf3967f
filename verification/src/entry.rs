//! The files that the library works on, and which files of a scan become one of them.

use std::path::PathBuf;
use vstd::prelude::*;
use crate::text::{all_ascii, ascii_lower, lowercase, same_text, to_lowercase};

verus! {

/// `PathBuf` of std: a path of the file system, carried along and never looked into.
#[verifier::external_type_specification]
#[verifier::external_body]
pub struct ExPathBuf(PathBuf);

/// `PathBuf::clone` of std: a duplicate of the path.
pub assume_specification[ <PathBuf as Clone>::clone ](path: &PathBuf) -> (r: PathBuf)
    ensures
        r == *path,
;

/// The extensions of the files that are taken for pictures.
pub const IMAGE_EXTENSIONS: [&'static str; 19] = [
    "jpg",
    "jpeg",
    "png",
    "heic",
    "heif",
    "gif",
    "bmp",
    "tiff",
    "tif",
    "webp",
    "raw",
    "cr2",
    "cr3",
    "nef",
    "arw",
    "dng",
    "orf",
    "rw2",
    "pef",
];

/// The extensions of the pictures that a browser can show by itself.
pub const BROWSER_DISPLAYABLE: [&'static str; 6] = ["jpg", "jpeg", "png", "gif", "bmp", "webp"];

/// Where a file is.
pub enum FileSource {
    /// On this machine.
    Local(PathBuf),
    /// On a NAS, by its absolute path there, such as `/volume1/photos/img.jpg`.
    Nas(String),
}

/// One file.
pub struct FileEntry {
    pub display_path: String,
    pub size: u64,
    /// Unix seconds.
    pub mtime: u64,
    /// In lower case, without the dot.
    pub ext: String,
    pub source: FileSource,
}

impl Clone for FileSource {
    fn clone(&self) -> (r: Self)
        ensures
            r == *self,
    {
        match self {
            FileSource::Local(path) => FileSource::Local(path.clone()),
            FileSource::Nas(path) => FileSource::Nas(path.clone()),
        }
    }
}

impl Clone for FileEntry {
    fn clone(&self) -> (r: Self)
        ensures
            r == *self,
    {
        FileEntry {
            display_path: self.display_path.clone(),
            size: self.size,
            mtime: self.mtime,
            ext: self.ext.clone(),
            source: self.source.clone(),
        }
    }
}

/// What a file source says.
pub enum SourceView {
    Local(PathBuf),
    Nas(Seq<char>),
}

/// What a file entry says.
pub struct EntryView {
    pub display_path: Seq<char>,
    pub size: u64,
    pub mtime: u64,
    pub ext: Seq<char>,
    pub source: SourceView,
}

impl View for FileSource {
    type V = SourceView;

    open spec fn view(&self) -> SourceView {
        match *self {
            FileSource::Local(path) => SourceView::Local(path),
            FileSource::Nas(path) => SourceView::Nas(path@),
        }
    }
}

impl View for FileEntry {
    type V = EntryView;

    open spec fn view(&self) -> EntryView {
        EntryView {
            display_path: self.display_path@,
            size: self.size,
            mtime: self.mtime,
            ext: self.ext@,
            source: self.source@,
        }
    }
}

/// What a list of entries says.
pub open spec fn entry_views(entries: Seq<FileEntry>) -> Seq<EntryView> {
    entries.map_values(|e: FileEntry| e@)
}

/// Whether `ext` is one of the texts listed.
pub open spec fn listed(list: Seq<&'static str>, ext: Seq<char>) -> bool {
    exists|i: int| 0 <= i < list.len() && (#[trigger] list[i])@ == ext
}

fn is_listed(list: &[&'static str], ext: &str) -> (r: bool)
    ensures
        r == listed(list@, ext@),
{
    let mut i: usize = 0;
    while i < list.len()
        invariant
            i <= list@.len(),
            forall|j: int| 0 <= j < i ==> (#[trigger] list@[j])@ != ext@,
        decreases list@.len() - i,
    {
        if same_text(list[i], ext) {
            assert(list@[i as int]@ == ext@);
            return true;
        }
        i += 1;
    }
    false
}

/// Whether a file with this extension belongs to a scan: any file where all are asked for, and
/// the pictures otherwise.
pub open spec fn scanned_extension(ext: Seq<char>, all_files: bool) -> bool {
    all_files || listed(IMAGE_EXTENSIONS@, ext)
}

/// Whether a file with this extension belongs to a scan.
pub fn wants_extension(ext: &str, all_files: bool) -> (r: bool)
    ensures
        r == scanned_extension(ext@, all_files),
{
    let list: [&'static str; 19] = IMAGE_EXTENSIONS;
    all_files || is_listed(list.as_slice(), ext)
}

/// Whether a browser shows a picture with this extension by itself.
pub fn is_browser_displayable(ext: &str) -> (r: bool)
    ensures
        r == listed(BROWSER_DISPLAYABLE@, ext@),
{
    let list: [&'static str; 6] = BROWSER_DISPLAYABLE;
    is_listed(list.as_slice(), ext)
}

/// The extension as an entry holds it: in lower case, and empty where the file has none.
pub open spec fn normal_extension(ext: Option<Seq<char>>) -> Seq<char> {
    match ext {
        Some(e) => lowercase(e),
        None => Seq::empty(),
    }
}

/// The extension as an entry holds it.
pub fn normalize_extension(ext: Option<&str>) -> (r: String)
    ensures
        r@ == normal_extension(
            match ext {
                Some(e) => Some(e@),
                None => None,
            },
        ),
        ext matches Some(e) ==> all_ascii(e@) ==> r@ == e@.map_values(|c: char| ascii_lower(c)),
{
    match ext {
        Some(e) => to_lowercase(e),
        None => String::new(),
    }
}

/// What the file system says of a file: its size, and when it was changed, in Unix seconds, where
/// that is known and not before 1970.
pub struct FileMeta {
    pub size: u64,
    pub mtime: Option<u64>,
}

/// A file met on a walk through a directory. `ext` is its extension as the path has it, where it
/// has one that is text; `meta` is missing where the metadata could not be read.
pub struct FoundFile {
    pub display_path: String,
    pub ext: Option<String>,
    pub meta: Option<FileMeta>,
    pub path: PathBuf,
}

/// The entry that a file with the given normalized extension becomes, where it becomes one: the
/// extension belongs to the scan, the metadata could be read and the file is not empty.
pub open spec fn entry_as(found: FoundFile, ext: Seq<char>, all_files: bool) -> Option<EntryView> {
    if scanned_extension(ext, all_files) {
        match found.meta {
            Some(meta) => if meta.size == 0 {
                None
            } else {
                Some(
                    EntryView {
                        display_path: found.display_path@,
                        size: meta.size,
                        mtime: match meta.mtime {
                            Some(seconds) => seconds,
                            None => 0,
                        },
                        ext,
                        source: SourceView::Local(found.path),
                    },
                )
            },
            None => None,
        }
    } else {
        None
    }
}

/// The entry that a file met on a walk becomes, where it becomes one.
pub open spec fn scanned_entry(found: FoundFile, all_files: bool) -> Option<EntryView> {
    entry_as(
        found,
        normal_extension(
            match found.ext {
                Some(ext) => Some(ext@),
                None => None,
            },
        ),
        all_files,
    )
}

/// The entry that a file with the given normalized extension becomes, where it becomes one.
pub fn entry_with_extension(found: FoundFile, ext: String, all_files: bool) -> (r: Option<FileEntry>)
    ensures
        match r {
            Some(entry) => entry_as(found, ext@, all_files) == Some(entry@),
            None => entry_as(found, ext@, all_files) is None,
        },
{
    if !wants_extension(ext.as_str(), all_files) {
        return None;
    }
    match found.meta {
        Some(meta) => {
            if meta.size == 0 {
                None
            } else {
                Some(
                    FileEntry {
                        display_path: found.display_path,
                        size: meta.size,
                        mtime: meta.mtime.unwrap_or(0),
                        ext,
                        source: FileSource::Local(found.path),
                    },
                )
            }
        },
        None => None,
    }
}

/// The entry that a file met on a walk becomes, where it becomes one.
pub fn local_entry(found: FoundFile, all_files: bool) -> (r: Option<FileEntry>)
    ensures
        match r {
            Some(entry) => scanned_entry(found, all_files) == Some(entry@),
            None => scanned_entry(found, all_files) is None,
        },
{
    let ext = match &found.ext {
        Some(ext) => normalize_extension(Some(ext.as_str())),
        None => normalize_extension(None),
    };
    entry_with_extension(found, ext, all_files)
}

/// The entries of a scan, in the order of the walk.
pub fn collect_local_files(found: Vec<FoundFile>, all_files: bool) -> (files: Vec<FileEntry>)
    ensures
        entry_views(files@) == found@.filter_map(|f: FoundFile| scanned_entry(f, all_files)),
{
    let mut files: Vec<FileEntry> = Vec::new();
    let ghost all = found@;
    let ghost f = |f: FoundFile| scanned_entry(f, all_files);
    assert(all.take(0) =~= Seq::<FoundFile>::empty());
    assert(entry_views(files@) =~= all.take(0).filter_map(f));
    for one in it: found
        invariant
            it.seq() == all,
            f == (|f: FoundFile| scanned_entry(f, all_files)),
            entry_views(files@) == all.take(it.index()).filter_map(f),
    {
        let ghost k = it.index();
        let ghost before = files@;
        assert(all.take(k + 1).drop_last() =~= all.take(k));
        assert(all.take(k + 1).last() == one);
        if let Some(entry) = local_entry(one, all_files) {
            files.push(entry);
            assert(entry_views(files@) =~= entry_views(before).push(entry@));
        }
    }
    assert(all.take(all.len() as int) =~= all);
    files
}

/// A scan holds no empty file, and no file but pictures unless all files were asked for.
pub proof fn law_scan_holds_what_was_asked_for(found: Seq<FoundFile>, all_files: bool, i: int)
    requires
        0 <= i < found.filter_map(|f: FoundFile| scanned_entry(f, all_files)).len(),
    ensures
        ({
            let entry = found.filter_map(|f: FoundFile| scanned_entry(f, all_files))[i];
            entry.size > 0 && (all_files || listed(IMAGE_EXTENSIONS@, entry.ext))
        }),
{
    let f = |f: FoundFile| scanned_entry(f, all_files);
    let scan = found.filter_map(f);
    assert(scan.contains(scan[i]));
    found.lemma_filter_map_contains(f, scan[i]);
}

/// The extensions that are taken for pictures, and those that a browser shows.
pub proof fn law_picture_extensions(ext: Seq<char>)
    ensures
        listed(IMAGE_EXTENSIONS@, ext) <==> {
            ||| ext == "jpg"@
            ||| ext == "jpeg"@
            ||| ext == "png"@
            ||| ext == "heic"@
            ||| ext == "heif"@
            ||| ext == "gif"@
            ||| ext == "bmp"@
            ||| ext == "tiff"@
            ||| ext == "tif"@
            ||| ext == "webp"@
            ||| ext == "raw"@
            ||| ext == "cr2"@
            ||| ext == "cr3"@
            ||| ext == "nef"@
            ||| ext == "arw"@
            ||| ext == "dng"@
            ||| ext == "orf"@
            ||| ext == "rw2"@
            ||| ext == "pef"@
        },
        listed(BROWSER_DISPLAYABLE@, ext) <==> {
            ||| ext == "jpg"@
            ||| ext == "jpeg"@
            ||| ext == "png"@
            ||| ext == "gif"@
            ||| ext == "bmp"@
            ||| ext == "webp"@
        },
{
    let all = IMAGE_EXTENSIONS@;
    let shown = BROWSER_DISPLAYABLE@;
    assert(all.len() == 19 && shown.len() == 6);
    assert(all[0]@ == "jpg"@ && all[1]@ == "jpeg"@ && all[2]@ == "png"@ && all[3]@ == "heic"@
        && all[4]@ == "heif"@ && all[5]@ == "gif"@ && all[6]@ == "bmp"@ && all[7]@ == "tiff"@
        && all[8]@ == "tif"@ && all[9]@ == "webp"@ && all[10]@ == "raw"@ && all[11]@ == "cr2"@
        && all[12]@ == "cr3"@ && all[13]@ == "nef"@ && all[14]@ == "arw"@ && all[15]@ == "dng"@
        && all[16]@ == "orf"@ && all[17]@ == "rw2"@ && all[18]@ == "pef"@);
    assert(shown[0]@ == "jpg"@ && shown[1]@ == "jpeg"@ && shown[2]@ == "png"@ && shown[3]@
        == "gif"@ && shown[4]@ == "bmp"@ && shown[5]@ == "webp"@);
}

/// A file that was met becomes an entry exactly when its metadata could be read, it is not empty, and
/// all files are scanned or it is a picture by its extension. The entry tells of the file what was
/// found out: its path, its size, its extension, and its time of change where that is known.
pub proof fn law_scan_takes_every_picture(found: FoundFile, all_files: bool)
    ensures
        ({
            let ext = match found.ext {
                Some(text) => lowercase(text@),
                None => Seq::empty(),
            };
            let entry = scanned_entry(found, all_files);
            &&& entry is Some <==> found.meta is Some && found.meta->0.size > 0 && (all_files
                || listed(IMAGE_EXTENSIONS@, ext))
            &&& entry is Some ==> {
                &&& entry->0.display_path == found.display_path@
                &&& entry->0.size == found.meta->0.size
                &&& found.meta->0.mtime is Some ==> entry->0.mtime == found.meta->0.mtime->0
                &&& found.meta->0.mtime is None ==> entry->0.mtime == 0
                &&& entry->0.ext == ext
                &&& entry->0.source == SourceView::Local(found.path)
            }
        }),
{
}

/// A scan goes file by file: one more file adds its entry, where it becomes one, behind the others.
pub proof fn law_scan_goes_file_by_file(found: Seq<FoundFile>, one: FoundFile, all_files: bool)
    ensures
        ({
            let scan = |f: FoundFile| scanned_entry(f, all_files);
            found.push(one).filter_map(scan) == found.filter_map(scan) + match scanned_entry(
                one,
                all_files,
            ) {
                Some(entry) => seq![entry],
                None => Seq::empty(),
            }
        }),
{
    let scan = |f: FoundFile| scanned_entry(f, all_files);
    assert(found.push(one).drop_last() =~= found);
    assert(found.push(one).filter_map(scan) =~= found.filter_map(scan) + match scanned_entry(
        one,
        all_files,
    ) {
        Some(entry) => seq![entry],
        None => Seq::empty(),
    });
}

} // verus!
