//! Zip archives of a directory, made in memory with the `zip` crate from the
//! entries that a walk of the directory found.

use vstd::prelude::*;
use vstd::utf8::encode_utf8;
use std::io::Cursor;
use std::io::Write;
use zip::write::FileOptions;
use zip::ZipWriter;
use crate::paths::{std_path_strip_prefix, path_strip_prefix};
use crate::text::same_text;

verus! {

/// A zip writer over an in-memory buffer. Its writer type is bounded by the
/// `std::io` traits `Write` and `Seek`, which a type declaration here cannot
/// name, so the writer is held in this opaque struct.
#[verifier::external_body]
pub struct ZipBuilder {
    writer: ZipWriter<Cursor<Vec<u8>>>,
}

#[verifier::external_type_specification]
#[verifier::external_body]
pub struct ExFileOptions(zip::write::FileOptions);

/// An entry of a zip archive: a directory, or a file with its data and
/// whether that data is stored deflated.
pub enum ZipItem {
    Directory(Seq<char>),
    File(Seq<char>, Seq<u8>, bool),
}

/// The entries that a zip writer holds so far, in the order they were added.
pub uninterp spec fn zip_items(w: ZipBuilder) -> Seq<ZipItem>;

/// Whether a zip writer is ready for more: not closed, its last entry open
/// for data exactly when it is a file, that file's data shorter than
/// `file_data_limit()` bytes (so that, deflated, it fits the archive without
/// the large-file option), and every entry's name shorter than 65536 UTF-8
/// bytes (the zip format records a name's length in 16 bits).
pub uninterp spec fn zip_open(w: ZipBuilder) -> bool;

/// Whether the options ask for `Deflated` compression.
pub uninterp spec fn options_deflate(o: FileOptions) -> bool;

/// Whether the options set neither a compression level nor encryption.
pub uninterp spec fn options_plain(o: FileOptions) -> bool;

/// Whether `bytes` is a zip archive that holds the entries `items`.
pub uninterp spec fn zip_archive_holds(bytes: Seq<u8>, items: Seq<ZipItem>) -> bool;

/// The most data, in bytes, that one file of an archive is held to. The
/// deflate encoder falls back to stored blocks, a few bytes per block over
/// the data, so a file below this stays below the format's 4 GiB limit.
pub open spec fn file_data_limit() -> nat {
    0xC000_0000
}

/// Whether a name fits the zip format's 16-bit name length.
pub open spec fn name_fits(name: Seq<char>) -> bool {
    encode_utf8(name).len() < 0x1_0000
}

/// The name under which `ZipWriter::add_directory` records a directory:
/// the given name, with a `/` added unless it ends in `/` or `\`.
pub open spec fn directory_entry_name(name: Seq<char>) -> Seq<char> {
    if name.len() > 0 && (name.last() == '/' || name.last() == '\\') {
        name
    } else {
        name.push('/')
    }
}

/// `ZipWriter::new` over an empty in-memory buffer: an open writer with no
/// entries.
#[verifier::external_body]
fn new_zip_writer() -> (w: ZipBuilder)
    ensures
        zip_items(w) == Seq::<ZipItem>::empty(),
        zip_open(w),
{
    ZipBuilder { writer: ZipWriter::new(Cursor::new(Vec::new())) }
}

/// `FileOptions::default`: no compression level, no encryption, and the
/// current time as the entries' time stamp.
#[verifier::external_body]
fn default_file_options() -> (o: FileOptions)
    ensures
        options_plain(o),
{
    FileOptions::default()
}

/// `FileOptions::compression_method` with `Deflated`: changes the method
/// only.
#[verifier::external_body]
fn deflated(options: FileOptions) -> (o: FileOptions)
    ensures
        options_deflate(o),
        options_plain(o) == options_plain(options),
{
    options.compression_method(zip::CompressionMethod::Deflated)
}

/// `ZipWriter::add_directory`: on success the writer holds one more entry,
/// the directory under `directory_entry_name(name)`. An open writer over an
/// in-memory buffer does not fail here, and stays open when that name fits.
#[verifier::external_body]
fn add_directory(w: &mut ZipBuilder, name: String, options: FileOptions) -> (ok: bool)
    ensures
        ok ==> zip_items(*final(w)) == zip_items(*old(w)).push(ZipItem::Directory(directory_entry_name(name@))),
        zip_open(*old(w)) ==> ok,
        zip_open(*old(w)) && name_fits(directory_entry_name(name@)) ==> zip_open(*final(w)),
{
    w.writer.add_directory(name, options).is_ok()
}

/// `ZipWriter::start_file`: on success the writer holds one more entry, an
/// empty file named `name`, deflated when the options say so, which later
/// writes fill. An open writer does not fail here with plain options that
/// ask for `Deflated`, and stays open when the name fits.
#[verifier::external_body]
fn start_file(w: &mut ZipBuilder, name: String, options: FileOptions) -> (ok: bool)
    ensures
        ok ==> zip_items(*final(w)) == zip_items(*old(w)).push(
            ZipItem::File(name@, Seq::empty(), options_deflate(options)),
        ),
        zip_open(*old(w)) && options_plain(options) && options_deflate(options) ==> ok,
        zip_open(*old(w)) && options_plain(options) && options_deflate(options) && name_fits(name@)
            ==> zip_open(*final(w)),
{
    w.writer.start_file(name, options).is_ok()
}

/// `Write::write_all` on a zip writer: empty data is written at once; other
/// data is appended to the file started last, and writing fails unless the
/// last entry is a file. An open writer does not fail, and stays open, while
/// that file's data stays below `file_data_limit()` bytes.
#[verifier::external_body]
fn write_data(w: &mut ZipBuilder, data: &[u8]) -> (ok: bool)
    ensures
        data@.len() == 0 ==> ok && zip_items(*final(w)) == zip_items(*old(w)) && zip_open(*final(w))
            == zip_open(*old(w)),
        ok && data@.len() > 0 ==> {
            let items = zip_items(*old(w));
            &&& items.len() > 0
            &&& items.last() is File
            &&& zip_items(*final(w)) == items.drop_last().push(
                ZipItem::File(items.last()->File_0, items.last()->File_1 + data@, items.last()->File_2),
            )
        },
        ({
            let items = zip_items(*old(w));
            zip_open(*old(w)) && items.len() > 0 && items.last() is File
                && items.last()->File_1.len() + data@.len() < file_data_limit()
        }) ==> ok && zip_open(*final(w)),
{
    w.writer.write_all(data).is_ok()
}

/// `ZipWriter::finish` and the buffer's bytes: an open writer does not fail.
/// When it succeeds and every name fits the format, the archive holds the
/// writer's entries; a name too long for the format is written with its
/// length cut to 16 bits, so of such an archive nothing is stated. The
/// bytes carry the entries' time stamps, so nothing more is stated of them.
#[verifier::external_body]
fn finish_zip(w: &mut ZipBuilder) -> (bytes: Option<Vec<u8>>)
    ensures
        zip_open(*old(w)) ==> bytes is Some,
        names_fit(zip_items(*old(w))) ==> (bytes matches Some(b) ==> zip_archive_holds(b@, zip_items(*old(w)))),
{
    match w.writer.finish() {
        Ok(cursor) => Some(cursor.into_inner()),
        Err(_) => None,
    }
}

/// One entry found by walking the directory: its path, whether it is a
/// directory, and, for anything else, its contents.
pub struct WalkedEntry {
    pub path: String,
    pub is_dir: bool,
    pub contents: Vec<u8>,
}

/// The name of a walked entry relative to `dir`: empty for `dir` itself (as
/// `Path::strip_prefix` gives for a path and itself), else what
/// `Path::strip_prefix` gives; `None` when the entry does not lie in `dir`.
pub open spec fn relative_name(dir: Seq<char>, path: Seq<char>) -> Option<Seq<char>> {
    if path == dir {
        Some(Seq::empty())
    } else {
        std_path_strip_prefix(path, dir)
    }
}

/// The archive entry for a walked entry with relative name `name`, none for
/// the directory itself (whose relative name is empty); files are deflated.
pub open spec fn item_for(name: Seq<char>, is_dir: bool, contents: Seq<u8>) -> Seq<ZipItem> {
    if name.len() == 0 {
        Seq::empty()
    } else if is_dir {
        seq![ZipItem::Directory(directory_entry_name(name))]
    } else {
        seq![ZipItem::File(name, contents, true)]
    }
}

/// The entries of the archive of `dir` made from the walked entries, named
/// relative to `dir`; `None` when an entry does not lie in `dir`.
pub open spec fn planned_items(dir: Seq<char>, entries: Seq<WalkedEntry>) -> Option<Seq<ZipItem>>
    decreases entries.len(),
{
    if entries.len() == 0 {
        Some(Seq::empty())
    } else {
        let e = entries.last();
        match (planned_items(dir, entries.drop_last()), relative_name(dir, e.path@)) {
            (Some(items), Some(name)) => Some(items + item_for(name, e.is_dir, e.contents@)),
            _ => None,
        }
    }
}

/// Whether each walked entry's contents are shorter than `file_data_limit()`
/// bytes, so that no entry needs the zip format's large-file extension.
pub open spec fn contents_fit(entries: Seq<WalkedEntry>) -> bool {
    forall|i: int| 0 <= i < entries.len() ==> (#[trigger] entries[i]).contents@.len() < file_data_limit()
}

/// The name under which an archive entry is recorded.
pub open spec fn item_name(item: ZipItem) -> Seq<char> {
    match item {
        ZipItem::Directory(n) => n,
        ZipItem::File(n, _, _) => n,
    }
}

/// Whether every entry's name fits the zip format's 16-bit name length.
pub open spec fn names_fit(items: Seq<ZipItem>) -> bool {
    forall|i: int| 0 <= i < items.len() ==> name_fits(item_name(#[trigger] items[i]))
}

proof fn lemma_planned_prefix(dir: Seq<char>, entries: Seq<WalkedEntry>, k: int)
    requires
        0 <= k <= entries.len(),
        planned_items(dir, entries) is Some,
    ensures
        planned_items(dir, entries.take(k)) is Some,
        planned_items(dir, entries.take(k))->Some_0.is_prefix_of(planned_items(dir, entries)->Some_0),
    decreases entries.len() - k,
{
    if k == entries.len() {
        assert(entries.take(k) == entries);
    } else {
        lemma_planned_prefix(dir, entries, k + 1);
        assert(entries.take(k + 1).drop_last() == entries.take(k));
        let q = planned_items(dir, entries.take(k + 1))->Some_0;
        let p = planned_items(dir, entries.take(k))->Some_0;
        assert(p.is_prefix_of(q));
    }
}

/// The zip archive of the directory `dir` from the entries that walking it
/// found: each entry but `dir` itself, under its path relative to `dir`,
/// directories as directories and everything else as deflated files with
/// their contents. Whenever the names fit the format, an archive that is
/// made holds these entries; it is made whenever, moreover, every entry lies
/// in `dir` and no contents reach `file_data_limit()` bytes. `None` when an
/// entry lies elsewhere.
pub fn archive_to_zip(dir: &str, entries: &Vec<WalkedEntry>) -> (bytes: Option<Vec<u8>>)
    ensures
        planned_items(dir@, entries@) is None ==> bytes is None,
        names_fit(planned_items(dir@, entries@)->Some_0) ==> (bytes matches Some(b) ==> zip_archive_holds(
            b@,
            planned_items(dir@, entries@)->Some_0,
        )),
        ({
            &&& planned_items(dir@, entries@) is Some
            &&& contents_fit(entries@)
            &&& names_fit(planned_items(dir@, entries@)->Some_0)
        }) ==> (bytes matches Some(b) && zip_archive_holds(b@, planned_items(dir@, entries@)->Some_0)),
{
    let mut w = new_zip_writer();
    let options = deflated(default_file_options());
    let ghost good = planned_items(dir@, entries@) is Some && contents_fit(entries@) && names_fit(
        planned_items(dir@, entries@)->Some_0,
    );
    let mut i: usize = 0;
    while i < entries.len()
        invariant
            i <= entries.len(),
            planned_items(dir@, entries@.take(i as int)) == Some(zip_items(w)),
            good == (planned_items(dir@, entries@) is Some && contents_fit(entries@) && names_fit(
                planned_items(dir@, entries@)->Some_0,
            )),
            good ==> zip_open(w),
            options_plain(options),
            options_deflate(options),
        decreases entries.len() - i,
    {
        let e = &entries[i];
        assert(entries@.take(i + 1).drop_last() == entries@.take(i as int));
        assert(entries@.take(i + 1).last() == entries@[i as int]);
        let name = if same_text(e.path.as_str(), dir) {
            String::new()
        } else {
            match path_strip_prefix(e.path.as_str(), dir) {
                Some(n) => n,
                None => {
                    proof {
                        lemma_planned_items_none(dir@, entries@, i + 1);
                    }
                    return None;
                },
            }
        };
        let ghost before = zip_items(w);
        proof {
            if good {
                lemma_planned_prefix(dir@, entries@, i + 1);
                let all = planned_items(dir@, entries@)->Some_0;
                let q = planned_items(dir@, entries@.take(i + 1))->Some_0;
                assert(q == before + item_for(name@, e.is_dir, e.contents@));
                if name@.len() > 0 {
                    assert(all[before.len() as int] == q[before.len() as int]);
                    assert(name_fits(item_name(all[before.len() as int])));
                    assert(e.contents@.len() < file_data_limit());
                }
            }
        }
        if !name.as_str().is_empty() {
            if e.is_dir {
                if !add_directory(&mut w, name, options) {
                    return None;
                }
            } else {
                if !start_file(&mut w, name, options) {
                    return None;
                }
                if !write_data(&mut w, e.contents.as_slice()) {
                    return None;
                }
                assert(Seq::<u8>::empty() + e.contents@ == e.contents@);
                assert(zip_items(w) == before + item_for(name@, e.is_dir, e.contents@));
            }
        } else {
            assert(before + item_for(name@, e.is_dir, e.contents@) == before);
        }
        i = i + 1;
    }
    assert(entries@.take(entries.len() as int) == entries@);
    finish_zip(&mut w)
}

/// Whether `item` is the archive entry of a walked entry of `entries`.
pub open spec fn from_walked_entry(dir: Seq<char>, entries: Seq<WalkedEntry>, item: ZipItem) -> bool {
    exists|i: int|
        0 <= i < entries.len() && (#[trigger] relative_name(dir, entries[i].path@)) is Some && item_for(
            relative_name(dir, entries[i].path@)->Some_0,
            entries[i].is_dir,
            entries[i].contents@,
        ) == seq![item]
}

/// The planned archive holds an entry for each walked entry but `dir`
/// itself, in walk order, and nothing else.
pub proof fn lemma_planned_items_cover(dir: Seq<char>, entries: Seq<WalkedEntry>)
    requires
        planned_items(dir, entries) is Some,
    ensures
        forall|i: int| 0 <= i < entries.len() ==> (#[trigger] relative_name(dir, entries[i].path@) matches Some(n)
            && (n.len() > 0 ==> planned_items(dir, entries)->Some_0.contains(
                item_for(n, entries[i].is_dir, entries[i].contents@)[0],
            ))),
        forall|j: int| 0 <= j < planned_items(dir, entries)->Some_0.len() ==> from_walked_entry(
            dir,
            entries,
            #[trigger] planned_items(dir, entries)->Some_0[j],
        ),
    decreases entries.len(),
{
    if entries.len() > 0 {
        let prev = entries.drop_last();
        lemma_planned_items_cover(dir, prev);
        let p = planned_items(dir, prev)->Some_0;
        let e = entries.last();
        let n = relative_name(dir, e.path@)->Some_0;
        let x = item_for(n, e.is_dir, e.contents@);
        let items = p + x;
        assert(planned_items(dir, entries)->Some_0 == items);
        assert forall|i: int| 0 <= i < entries.len() implies (#[trigger] relative_name(dir, entries[i].path@) matches Some(m)
            && (m.len() > 0 ==> items.contains(item_for(m, entries[i].is_dir, entries[i].contents@)[0]))) by {
            if i < entries.len() - 1 {
                assert(entries[i] == prev[i]);
                assert(relative_name(dir, prev[i].path@) is Some);
                let m = relative_name(dir, prev[i].path@)->Some_0;
                if m.len() > 0 {
                    let it = item_for(m, prev[i].is_dir, prev[i].contents@)[0];
                    assert(p.contains(it));
                    let k = choose|k: int| 0 <= k < p.len() && p[k] == it;
                    assert(items[k] == it);
                }
            } else {
                if n.len() > 0 {
                    assert(items[p.len() as int] == x[0]);
                }
            }
        }
        assert forall|j: int| 0 <= j < items.len() implies from_walked_entry(dir, entries, #[trigger] items[j]) by {
            if j < p.len() {
                assert(items[j] == p[j]);
                assert(from_walked_entry(dir, prev, p[j]));
                let i = choose|i: int|
                    0 <= i < prev.len() && (#[trigger] relative_name(dir, prev[i].path@)) is Some && item_for(
                        relative_name(dir, prev[i].path@)->Some_0,
                        prev[i].is_dir,
                        prev[i].contents@,
                    ) == seq![p[j]];
                assert(entries[i] == prev[i]);
            } else {
                assert(items[j] == x[j - p.len()]);
                assert(x.len() == 1);
                assert(x == seq![items[j]]);
                assert(entries[entries.len() - 1] == e);
                assert(relative_name(dir, entries[entries.len() - 1].path@) == Some(n));
            }
        }
    }
}

/// Each walked entry but `dir` itself is archived under its name relative to
/// `dir`: a directory as a directory entry, anything else as a deflated file
/// that holds exactly its contents, empty contents included. Conversely, each
/// directory entry of the archive is a walked directory, and each file entry
/// a walked non-directory with its contents.
pub proof fn lemma_walked_entries_archived(dir: Seq<char>, entries: Seq<WalkedEntry>)
    requires
        planned_items(dir, entries) is Some,
    ensures
        forall|i: int|
            0 <= i < entries.len() && !entries[i].is_dir && (#[trigger] relative_name(dir, entries[i].path@))->Some_0.len()
                > 0 ==> planned_items(dir, entries)->Some_0.contains(
                ZipItem::File(relative_name(dir, entries[i].path@)->Some_0, entries[i].contents@, true),
            ),
        forall|i: int|
            0 <= i < entries.len() && entries[i].is_dir && (#[trigger] relative_name(dir, entries[i].path@))->Some_0.len()
                > 0 ==> planned_items(dir, entries)->Some_0.contains(
                ZipItem::Directory(directory_entry_name(relative_name(dir, entries[i].path@)->Some_0)),
            ),
        forall|j: int| 0 <= j < planned_items(dir, entries)->Some_0.len() ==> (
        #[trigger] planned_items(dir, entries)->Some_0[j] matches ZipItem::Directory(d) ==> exists|i: int|
            0 <= i < entries.len() && entries[i].is_dir && d == directory_entry_name(
                (#[trigger] relative_name(dir, entries[i].path@))->Some_0,
            )),
        forall|j: int| 0 <= j < planned_items(dir, entries)->Some_0.len() ==> (
        #[trigger] planned_items(dir, entries)->Some_0[j] matches ZipItem::File(n, c, deflate) ==> deflate
            && exists|i: int|
            0 <= i < entries.len() && !entries[i].is_dir && c == entries[i].contents@ && n == (
            #[trigger] relative_name(dir, entries[i].path@))->Some_0),
{
    lemma_planned_items_cover(dir, entries);
    let items = planned_items(dir, entries)->Some_0;
    assert forall|j: int| 0 <= j < items.len() implies (#[trigger] items[j] matches ZipItem::Directory(d)
        ==> exists|i: int|
        0 <= i < entries.len() && entries[i].is_dir && d == directory_entry_name(
            (#[trigger] relative_name(dir, entries[i].path@))->Some_0,
        )) by {
        assert(from_walked_entry(dir, entries, items[j]));
        let i = choose|i: int|
            0 <= i < entries.len() && (#[trigger] relative_name(dir, entries[i].path@)) is Some && item_for(
                relative_name(dir, entries[i].path@)->Some_0,
                entries[i].is_dir,
                entries[i].contents@,
            ) == seq![items[j]];
        let n = relative_name(dir, entries[i].path@)->Some_0;
        let x = item_for(n, entries[i].is_dir, entries[i].contents@);
        assert(x[0] == items[j]);
    }
    assert forall|j: int| 0 <= j < items.len() implies (#[trigger] items[j] matches ZipItem::File(n, c, deflate)
        ==> deflate && exists|i: int|
        0 <= i < entries.len() && !entries[i].is_dir && c == entries[i].contents@ && n == (
        #[trigger] relative_name(dir, entries[i].path@))->Some_0) by {
        assert(from_walked_entry(dir, entries, items[j]));
        let i = choose|i: int|
            0 <= i < entries.len() && (#[trigger] relative_name(dir, entries[i].path@)) is Some && item_for(
                relative_name(dir, entries[i].path@)->Some_0,
                entries[i].is_dir,
                entries[i].contents@,
            ) == seq![items[j]];
        let n = relative_name(dir, entries[i].path@)->Some_0;
        let x = item_for(n, entries[i].is_dir, entries[i].contents@);
        assert(x[0] == items[j]);
    }
}

proof fn lemma_planned_items_none(dir: Seq<char>, entries: Seq<WalkedEntry>, k: int)
    requires
        0 <= k <= entries.len(),
        planned_items(dir, entries.take(k)) is None,
    ensures
        planned_items(dir, entries) is None,
    decreases entries.len() - k,
{
    if k < entries.len() {
        assert(entries.take(k + 1).drop_last() == entries.take(k));
        lemma_planned_items_none(dir, entries, k + 1);
    } else {
        assert(entries.take(k) == entries);
    }
}

} // verus!
