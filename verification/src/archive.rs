//! ZIP archives built in memory from named files, with Deflate compression,
//! and read back from memory.
use vstd::prelude::*;
use vstd::utf8::encode_utf8;
use std::io::Write;

verus! {

/// A `zip::ZipWriter` over an in-memory buffer. Verus refuses a declaration
/// of the writer type itself (its parameter is bound by `Write + Seek`), so it
/// is held here, out of Verus's sight; `zip_writer_files` says what it holds.
#[verifier::external_body]
pub struct ZipBuffer {
    writer: zip::ZipWriter<std::io::Cursor<Vec<u8>>>,
}

/// `zip::result::ZipError`, carried opaquely.
#[verifier::external_type_specification]
#[verifier::external_body]
pub struct ExZipError(zip::result::ZipError);

/// `zip::ZipArchive`, carried opaquely.
#[verifier::external_type_specification]
#[verifier::external_body]
#[verifier::reject_recursive_types(R)]
pub struct ExZipArchive<R>(zip::ZipArchive<R>);

/// `std::io::Cursor`, carried opaquely.
#[verifier::external_type_specification]
#[verifier::external_body]
#[verifier::reject_recursive_types(T)]
pub struct ExCursor<T>(std::io::Cursor<T>);

/// One file as written into an archive: its name, the compression level it
/// was started with, and the chunks of data written into it, in order.
pub type WrittenFile = (Seq<char>, int, Seq<Seq<u8>>);

/// The files a writer holds so far, in the order they were started.
pub uninterp spec fn zip_writer_files(w: ZipBuffer) -> Seq<WrittenFile>;

/// The bytes of the archive that a writer over an empty buffer produces when
/// it is finished after the given files were written, each Deflate-compressed.
pub uninterp spec fn zip_archive_bytes(files: Seq<WrittenFile>) -> Seq<u8>;

/// What reading the archive `bytes` gives: the name and data of each of its
/// files, in order, or `None` when `ZipArchive::new` refuses the bytes or
/// reading one of the files (`ZipArchive::by_index`, then `read_to_end`) fails.
pub uninterp spec fn zip_read(bytes: Seq<u8>) -> Option<Seq<(Seq<char>, Seq<u8>)>>;

/// Whether the writer is open and every operation on it so far succeeded.
pub uninterp spec fn zip_writer_sound(w: ZipBuffer) -> bool;

/// The compressed size the writer records for a file whose data was written
/// in these pieces, Deflate-compressed at this level.
pub uninterp spec fn zip_deflated_len(pieces: Seq<Seq<u8>>, level: int) -> nat;

/// The writer keeps a file within its limits without the zip64 option: its
/// data and the data's compressed form each hold at most `u32::MAX` bytes.
pub open spec fn file_fits(f: WrittenFile) -> bool {
    f.2.flatten().len() <= u32::MAX && zip_deflated_len(f.2, f.1) <= u32::MAX
}

/// The levels the Deflate writer takes: 1 to 9 through flate2, and 10 to 264
/// through zopfli.
pub open spec fn level_accepted(level: int) -> bool {
    1 <= level <= 264
}

/// `ZipWriter::new` over an empty in-memory buffer: it holds no file.
#[verifier::external_body]
fn zip_writer_new() -> (w: ZipBuffer)
    ensures
        zip_writer_files(w) == Seq::<WrittenFile>::empty(),
        zip_writer_sound(w),
{
    ZipBuffer { writer: zip::ZipWriter::new(std::io::Cursor::new(Vec::new())) }
}

/// `ZipWriter::start_file` with Deflate compression at the given level. When
/// it succeeds the writer holds one more file, with this name and no data yet;
/// when it fails nothing is claimed of the writer. It fails on a name already
/// taken, on a level the Deflate writer refuses, and when the file before it
/// went over the limits (its size is checked as it is closed here); on a
/// sound writer with none of these it succeeds, writing to memory. A name of
/// more than `u16::MAX` bytes makes it panic, which `requires` rules out.
#[verifier::external_body]
fn zip_start_file(w: &mut ZipBuffer, name: &str, level: u32) -> (r: Result<
    (),
    zip::result::ZipError,
>)
    requires
        encode_utf8(name@).len() <= u16::MAX,
    ensures
        r is Ok ==> zip_writer_files(*final(w)) == zip_writer_files(*old(w)).push((name@, level as int, Seq::<Seq<u8>>::empty())),
        r is Ok ==> zip_writer_sound(*final(w)),
        zip_writer_sound(*old(w)) && level_accepted(level as int) && (forall|j: int|
            0 <= j < zip_writer_files(*old(w)).len() ==> #[trigger] zip_writer_files(*old(w))[j].0 != name@) && (
        zip_writer_files(*old(w)).len() > 0 ==> zip_writer_files(*old(w)).last().2.flatten().len() <= u32::MAX
            && zip_deflated_len(zip_writer_files(*old(w)).last().2, zip_writer_files(*old(w)).last().1)
            <= u32::MAX) ==> r is Ok,
{
    let options = zip::write::SimpleFileOptions::default().compression_method(
        zip::CompressionMethod::Deflated,
    ).compression_level(Some(level as i64));
    w.writer.start_file(name, options)
}

/// The files after `data` is written into the last one: an empty write
/// changes nothing.
pub open spec fn after_write(files: Seq<WrittenFile>, data: Seq<u8>) -> Seq<WrittenFile> {
    if data.len() == 0 || files.len() == 0 {
        files
    } else {
        let last = files.last();
        files.update(files.len() - 1, (last.0, last.1, last.2.push(data)))
    }
}

/// `Write::write_all` on the writer. When it succeeds, `data` went into the
/// file started last (an empty `data` writes nothing); when it fails nothing
/// is claimed of the writer. It fails when no file is started and when the
/// file's data would go over `u32::MAX` bytes; on a sound writer with a file
/// started and room for `data` it succeeds, writing to memory.
#[verifier::external_body]
fn zip_write_all(w: &mut ZipBuffer, data: &[u8]) -> (r: Result<
    (),
    std::io::Error,
>)
    ensures
        r is Ok ==> zip_writer_files(*final(w)) == after_write(zip_writer_files(*old(w)), data@),
        r is Ok ==> zip_writer_sound(*final(w)),
        zip_writer_sound(*old(w)) && zip_writer_files(*old(w)).len() > 0 && zip_writer_files(*old(w)).last().2.flatten().len()
            + data@.len() <= u32::MAX ==> r is Ok,
{
    w.writer.write_all(data)
}

/// The files of an archive as reading gives them back: each name with its
/// data written, the pieces joined.
pub open spec fn read_view(files: Seq<WrittenFile>) -> Seq<(Seq<char>, Seq<u8>)> {
    files.map_values(|f: WrittenFile| (f.0, f.2.flatten()))
}

/// `ZipWriter::finish`, then the buffer's bytes: on success they are
/// `zip_archive_bytes` of the files written, and reading them back gives
/// those files, in order, with the data written into each. It fails when the
/// last file went over the limits (its size is checked as it is closed); on a
/// sound writer otherwise it succeeds, writing to memory.
#[verifier::external_body]
fn zip_finish(w: ZipBuffer) -> (r: Result<Vec<u8>, zip::result::ZipError>)
    ensures
        r matches Ok(b) ==> b@ == zip_archive_bytes(zip_writer_files(w)) && zip_read(b@) == Some(
            read_view(zip_writer_files(w)),
        ),
        zip_writer_sound(w) && (zip_writer_files(w).len() > 0 ==> zip_writer_files(w).last().2.flatten().len()
            <= u32::MAX && zip_deflated_len(zip_writer_files(w).last().2, zip_writer_files(w).last().1) <= u32::MAX)
            ==> r is Ok,
{
    match w.writer.finish() {
        Ok(cursor) => Ok(cursor.into_inner()),
        Err(e) => Err(e),
    }
}

/// Why an archive could not be built or read.
#[derive(Debug)]
pub enum ArchiveError {
    /// The archive writer refused a file or could not finish, or the reader
    /// refused the archive or one of its files.
    Zip(zip::result::ZipError),
    /// Writing or reading a file's data failed.
    Io(std::io::Error),
}

/// The names and contents of `entries` as plain values.
pub open spec fn entries_view(entries: Seq<(String, Vec<u8>)>) -> Seq<(Seq<char>, Seq<u8>)> {
    entries.map_values(|e: (String, Vec<u8>)| (e.0@, e.1@))
}

/// Each entry as one file of the archive: its name, the level, and its
/// contents written in one piece (no piece at all when they are empty).
pub open spec fn files_for(entries: Seq<(Seq<char>, Seq<u8>)>, level: int) -> Seq<WrittenFile> {
    entries.map_values(
        |e: (Seq<char>, Seq<u8>)|
            (e.0, level, if e.1.len() == 0 { Seq::<Seq<u8>>::empty() } else { seq![e.1] }),
    )
}

/// The writer takes these files at this level: their names are pairwise
/// distinct, the level is one it accepts, and each file's data and
/// compressed data stay within `u32::MAX` bytes.
pub open spec fn archive_accepted(entries: Seq<(Seq<char>, Seq<u8>)>, level: int) -> bool {
    &&& level_accepted(level)
    &&& forall|a: int, b: int| 0 <= a < b < entries.len() ==> #[trigger] entries[a].0 != #[trigger] entries[b].0
    &&& forall|k: int| 0 <= k < entries.len() ==> #[trigger] file_fits(files_for(entries, level)[k])
}

proof fn lemma_file_for_fits(entries: Seq<(Seq<char>, Seq<u8>)>, level: int, k: int)
    requires
        archive_accepted(entries, level),
        0 <= k < entries.len(),
    ensures
        file_fits(files_for(entries, level)[k]),
{
}

/// Builds a ZIP archive in memory holding `entries` in order, each under its
/// name and Deflate-compressed at `compression_level`, and returns its bytes.
/// On success they are the archive of exactly those files; a refusal of the
/// archive writer (such as a name given twice) is returned as its error.
pub fn compress_files_to_bytes(entries: &Vec<(String, Vec<u8>)>, compression_level: u32) -> (r: Result<
    Vec<u8>,
    ArchiveError,
>)
    requires
        forall|k: int| 0 <= k < entries@.len() ==> encode_utf8(#[trigger] entries@[k].0@).len() <= u16::MAX,
    ensures
        r matches Ok(b) ==> b@ == zip_archive_bytes(files_for(entries_view(entries@), compression_level as int))
            && zip_read(b@) == Some(entries_view(entries@)),
        archive_accepted(entries_view(entries@), compression_level as int) ==> r is Ok,
{
    let ghost want = files_for(entries_view(entries@), compression_level as int);
    let ghost ok = archive_accepted(entries_view(entries@), compression_level as int);
    let mut zip = zip_writer_new();
    let mut i: usize = 0;
    while i < entries.len()
        invariant
            i <= entries@.len(),
            want == files_for(entries_view(entries@), compression_level as int),
            zip_writer_files(zip) == want.take(i as int),
            ok == archive_accepted(entries_view(entries@), compression_level as int),
            ok ==> zip_writer_sound(zip),
            forall|k: int| 0 <= k < entries@.len() ==> encode_utf8(#[trigger] entries@[k].0@).len() <= u16::MAX,
        decreases entries@.len() - i,
    {
        let (name, data) = (&entries[i].0, &entries[i].1);
        proof {
            let ev = entries_view(entries@);
            assert(ev[i as int].0 == name@);
            if ok {
                let files = zip_writer_files(zip);
                assert forall|j: int| 0 <= j < files.len() implies #[trigger] files[j].0 != name@ by {
                    assert(files[j] == want[j]);
                    assert(ev[j].0 != ev[i as int].0);
                }
                if files.len() > 0 {
                    assert(files.last() == want[i - 1]);
                    lemma_file_for_fits(ev, compression_level as int, i - 1);
                }
            }
        }
        match zip_start_file(&mut zip, name.as_str(), compression_level) {
            Ok(()) => {},
            Err(e) => return Err(ArchiveError::Zip(e)),
        }
        proof {
            if ok {
                let ev = entries_view(entries@);
                lemma_file_for_fits(ev, compression_level as int, i as int);
                assert(Seq::<Seq<u8>>::empty().flatten() =~= Seq::<u8>::empty());
                assert(zip_writer_files(zip).last().2 == Seq::<Seq<u8>>::empty());
                if data@.len() > 0 {
                    seq![data@].lemma_flatten_one_element();
                    assert(want[i as int].2 == seq![data@]);
                }
            }
        }
        match zip_write_all(&mut zip, data.as_slice()) {
            Ok(()) => {},
            Err(e) => return Err(ArchiveError::Io(e)),
        }
        proof {
            assert(zip_writer_files(zip) =~= want.take(i + 1));
        }
        i += 1;
    }
    proof {
        assert(want.take(entries@.len() as int) =~= want);
        if ok && want.len() > 0 {
            lemma_file_for_fits(entries_view(entries@), compression_level as int, want.len() - 1);
        }
    }
    proof {
        let ev = entries_view(entries@);
        assert forall|k: int| 0 <= k < ev.len() implies #[trigger] read_view(want)[k] == ev[k] by {
            if ev[k].1.len() == 0 {
                assert(Seq::<Seq<u8>>::empty().flatten() =~= Seq::<u8>::empty());
            } else {
                seq![ev[k].1].lemma_flatten_one_element();
            }
        }
        assert(read_view(want) =~= ev);
    }
    match zip_finish(zip) {
        Ok(bytes) => Ok(bytes),
        Err(e) => Err(ArchiveError::Zip(e)),
    }
}

/// Whether an archive entry names a directory rather than a file: its name
/// ends with `/`.
pub fn is_directory_entry(name: &str) -> (r: bool)
    ensures
        r == (name@.len() > 0 && name@.last() == '/'),
{
    let n = name.unicode_len();
    if n == 0 {
        false
    } else {
        name.get_char(n - 1) == '/'
    }
}

/// Where extracting a file puts it, relative to the destination.
#[derive(Debug)]
pub enum ExtractionTarget {
    /// The file has no safe name and is left out.
    Skip,
    /// A directory to create at this relative path.
    Directory(String),
    /// A file to write at this relative path.
    File(String),
}

/// Decides what extracting `file` does: a file without a safe name is
/// skipped; otherwise an entry whose name ends with `/` is a directory to
/// create and any other a file to write, in both cases at the safe name.
/// For a file as `read_archive` returns it the path is then the stored name,
/// accepted by `zip_enclosed`: it stays below the destination.
pub fn extraction_target(file: &ArchiveFile) -> (t: ExtractionTarget)
    ensures
        file.enclosed_name is None ==> t is Skip,
        file.enclosed_name matches Some(p) ==> if file.name@.len() > 0 && file.name@.last() == '/' {
            t matches ExtractionTarget::Directory(q) && q@ == p@
        } else {
            t matches ExtractionTarget::File(q) && q@ == p@
        },
        enclosed_ok(*file) ==> match t {
            ExtractionTarget::Skip => !zip_enclosed(file.name@),
            ExtractionTarget::Directory(q) => q@ == file.name@ && zip_enclosed(q@),
            ExtractionTarget::File(q) => q@ == file.name@ && zip_enclosed(q@),
        },
{
    match &file.enclosed_name {
        None => ExtractionTarget::Skip,
        Some(p) => {
            let path = p.clone();
            if is_directory_entry(file.name.as_str()) {
                ExtractionTarget::Directory(path)
            } else {
                ExtractionTarget::File(path)
            }
        },
    }
}

/// The archive a reader reads.
pub uninterp spec fn zip_reader_bytes(z: zip::ZipArchive<std::io::Cursor<Vec<u8>>>) -> Seq<u8>;

/// `ZipArchive::new` over the bytes in memory. The reader reads `bytes`; it
/// opens whenever the archive can be read whole.
#[verifier::external_body]
fn zip_reader_open(bytes: Vec<u8>) -> (r: Result<zip::ZipArchive<std::io::Cursor<Vec<u8>>>, zip::result::ZipError>)
    ensures
        r matches Ok(z) ==> zip_reader_bytes(z) == bytes@,
        zip_read(bytes@) is Some ==> r is Ok,
{
    zip::ZipArchive::new(std::io::Cursor::new(bytes))
}

/// The number of files the central directory of the archive `bytes` lists.
pub uninterp spec fn zip_file_count(bytes: Seq<u8>) -> nat;

/// Whether the `i`-th file of the archive `bytes` can be read:
/// `ZipArchive::by_index` finds it and `read_to_end` of it succeeds.
pub uninterp spec fn zip_file_readable(bytes: Seq<u8>, i: int) -> bool;

/// The name and data of the `i`-th file of the archive `bytes`: the name
/// `ZipArchive::by_index` gives and the data `read_to_end` reads.
pub uninterp spec fn zip_file_at(bytes: Seq<u8>, i: int) -> (Seq<char>, Seq<u8>);

/// `ZipArchive::len`: the number of files listed, `zip_file_count`; when the
/// archive can be read whole, that is the number of files read.
#[verifier::external_body]
fn zip_reader_len(z: &zip::ZipArchive<std::io::Cursor<Vec<u8>>>) -> (n: usize)
    ensures
        n == zip_file_count(zip_reader_bytes(*z)),
        zip_read(zip_reader_bytes(*z)) matches Some(files) ==> n == files.len(),
{
    z.len()
}

/// Whether zip's `enclosed_name` accepts a stored name as a path below the
/// destination: it holds no NUL character, it is not absolute (no root or
/// prefix component) and, read component by component by the target's path
/// rules, its `..` components never climb above where it starts.
pub uninterp spec fn zip_enclosed(name: Seq<char>) -> bool;

/// `ZipArchive::by_index`, then the file's name, its `enclosed_name` and its
/// Unix mode; when `by_index` fails the file is not readable. The name is
/// that of the `i`-th file. `enclosed_name` depends on the name alone: it is the name
/// itself where `zip_enclosed` accepts it, and `None` otherwise. When the
/// archive can be read whole the name is that of its `i`-th file; nothing is
/// claimed of the Unix mode.
#[verifier::external_body]
fn zip_reader_entry(z: &mut zip::ZipArchive<std::io::Cursor<Vec<u8>>>, i: usize) -> (r: Result<
    (String, Option<String>, Option<u32>),
    zip::result::ZipError,
>)
    ensures
        zip_reader_bytes(*final(z)) == zip_reader_bytes(*old(z)),
        zip_read(zip_reader_bytes(*old(z))) matches Some(files) ==> (i < files.len() ==> (r matches Ok(e) && e.0@
            == files[i as int].0)),
        r matches Ok(e) ==> (e.1 is Some <==> zip_enclosed(e.0@)),
        r matches Ok(e) ==> (e.1 matches Some(p) ==> p@ == e.0@),
        r matches Ok(e) ==> e.0@ == zip_file_at(zip_reader_bytes(*old(z)), i as int).0,
        r is Err ==> !zip_file_readable(zip_reader_bytes(*old(z)), i as int),
{
    let file = z.by_index(i)?;
    let enclosed = file.enclosed_name().map(|p| p.to_string_lossy().into_owned());
    Ok((file.name().to_string(), enclosed, file.unix_mode()))
}

/// `ZipArchive::by_index`, then `read_to_end` of the file (a failure to find
/// the file is carried as an I/O error): it succeeds exactly when the file is
/// readable, and then the data is that of the `i`-th file.
#[verifier::external_body]
fn zip_reader_data(z: &mut zip::ZipArchive<std::io::Cursor<Vec<u8>>>, i: usize) -> (r: Result<
    Vec<u8>,
    std::io::Error,
>)
    ensures
        zip_reader_bytes(*final(z)) == zip_reader_bytes(*old(z)),
        zip_read(zip_reader_bytes(*old(z))) matches Some(files) ==> (i < files.len() ==> (r matches Ok(d) && d@
            == files[i as int].1)),
        r is Ok <==> zip_file_readable(zip_reader_bytes(*old(z)), i as int),
        r matches Ok(d) ==> d@ == zip_file_at(zip_reader_bytes(*old(z)), i as int).1,
{
    let mut file = z.by_index(i)?;
    let mut data = Vec::new();
    std::io::Read::read_to_end(&mut file, &mut data)?;
    Ok(data)
}

/// One file of an archive being read.
#[derive(Debug)]
pub struct ArchiveFile {
    /// The name stored in the archive.
    pub name: String,
    /// The name as a relative path that stays below the destination, when it is one.
    pub enclosed_name: Option<String>,
    /// The Unix permission bits stored with the file, if any.
    pub unix_mode: Option<u32>,
    /// The file's contents.
    pub data: Vec<u8>,
}

/// `got` holds, in order, the name and data of every file of the archive
/// `bytes`, which can be read whole.
pub open spec fn read_whole(bytes: Seq<u8>, got: Seq<ArchiveFile>) -> bool {
    &&& zip_read(bytes) is Some
    &&& got.len() == zip_read(bytes)->0.len()
    &&& forall|k: int|
        0 <= k < got.len() ==> #[trigger] got[k].name@ == zip_read(bytes)->0[k].0 && got[k].data@ == zip_read(
            bytes,
        )->0[k].1
}

/// The safe name of `file` is its stored name where zip's `enclosed_name`
/// accepts that, and absent otherwise.
pub open spec fn enclosed_ok(file: ArchiveFile) -> bool {
    &&& (file.enclosed_name is Some <==> zip_enclosed(file.name@))
    &&& (file.enclosed_name matches Some(p) ==> p@ == file.name@)
}

/// `got` holds, in order, the first files of the archive `bytes`, each
/// readable, with its name and data; either all listed files (`complete`) or
/// those before the first file that cannot be read.
pub open spec fn read_prefix(bytes: Seq<u8>, got: Seq<ArchiveFile>, complete: bool) -> bool {
    &&& got.len() <= zip_file_count(bytes)
    &&& forall|k: int|
        #![trigger got[k]]
        0 <= k < got.len() ==> zip_file_readable(bytes, k) && got[k].name@ == zip_file_at(bytes, k).0
            && got[k].data@ == zip_file_at(bytes, k).1
    &&& complete ==> got.len() == zip_file_count(bytes)
    &&& !complete ==> !zip_file_readable(bytes, got.len() as int)
}

/// Reads an archive held in memory. `Err` when the archive cannot be opened;
/// otherwise its files in order, up to the first one that cannot be read,
/// with that failure (the files before it are returned). An archive that can be read whole gives all its files
/// and no failure.
pub fn read_archive(bytes: Vec<u8>) -> (r: Result<(Vec<ArchiveFile>, Option<ArchiveError>), ArchiveError>)
    ensures
        zip_read(bytes@) is Some ==> (r matches Ok((got, failure)) && failure is None && read_whole(bytes@, got@)),
        r matches Ok((got, _)) ==> forall|k: int| 0 <= k < got@.len() ==> #[trigger] enclosed_ok(got@[k]),
        r matches Ok((got, failure)) ==> read_prefix(bytes@, got@, failure is None),
{
    let ghost whole = zip_read(bytes@);
    let mut z = match zip_reader_open(bytes) {
        Ok(z) => z,
        Err(e) => return Err(ArchiveError::Zip(e)),
    };
    let n = zip_reader_len(&z);
    let mut got: Vec<ArchiveFile> = Vec::new();
    let mut i: usize = 0;
    while i < n
        invariant
            i <= n,
            whole == zip_read(bytes@),
            whole == zip_read(zip_reader_bytes(z)),
            whole matches Some(files) ==> n == files.len() && got@.len() == i && forall|k: int|
                0 <= k < i ==> #[trigger] got@[k].name@ == files[k].0 && got@[k].data@ == files[k].1,
            forall|k: int| 0 <= k < got@.len() ==> #[trigger] enclosed_ok(got@[k]),
            zip_reader_bytes(z) == bytes@,
            n == zip_file_count(bytes@),
            got@.len() == i,
            forall|k: int|
                #![trigger got@[k]]
                0 <= k < i ==> zip_file_readable(bytes@, k) && got@[k].name@ == zip_file_at(bytes@, k).0
                    && got@[k].data@ == zip_file_at(bytes@, k).1,
        decreases n - i,
    {
        let (name, enclosed_name, unix_mode) = match zip_reader_entry(&mut z, i) {
            Ok(e) => e,
            Err(e) => return Ok((got, Some(ArchiveError::Zip(e)))),
        };
        let data = match zip_reader_data(&mut z, i) {
            Ok(d) => d,
            Err(e) => return Ok((got, Some(ArchiveError::Io(e)))),
        };
        let ghost before = got@;
        got.push(ArchiveFile { name, enclosed_name, unix_mode, data });
        proof {
            assert forall|k: int| 0 <= k < got@.len() implies #[trigger] enclosed_ok(got@[k]) by {
                if k < before.len() {
                    assert(got@[k] == before[k]);
                }
            }
            assert forall|k: int| #![trigger got@[k]] 0 <= k < i + 1 implies zip_file_readable(bytes@, k) && got@[k].name@
                == zip_file_at(bytes@, k).0 && got@[k].data@ == zip_file_at(bytes@, k).1 by {
                if k < i {
                    assert(got@[k] == before[k]);
                }
            }
            if let Some(files) = whole {
                assert forall|k: int| 0 <= k < i + 1 implies #[trigger] got@[k].name@ == files[k].0 && got@[k].data@
                    == files[k].1 by {
                    if k < i {
                        assert(got@[k] == before[k]);
                    }
                }
            }
        }
        i += 1;
    }
    Ok((got, None))
}

/// Reading back an archive built by `compress_files_to_bytes` gives the files
/// it was built from: when the bytes read as `entries` (as
/// `compress_files_to_bytes` ensures of the archive it returns) and `got` is
/// what `read_archive` returns for them, `got` holds exactly the names and
/// contents of `entries`, in order.
pub proof fn lemma_archive_round_trip(entries: Seq<(String, Vec<u8>)>, bytes: Seq<u8>, got: Seq<ArchiveFile>)
    requires
        zip_read(bytes) == Some(entries_view(entries)),
        read_whole(bytes, got),
    ensures
        got.len() == entries.len(),
        forall|k: int|
            0 <= k < entries.len() ==> #[trigger] got[k].name@ == entries[k].0@ && got[k].data@ == entries[k].1@,
{
    let files = entries_view(entries);
    assert(zip_read(bytes)->0 == files);
    assert forall|k: int| 0 <= k < entries.len() implies #[trigger] got[k].name@ == entries[k].0@ && got[k].data@
        == entries[k].1@ by {
        assert(files[k] == (entries[k].0@, entries[k].1@));
        assert(got[k].name@ == zip_read(bytes)->0[k].0);
        assert(got[k].data@ == zip_read(bytes)->0[k].1);
    }
}

} // verus!
