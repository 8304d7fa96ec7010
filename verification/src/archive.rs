//! An archive file and the operations on it: creating, opening, listing,
//! adding, extracting and removing items.
//!
//! The archive's bytes are handed in and out as plain byte vectors: reading
//! and writing the file, and turning item headers into JSON and back, is
//! the caller's part.

use vstd::prelude::*;
use crate::bindings::{bz_compress, bz_compressed, bz_decompress, bz_decompressed};
use crate::compression::CompressionType;
use crate::format::{
    byte_views, cut_range, find_flag_index, general_index, initial_content, insert_item_bytes,
    is_well_formed, item_flag_index, last_index_of, lemma_last_index_of, list_entries,
    parse_general_header, rewrite_entries, spec_cut, spec_general_header, spec_initial,
    spec_insert, spec_list, spec_rewrite, encode_records, pushed, law_cut, law_insert, law_rewrite,
    is_entry, lemma_b64_is_entry, FormatError,
    HEADER_SECTION_GENERAL_SEPARATOR, HEADER_SECTION_ITEM_SEPARATOR,
};
use crate::bindings::{b64_decoded, b64_encoded, node_id_value};
use crate::item::{item_node_id, first_with_id, lemma_first_id_is, lemma_first_with_id, position_of_id, FileItem};

verus! {

/// Why an operation on an archive failed.
#[derive(Clone, Copy, Debug, PartialEq, Eq, Structural)]
pub enum RatError {
    /// The archive does not exist and may not be created, or no item has
    /// the id asked for ("File not found").
    NotFound,
    /// The archive lacks a section flag ("Header not found").
    HeaderNotFound,
    /// An item header entry is not valid base64.
    InvalidEntry,
    /// The general header cannot be read.
    InvalidGeneralHeader,
    /// An item's bounds are reversed or lie past the end of the archive
    /// ("Invalid file bounds").
    InvalidBounds,
    /// An item's data runs past the end of the archive.
    UnexpectedEof,
    /// bzip2 reported an error while compressing.
    CompressionFailed,
    /// bzip2 reported an error while decompressing.
    DecompressionFailed,
    /// An offset does not fit in 64 bits.
    SizeOverflow,
    /// The clock reads a time before the Unix epoch, so no item id can be
    /// made.
    ClockBeforeEpoch,
}

/// The archive error that stands for a format error.
pub open spec fn format_error(e: FormatError) -> RatError {
    match e {
        FormatError::HeaderNotFound => RatError::HeaderNotFound,
        FormatError::InvalidEntry => RatError::InvalidEntry,
        FormatError::InvalidGeneralHeader => RatError::InvalidGeneralHeader,
    }
}

/// The archive error that stands for a format error.
pub fn from_format_error(e: FormatError) -> (res: RatError)
    ensures
        res == format_error(e),
{
    match e {
        FormatError::HeaderNotFound => RatError::HeaderNotFound,
        FormatError::InvalidEntry => RatError::InvalidEntry,
        FormatError::InvalidGeneralHeader => RatError::InvalidGeneralHeader,
    }
}

/// An archive: where it lives, the items last read from it, its size and
/// the compression it was created with.
pub struct RatFile<T> {
    pub files: Vec<FileItem<T>>,
    pub file_path: std::path::PathBuf,
    pub file_size: u64,
    pub compression_type: CompressionType,
}

/// An item ready to be written: its header and its compressed data.
pub struct PendingItem<T> {
    pub item: FileItem<T>,
    pub compressed: Vec<u8>,
}

/// What removing an item leaves: the archive's bytes with the item's data
/// cut out (its item headers not yet rewritten), and where its general
/// header now starts.
pub struct Removal {
    pub archive: Vec<u8>,
    pub general_header_index: usize,
}

/// The data of the first item with id `id`, decompressed.
pub open spec fn spec_extract<T>(a: Seq<u8>, items: Seq<FileItem<T>>, id: u128) -> Result<
    Seq<u8>,
    RatError,
> {
    match first_with_id(items, id) {
        None => Err(RatError::NotFound),
        Some(k) => {
            let f = items[k];
            if f.end < f.start {
                Err(RatError::InvalidBounds)
            } else if f.end > a.len() {
                Err(RatError::UnexpectedEof)
            } else {
                match bz_decompressed(a.subrange(f.start as int, f.end as int)) {
                    Some(x) => Ok(x),
                    None => Err(RatError::DecompressionFailed),
                }
            }
        },
    }
}

/// `f` with its data moved back by `len` bytes.
pub open spec fn moved_back<T>(f: FileItem<T>, len: u64) -> FileItem<T> {
    FileItem {
        id: f.id,
        name: f.name,
        metadata: f.metadata,
        start: (f.start - len) as u64,
        end: (f.end - len) as u64,
        size: f.size,
    }
}

/// The items left when item `t` is removed: the others in their order,
/// those whose data starts at or after the removed data's end moved back by
/// its length.
pub open spec fn spec_reindex<T>(items: Seq<FileItem<T>>, t: int) -> Seq<FileItem<T>> {
    let target_end = items[t].end;
    let len = (items[t].end - items[t].start) as u64;
    items.remove(t).map_values(
        |f: FileItem<T>|
            if f.start >= target_end {
                moved_back(f, len)
            } else {
                f
            },
    )
}

/// Removing the first item with id `id` from `a` never moves an item's end
/// below zero: when the removal gets as far as moving the items stored
/// after the removed data back, each of them ends at least the removed
/// length into the archive.
pub open spec fn can_move_back<T>(a: Seq<u8>, items: Seq<FileItem<T>>, id: u128) -> bool {
    match first_with_id(items, id) {
        Some(t) => {
            (items[t].start <= items[t].end && last_index_of(a, HEADER_SECTION_GENERAL_SEPARATOR)
                is Some && items[t].end <= a.len()) ==> forall|i: int|
                0 <= i < items.len() && #[trigger] items[i].start >= items[t].end ==> items[i].end
                    >= items[t].end - items[t].start
        },
        None => true,
    }
}

/// The bytes, general header position and items that removing the first
/// item with id `id` leaves.
pub open spec fn spec_remove<T>(a: Seq<u8>, items: Seq<FileItem<T>>, id: u128) -> Result<
    (Seq<u8>, int, Seq<FileItem<T>>),
    RatError,
> {
    match first_with_id(items, id) {
        None => Err(RatError::NotFound),
        Some(t) => {
            let f = items[t];
            if f.end < f.start {
                Err(RatError::InvalidBounds)
            } else if last_index_of(a, HEADER_SECTION_GENERAL_SEPARATOR) is None {
                Err(RatError::HeaderNotFound)
            } else if f.end > a.len() {
                Err(RatError::InvalidBounds)
            } else {
                let len = f.end - f.start;
                let g = general_index(a);
                let new_g = if g >= len {
                    g - len
                } else {
                    0
                };
                Ok((spec_cut(a, f.start as int, f.end as int), new_g, spec_reindex(items, t)))
            }
        },
    }
}

impl<T> RatFile<T> {
    /// The archive at `file_path`, compressed with `compression_type`.
    /// When it does not exist (`archive_exists` is false) it is created only if
    /// `can_create`; the bytes to write for it are then handed back.
    /// `NotFound` when it neither exists nor may be created.
    pub fn new(
        file_path: std::path::PathBuf,
        archive_exists: bool,
        can_create: bool,
        compression_type: CompressionType,
    ) -> (res: Result<(Self, Option<Vec<u8>>), RatError>)
        ensures
            match res {
                Ok((rat, content)) => {
                    &&& archive_exists || can_create
                    &&& rat.files@.len() == 0
                    &&& rat.file_path == file_path
                    &&& rat.file_size == 0
                    &&& rat.compression_type == compression_type
                    &&& match content {
                        Some(c) => !archive_exists && c@ == spec_initial(compression_type),
                        None => archive_exists,
                    }
                },
                Err(e) => e == RatError::NotFound && !archive_exists && !can_create,
            },
    {
        if !archive_exists && !can_create {
            return Err(RatError::NotFound);
        }
        let content = if !archive_exists {
            Some(initial_content(compression_type))
        } else {
            None
        };
        Ok((RatFile { files: Vec::new(), file_path, file_size: 0, compression_type }, content))
    }

    /// The archive at `file_path` whose bytes are `archive`, with the
    /// compression recorded in its general header.
    pub fn open(file_path: std::path::PathBuf, archive: &[u8]) -> (res: Result<Self, RatError>)
        ensures
            match res {
                Ok(rat) => {
                    &&& spec_general_header(archive@) is Ok
                    &&& rat.compression_type == spec_general_header(archive@)->Ok_0.compression_type
                    &&& rat.files@.len() == 0
                    &&& rat.file_path == file_path
                    &&& rat.file_size == archive@.len()
                },
                Err(e) => spec_general_header(archive@) matches Err(fe) && e == format_error(fe),
            },
    {
        match parse_general_header(archive) {
            Ok(h) => Ok(
                RatFile {
                    files: Vec::new(),
                    file_path,
                    file_size: archive.len() as u64,
                    compression_type: h.compression_type,
                },
            ),
            Err(e) => Err(from_format_error(e)),
        }
    }

    /// The index of the last `flag` byte of the archive.
    /// `HeaderNotFound` when there is none.
    pub fn get_flag_index(&self, archive: &[u8], flag: u8) -> (res: Result<u64, RatError>)
        ensures
            match res {
                Ok(i) => last_index_of(archive@, flag) == Some(i as int),
                Err(e) => e == RatError::HeaderNotFound && last_index_of(archive@, flag) is None,
            },
    {
        match find_flag_index(archive, flag) {
            Ok(i) => Ok(i as u64),
            Err(_) => Err(RatError::HeaderNotFound),
        }
    }

    /// Where the general header starts: the index of the last `|`.
    pub fn get_general_header_index(&self, archive: &[u8]) -> (res: Result<u64, RatError>)
        ensures
            match res {
                Ok(i) => last_index_of(archive@, HEADER_SECTION_GENERAL_SEPARATOR) == Some(
                    i as int,
                ),
                Err(e) => e == RatError::HeaderNotFound && last_index_of(
                    archive@,
                    HEADER_SECTION_GENERAL_SEPARATOR,
                ) is None,
            },
    {
        self.get_flag_index(archive, HEADER_SECTION_GENERAL_SEPARATOR)
    }

    /// Where the item headers start: just after the last `/`.
    pub fn get_item_header_index(&self, archive: &[u8]) -> (res: Result<u64, RatError>)
        ensures
            match res {
                Ok(i) => last_index_of(archive@, HEADER_SECTION_ITEM_SEPARATOR) == Some(i - 1),
                Err(e) => e == RatError::HeaderNotFound && last_index_of(
                    archive@,
                    HEADER_SECTION_ITEM_SEPARATOR,
                ) is None,
            },
    {
        match find_flag_index(archive, HEADER_SECTION_ITEM_SEPARATOR) {
            Ok(i) => {
                proof {
                    lemma_last_index_of(archive@, HEADER_SECTION_ITEM_SEPARATOR);
                }
                assert(i < archive.len());
                Ok(i as u64 + 1)
            },
            Err(_) => Err(RatError::HeaderNotFound),
        }
    }

    /// The item headers of the archive, as the bytes of each (a JSON
    /// document): the base64-decoded entries after the last `/`.
    pub fn list_rat_file(&self, archive: &[u8]) -> (res: Result<Vec<Vec<u8>>, RatError>)
        ensures
            match res {
                Ok(rs) => spec_list(archive@) == Ok::<Seq<Seq<u8>>, FormatError>(byte_views(rs@)),
                Err(e) => spec_list(archive@) matches Err(fe) && e == format_error(fe),
            },
    {
        match list_entries(archive) {
            Ok(rs) => Ok(rs),
            Err(e) => Err(from_format_error(e)),
        }
    }
}


/// Moves back by `len` bytes the items whose data starts at or after
/// `target_end`.
fn move_back_after<T>(items: Vec<FileItem<T>>, target_end: u64, len: u64) -> (res: Vec<FileItem<T>>)
    requires
        forall|i: int|
            0 <= i < items@.len() && #[trigger] items@[i].start >= target_end ==> items@[i].end
                >= len && items@[i].start >= len,
    ensures
        res@ == items@.map_values(
            |f: FileItem<T>|
                if f.start >= target_end {
                    moved_back(f, len)
                } else {
                    f
                },
        ),
{
    let ghost orig = items@;
    let mut out: Vec<FileItem<T>> = Vec::new();
    for f in it: items
        invariant
            it.seq() == orig,
            forall|i: int|
                0 <= i < orig.len() && #[trigger] orig[i].start >= target_end ==> orig[i].end >= len
                    && orig[i].start >= len,
            out@ =~= orig.take(it.index() as int).map_values(
                |f: FileItem<T>|
                    if f.start >= target_end {
                        moved_back(f, len)
                    } else {
                        f
                    },
            ),
    {
        let ghost k = it.index() as int;
        assert(f == orig[k]);
        if f.start >= target_end {
            let g = FileItem {
                id: f.id,
                name: f.name,
                metadata: f.metadata,
                start: f.start - len,
                end: f.end - len,
                size: f.size,
            };
            out.push(g);
        } else {
            out.push(f);
        }
        assert(orig.take(k + 1) =~= orig.take(k).push(orig[k]));
    }
    assert(orig.take(orig.len() as int) =~= orig);
    out
}

/// An item added to an archive (its data placed where the general header
/// stood, its header entry appended) is extracted as the contents that
/// were compressed into its data.
pub proof fn law_extract_after_insert<T>(
    a: Seq<u8>,
    c: Seq<u8>,
    e: Seq<u8>,
    contents: Seq<u8>,
    items: Seq<FileItem<T>>,
    id: u128,
)
    requires
        last_index_of(a, HEADER_SECTION_GENERAL_SEPARATOR) is Some,
        bz_decompressed(c) == Some(contents),
        first_with_id(items, id) matches Some(k) && items[k].start == general_index(a)
            && items[k].end == general_index(a) + c.len(),
    ensures
        spec_extract(spec_insert(a, general_index(a), c, e), items, id) == Ok::<
            Seq<u8>,
            RatError,
        >(contents),
{
    let g = general_index(a);
    lemma_last_index_of(a, HEADER_SECTION_GENERAL_SEPARATOR);
    let n = spec_insert(a, g, c, e);
    assert(n.subrange(g, g + c.len()) =~= c);
}

/// Removing one item leaves every other item whose data does not overlap
/// the removed data extractable as before: the remaining items are
/// reindexed so that their data is found where the cut moved it.
pub proof fn law_extract_after_remove<T>(
    a: Seq<u8>,
    items: Seq<FileItem<T>>,
    removed: u128,
    other: u128,
)
    requires
        spec_remove(a, items, removed) is Ok,
        removed != other,
        first_with_id(items, other) matches Some(k) && {
            let t = first_with_id(items, removed)->0;
            &&& items[k].start <= items[k].end
            &&& items[k].end <= items[t].start || items[k].start >= items[t].end
        },
    ensures
        spec_extract(spec_remove(a, items, removed)->Ok_0.0, spec_remove(a, items, removed)->Ok_0.2, other)
            == spec_extract(a, items, other),
{
    lemma_first_with_id(items, removed);
    lemma_first_with_id(items, other);
    let t = first_with_id(items, removed)->0;
    let k = first_with_id(items, other)->0;
    let ft = items[t];
    let fk = items[k];
    let len = (ft.end - ft.start) as u64;
    let n = spec_cut(a, ft.start as int, ft.end as int);
    let rest = spec_reindex(items, t);
    let rem = items.remove(t);
    // the other item is still the first with its id
    let k2 = if k < t {
        k
    } else {
        k - 1
    };
    assert(rem[k2] == fk);
    assert forall|j: int| 0 <= j < k2 implies #[trigger] rest[j].id != other by {
        if j < t {
            assert(rem[j] == items[j]);
        } else {
            assert(rem[j] == items[j + 1]);
        }
    }
    assert(rest[k2].id == other);
    let moved = fk.start >= ft.end;
    lemma_first_id_is(rest, other, k2);
    let fk2 = rest[k2];
    if moved {
        assert(fk2 == moved_back(fk, len));
        if fk.end <= a.len() {
            assert(n.subrange(fk2.start as int, fk2.end as int) =~= a.subrange(
                fk.start as int,
                fk.end as int,
            ));
        }
    } else {
        assert(fk2 == fk);
        assert(fk.end <= ft.start);
        assert(n.subrange(fk.start as int, fk.end as int) =~= a.subrange(
            fk.start as int,
            fk.end as int,
        ));
    }
}

/// Removing an item keeps every other item, in their order, with its id,
/// name, metadata and size unchanged; only where its data lies changes:
/// data stored at or after the end of the removed data moves back by the
/// removed length, and other data stays where it was.
pub proof fn law_remove_keeps_other_items<T>(a: Seq<u8>, items: Seq<FileItem<T>>, id: u128)
    requires
        spec_remove(a, items, id) is Ok,
    ensures
        ({
            let t = first_with_id(items, id)->0;
            let rest = spec_remove(a, items, id)->Ok_0.2;
            let len = items[t].end - items[t].start;
            &&& rest.len() == items.len() - 1
            &&& forall|i: int|
                0 <= i < rest.len() ==> {
                    let f = if i < t {
                        items[i]
                    } else {
                        items[i + 1]
                    };
                    &&& #[trigger] rest[i].id == f.id
                    &&& rest[i].name == f.name
                    &&& rest[i].metadata == f.metadata
                    &&& rest[i].size == f.size
                    &&& if f.start >= items[t].end {
                        rest[i].start == f.start - len && rest[i].end == (f.end - len) as u64
                    } else {
                        rest[i].start == f.start && rest[i].end == f.end
                    }
                }
        }),
{
    lemma_first_with_id(items, id);
    let t = first_with_id(items, id)->0;
    let rest = spec_remove(a, items, id)->Ok_0.2;
    let rem = items.remove(t);
    assert forall|i: int| 0 <= i < rem.len() implies #[trigger] rem[i] == if i < t {
        items[i]
    } else {
        items[i + 1]
    } by {}
}

/// Removing an item whose data lies before the general header of a
/// well-formed archive leaves a well-formed archive with the same item
/// headers, whose general header starts at the position that `remove`
/// hands back; rewriting its item headers from there (see
/// `rewrite_item_headers`) then gives a well-formed archive.
pub proof fn law_remove_keeps_format<T>(a: Seq<u8>, items: Seq<FileItem<T>>, id: u128)
    requires
        is_well_formed(a),
        spec_remove(a, items, id) is Ok,
        items[first_with_id(items, id)->0].end <= general_index(a),
    ensures
        ({
            let (n, g, _) = spec_remove(a, items, id)->Ok_0;
            &&& is_well_formed(n)
            &&& g == general_index(n)
            &&& g <= item_flag_index(n) + 1
            &&& spec_list(n) == spec_list(a)
            &&& spec_general_header(n) == spec_general_header(a)
        }),
{
    lemma_first_with_id(items, id);
    let t = first_with_id(items, id)->0;
    let f = items[t];
    law_cut(a, f.start as int, f.end as int);
    lemma_last_index_of(a, HEADER_SECTION_GENERAL_SEPARATOR);
    lemma_last_index_of(a, HEADER_SECTION_ITEM_SEPARATOR);
}

/// After an item is removed, asking for its id finds nothing, provided no
/// other item had the same id.
pub proof fn law_removed_item_gone<T>(a: Seq<u8>, items: Seq<FileItem<T>>, id: u128)
    requires
        spec_remove(a, items, id) is Ok,
        forall|i: int, j: int|
            0 <= i < items.len() && 0 <= j < items.len() && #[trigger] items[i].id == id
                && #[trigger] items[j].id == id ==> i == j,
    ensures
        spec_extract(spec_remove(a, items, id)->Ok_0.0, spec_remove(a, items, id)->Ok_0.2, id)
            == Err::<Seq<u8>, RatError>(RatError::NotFound),
{
    lemma_first_with_id(items, id);
    let t = first_with_id(items, id)->0;
    let rest = spec_reindex(items, t);
    let rem = items.remove(t);
    assert forall|j: int| 0 <= j < rest.len() implies #[trigger] rest[j].id != id by {
        if j < t {
            assert(rem[j] == items[j]);
        } else {
            assert(rem[j] == items[j + 1]);
        }
    }
    lemma_first_with_id(rest, id);
    if let Some(k) = first_with_id(rest, id) {
        assert(rest[k].id != id);
    }
}

/// Adding an item to a well-formed archive, then listing it and
/// extracting the item: the archive stays well formed with the same
/// general header, its list gains the item's header record after the ones
/// already there, and the item (found by its id in a list whose first item
/// with that id is the one added) extracts as the contents that were
/// compressed into its data.  The entry written is the base64 encoding of
/// the record, which decodes back to the record, as `write_item`'s encoding
/// call establishes for every record.
pub proof fn law_add_then_list_and_extract<T>(
    a: Seq<u8>,
    c: Seq<u8>,
    contents: Seq<u8>,
    record: Seq<u8>,
    items: Seq<FileItem<T>>,
    id: u128,
)
    requires
        is_well_formed(a),
        bz_decompressed(c) == Some(contents),
        b64_decoded(b64_encoded(record)) == Some(record),
        first_with_id(items, id) matches Some(k) && items[k].start == general_index(a)
            && items[k].end == general_index(a) + c.len(),
    ensures
        ({
            let n = spec_insert(a, general_index(a), c, b64_encoded(record));
            &&& is_well_formed(n)
            &&& spec_general_header(n) == spec_general_header(a)
            &&& spec_list(n) == pushed(spec_list(a), record)
            &&& spec_extract(n, items, id) == Ok::<Seq<u8>, RatError>(contents)
        }),
{
    lemma_b64_is_entry(record);
    law_insert(a, c, b64_encoded(record), record);
    lemma_last_index_of(a, HEADER_SECTION_GENERAL_SEPARATOR);
    law_extract_after_insert(a, c, b64_encoded(record), contents, items, id);
}

/// The first item with id `other` is not the one removed (the first with
/// `id`): its bounds are in order, its data lies before the general header
/// of `a`, and it does not overlap the removed data.
pub open spec fn kept_apart<T>(a: Seq<u8>, items: Seq<FileItem<T>>, id: u128, other: u128) -> bool {
    other != id && match first_with_id(items, other) {
        Some(k) => {
            let t = first_with_id(items, id)->0;
            &&& items[k].start <= items[k].end <= general_index(a)
            &&& items[k].end <= items[t].start || items[k].start >= items[t].end
        },
        None => false,
    }
}

/// Removing an item whose data lies before the general header of a
/// well-formed archive, then rewriting its item headers (from the general
/// header position that `remove` hands back) with the records of the
/// remaining items: the archive stays well formed with the same general
/// header, it lists exactly those records, the data before the general
/// header is the cut data, and every other item whose data lies before the
/// general header and does not overlap the removed data extracts, under
/// its moved position, as before.  Each entry written is the base64
/// encoding of its record, which decodes back to the record, as
/// `rewrite_item_headers`'s encoding calls establish.
pub proof fn law_remove_then_rewrite<T>(
    a: Seq<u8>,
    items: Seq<FileItem<T>>,
    id: u128,
    records: Seq<Seq<u8>>,
)
    requires
        is_well_formed(a),
        spec_remove(a, items, id) is Ok,
        items[first_with_id(items, id)->0].end <= general_index(a),
        forall|i: int|
            0 <= i < records.len() ==> b64_decoded(#[trigger] b64_encoded(records[i])) == Some(
                records[i],
            ),
    ensures
        ({
            let (n, g, rest) = spec_remove(a, items, id)->Ok_0;
            let out = spec_rewrite(n, g, encode_records(records));
            &&& is_well_formed(out)
            &&& spec_general_header(out) == spec_general_header(a)
            &&& spec_list(out) == Ok::<Seq<Seq<u8>>, FormatError>(records)
            &&& out.take(g) == n.take(g)
            &&& forall|other: u128|
                #[trigger] kept_apart(a, items, id, other) ==> spec_extract(out, rest, other)
                    == spec_extract(a, items, other)
        }),
{
    law_remove_keeps_format(a, items, id);
    lemma_first_with_id(items, id);
    let (n, g, rest) = spec_remove(a, items, id)->Ok_0;
    let es = encode_records(records);
    let ii = item_flag_index(n) + 1;
    lemma_last_index_of(n, HEADER_SECTION_ITEM_SEPARATOR);
    assert forall|i: int| 0 <= i < es.len() implies is_entry(#[trigger] es[i]) by {
        assert(es[i] == b64_encoded(records[i]));
        lemma_b64_is_entry(records[i]);
    }
    assert forall|i: int| 0 <= i < es.len() implies b64_decoded(#[trigger] es[i]) == Some(
        records[i],
    ) by {
        assert(es[i] == b64_encoded(records[i]));
    }
    law_rewrite(n, es, records);
    let out = spec_rewrite(n, g, es);
    assert(out =~= n.take(ii) + crate::format::join_entries(es));
    assert(out.take(g) =~= n.take(g));
    assert forall|other: u128| #[trigger] kept_apart(a, items, id, other) implies spec_extract(
        out,
        rest,
        other,
    ) == spec_extract(a, items, other) by {
        law_extract_after_remove(a, items, id, other);
        lemma_first_with_id(items, other);
        let t = first_with_id(items, id)->0;
        let k = first_with_id(items, other)->0;
        let len = (items[t].end - items[t].start) as u64;
        let rem = items.remove(t);
        let k2 = if k < t {
            k
        } else {
            k - 1
        };
        assert(rem[k2] == items[k]);
        assert forall|j: int| 0 <= j < k2 implies #[trigger] rest[j].id != other by {
            if j < t {
                assert(rem[j] == items[j]);
            } else {
                assert(rem[j] == items[j + 1]);
            }
        }
        lemma_first_id_is(rest, other, k2);
        let f = rest[k2];
        assert(f.end <= general_index(n));
        assert(out.subrange(f.start as int, f.end as int) =~= n.subrange(
            f.start as int,
            f.end as int,
        ));
    }
}

impl<T> RatFile<T> {
    /// Compresses `contents` at the level of `compression_type` and makes
    /// the header of the item that will hold it: its data is to stand where
    /// the archive's general header starts now.  The item is written with
    /// `write_item`, given the item header's bytes.
    pub fn insert_to_rat_file(
        &self,
        archive: &[u8],
        name: String,
        contents: &[u8],
        metadata: T,
        compression_type: CompressionType,
    ) -> (res: Result<PendingItem<T>, RatError>)
        ensures
            match res {
                Ok(p) => {
                    &&& last_index_of(archive@, HEADER_SECTION_GENERAL_SEPARATOR) is Some
                    &&& p.item.start == general_index(archive@)
                    &&& p.item.end == p.item.start + p.compressed@.len()
                    &&& p.item.size == contents@.len()
                    &&& p.item.name == name
                    &&& p.item.metadata == metadata
                    &&& bz_compressed(contents@, compression_type.spec_bzip2_level()) == Some(
                        p.compressed@,
                    )
                    &&& bz_decompressed(p.compressed@) == Some(contents@)
                    &&& p.item.id % 0x1_0000_0000_0000 == node_id_value(item_node_id())
                    &&& (p.item.id / 0x1000_0000_0000_0000_0000) % 16 == 1
                    &&& (p.item.id / 0x4000_0000_0000_0000) % 4 == 2
                },
                Err(e) => {
                    ||| e == RatError::HeaderNotFound && last_index_of(
                        archive@,
                        HEADER_SECTION_GENERAL_SEPARATOR,
                    ) is None
                    ||| e == RatError::CompressionFailed && last_index_of(
                        archive@,
                        HEADER_SECTION_GENERAL_SEPARATOR,
                    ) is Some && bz_compressed(contents@, compression_type.spec_bzip2_level()) is None
                    ||| e == RatError::SizeOverflow && last_index_of(
                        archive@,
                        HEADER_SECTION_GENERAL_SEPARATOR,
                    ) is Some && (bz_compressed(contents@, compression_type.spec_bzip2_level()) matches Some(
                        c,
                    ) && general_index(archive@) + c.len() > u64::MAX)
                    ||| e == RatError::ClockBeforeEpoch && last_index_of(
                        archive@,
                        HEADER_SECTION_GENERAL_SEPARATOR,
                    ) is Some && (bz_compressed(contents@, compression_type.spec_bzip2_level()) matches Some(
                        c,
                    ) && general_index(archive@) + c.len() <= u64::MAX)
                },
            },
    {
        let g = match find_flag_index(archive, HEADER_SECTION_GENERAL_SEPARATOR) {
            Ok(g) => g,
            Err(_) => return Err(RatError::HeaderNotFound),
        };
        let compressed = match bz_compress(contents, compression_type.bzip2_level()) {
            Some(c) => c,
            None => return Err(RatError::CompressionFailed),
        };
        let start: u64 = g as u64;
        let end: u64 = match start.checked_add(compressed.len() as u64) {
            Some(e) => e,
            None => return Err(RatError::SizeOverflow),
        };
        match FileItem::new(name, metadata, contents.len() as u64, start, end) {
            Some(item) => Ok(PendingItem { item, compressed }),
            None => Err(RatError::ClockBeforeEpoch),
        }
    }

    /// The archive with an item's compressed data placed where its general
    /// header starts and the item's header (the bytes `record`) appended
    /// as a new base64 entry.  `HeaderNotFound` when the archive has no `|`.
    pub fn write_item(&self, archive: &[u8], compressed: &[u8], record: &[u8]) -> (res: Result<
        Vec<u8>,
        RatError,
    >)
        requires
            record@.len() <= usize::MAX / 2,
        ensures
            match res {
                Ok(n) => {
                    &&& last_index_of(archive@, HEADER_SECTION_GENERAL_SEPARATOR) is Some
                    &&& n@ == spec_insert(
                        archive@,
                        general_index(archive@),
                        compressed@,
                        crate::bindings::b64_encoded(record@),
                    )
                    &&& is_well_formed(archive@) ==> {
                        &&& is_well_formed(n@)
                        &&& spec_list(n@) == pushed(spec_list(archive@), record@)
                        &&& spec_general_header(n@) == spec_general_header(archive@)
                    }
                },
                Err(e) => e == RatError::HeaderNotFound && last_index_of(
                    archive@,
                    HEADER_SECTION_GENERAL_SEPARATOR,
                ) is None,
            },
    {
        match insert_item_bytes(archive, compressed, record) {
            Ok(n) => Ok(n),
            Err(_) => Err(RatError::HeaderNotFound),
        }
    }

    /// The decompressed data of the first item of `items` with id `id`.
    /// `NotFound` when there is none; `InvalidBounds` when its end lies
    /// before its start; `UnexpectedEof` when its data runs past the end of
    /// the archive; `DecompressionFailed` when bzip2 rejects its data.
    pub fn extract(&self, archive: &[u8], items: &[FileItem<T>], id: u128) -> (res: Result<
        Vec<u8>,
        RatError,
    >)
        ensures
            match res {
                Ok(x) => spec_extract(archive@, items@, id) == Ok::<Seq<u8>, RatError>(x@),
                Err(e) => spec_extract(archive@, items@, id) == Err::<Seq<u8>, RatError>(e),
            },
    {
        let k = match position_of_id(items, id) {
            Some(k) => k,
            None => return Err(RatError::NotFound),
        };
        proof {
            lemma_first_with_id(items@, id);
        }
        let start = items[k].start;
        let end = items[k].end;
        if end < start {
            return Err(RatError::InvalidBounds);
        }
        if end > archive.len() as u64 {
            return Err(RatError::UnexpectedEof);
        }
        let s = start as usize;
        let e = end as usize;
        let mut data: Vec<u8> = Vec::new();
        let mut i: usize = s;
        while i < e
            invariant
                s <= i <= e <= archive@.len(),
                data@ =~= archive@.subrange(s as int, i as int),
            decreases e - i,
        {
            data.push(archive[i]);
            i = i + 1;
        }
        match bz_decompress(data.as_slice()) {
            Some(x) => Ok(x),
            None => Err(RatError::DecompressionFailed),
        }
    }

    /// Cuts the data of the first item of `items` with id `id` out of the
    /// archive and keeps the other items, in their order, as this archive's
    /// items, those stored after the cut moved back by its length.  Hands
    /// back the cut archive and where its general header now starts; its
    /// item headers are then rewritten with `rewrite_item_headers`.
    /// `NotFound` when no item has the id; `InvalidBounds` when its end
    /// lies before its start or past the end of the archive;
    /// `HeaderNotFound` when the archive has no `|`.
    pub fn remove(&mut self, archive: &[u8], items: Vec<FileItem<T>>, id: u128) -> (res: Result<
        Removal,
        RatError,
    >)
        requires
            can_move_back(archive@, items@, id),
        ensures
            match res {
                Ok(rm) => {
                    &&& spec_remove(archive@, items@, id) is Ok
                    &&& rm.archive@ == spec_remove(archive@, items@, id)->Ok_0.0
                    &&& rm.general_header_index == spec_remove(archive@, items@, id)->Ok_0.1
                    &&& final(self).files@ == spec_remove(archive@, items@, id)->Ok_0.2
                    &&& final(self).file_path == old(self).file_path
                    &&& final(self).file_size == old(self).file_size
                    &&& final(self).compression_type == old(self).compression_type
                },
                Err(e) => {
                    &&& spec_remove(archive@, items@, id) == Err::<
                        (Seq<u8>, int, Seq<FileItem<T>>),
                        RatError,
                    >(e)
                    &&& *final(self) == *old(self)
                },
            },
    {
        let t = match position_of_id(items.as_slice(), id) {
            Some(t) => t,
            None => return Err(RatError::NotFound),
        };
        proof {
            lemma_first_with_id(items@, id);
        }
        let start = items[t].start;
        let end = items[t].end;
        if end < start {
            return Err(RatError::InvalidBounds);
        }
        let length = end - start;
        let old_general_header_index = match find_flag_index(archive, HEADER_SECTION_GENERAL_SEPARATOR) {
            Ok(g) => g,
            Err(_) => return Err(RatError::HeaderNotFound),
        };
        if end > archive.len() as u64 {
            return Err(RatError::InvalidBounds);
        }
        let cut = cut_range(archive, start as usize, end as usize);
        let ghost orig = items@;
        let mut rest = items;
        rest.remove(t);
        assert(rest@ == orig.remove(t as int));
        assert forall|i: int|
            0 <= i < rest@.len() && #[trigger] rest@[i].start >= end implies rest@[i].end >= length
            && rest@[i].start >= length by {
            let j = if i < t {
                i
            } else {
                i + 1
            };
            assert(rest@[i] == orig[j]);
            assert(orig[j].start >= orig[t as int].end);
        }
        let moved = move_back_after(rest, end, length);
        let new_general_header_index: usize = if old_general_header_index as u64 >= length {
            old_general_header_index - length as usize
        } else {
            0
        };
        self.files = moved;
        Ok(Removal { archive: cut, general_header_index: new_general_header_index })
    }

    /// The archive with its item header entries replaced by the base64
    /// encodings of `records`, each followed by `;`: the bytes up to
    /// `general_header_index` are kept (zero-extended if the archive is
    /// shorter), then the general header up to and including the item
    /// header flag, then the entries.  `HeaderNotFound` when the archive
    /// has no `/`.
    pub fn rewrite_item_headers(
        &self,
        archive: &[u8],
        general_header_index: usize,
        records: &Vec<Vec<u8>>,
    ) -> (res: Result<Vec<u8>, RatError>)
        requires
            forall|i: int| 0 <= i < records@.len() ==> (#[trigger] records@[i])@.len() <= usize::MAX
                / 2,
        ensures
            match res {
                Ok(n) => {
                    &&& last_index_of(archive@, HEADER_SECTION_ITEM_SEPARATOR) is Some
                    &&& n@ == spec_rewrite(
                        archive@,
                        general_header_index as int,
                        encode_records(byte_views(records@)),
                    )
                    &&& is_well_formed(archive@) && general_header_index <= item_flag_index(archive@)
                        + 1 ==> {
                        &&& is_well_formed(n@)
                        &&& spec_list(n@) == Ok::<Seq<Seq<u8>>, FormatError>(byte_views(records@))
                        &&& spec_general_header(n@) == spec_general_header(archive@)
                    }
                },
                Err(e) => e == RatError::HeaderNotFound && last_index_of(
                    archive@,
                    HEADER_SECTION_ITEM_SEPARATOR,
                ) is None,
            },
    {
        match rewrite_entries(archive, general_header_index, records) {
            Ok(n) => Ok(n),
            Err(_) => Err(RatError::HeaderNotFound),
        }
    }
}

} // verus!
