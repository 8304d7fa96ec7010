//! The byte layout of a `.rat` archive, and the functions that read and
//! rewrite it.
//!
//! An archive is the compressed data of its items, one after the other,
//! followed by the general header and then the item headers:
//!
//! ```text
//! <data> '|' <version> ';' <compression code> ';' <lock flag> '/' <entry> ';' <entry> ';' ...
//! ```
//!
//! Each entry is the URL-safe base64 encoding of one item's header.  The
//! base64 alphabet holds neither `|`, `/` nor `;`, so the last `|` of the
//! archive starts the general header and the last `/` starts the item
//! headers, whatever bytes the compressed data holds.

use vstd::prelude::*;
use crate::bindings::{
    b64_decode, b64_decoded, b64_encode, b64_encoded, is_url_safe_b64_byte, lemma_b64_alphabet,
};
use crate::compression::CompressionType;

verus! {

/// The archive format version written into new archives (`'1'`).
pub const RAT_VERSION: u8 = 49;

/// How many bytes are looked at at a time when an archive is searched
/// backwards for a section flag.
pub const BUFFER_SIZE_HEADERS: usize = 1024;

/// `'|'`: starts the general header.
pub const HEADER_SECTION_GENERAL_SEPARATOR: u8 = 124;

/// `'/'`: starts the item headers.
pub const HEADER_SECTION_ITEM_SEPARATOR: u8 = 47;

/// `';'`: separates the fields of the general header and ends each item
/// header entry.
pub const HEADER_ITEM_SEPARATOR: u8 = 59;

/// `'0'`: the lock flag of a new archive.
pub const LOCK_FLAG_OPEN: u8 = 48;

/// `'0'`, the character that digits are counted from.
pub const DIGIT_ZERO: u8 = 48;

/// Why an archive's bytes could not be read or rewritten.
#[derive(Clone, Copy, Debug, PartialEq, Eq, Structural)]
pub enum FormatError {
    /// The section flag that was looked for does not occur ("Header not found").
    HeaderNotFound,
    /// An item header entry is not valid base64.
    InvalidEntry,
    /// The general header is not `version ';' code ';' lock` with a known code.
    InvalidGeneralHeader,
}

// ---------------------------------------------------------------------------
// Searching.
// ---------------------------------------------------------------------------

/// The index of the last occurrence of `b` in `s`.
pub open spec fn last_index_of(s: Seq<u8>, b: u8) -> Option<int>
    decreases s.len(),
{
    if s.len() == 0 {
        None
    } else if s.last() == b {
        Some(s.len() - 1)
    } else {
        last_index_of(s.drop_last(), b)
    }
}

/// `b` does not occur in `s`.
pub open spec fn lacks(s: Seq<u8>, b: u8) -> bool {
    forall|i: int| 0 <= i < s.len() ==> #[trigger] s[i] != b
}

/// What `last_index_of` returns, described without recursion.
pub proof fn lemma_last_index_of(s: Seq<u8>, b: u8)
    ensures
        match last_index_of(s, b) {
            Some(i) => 0 <= i < s.len() && s[i] == b && lacks(s.skip(i + 1), b),
            None => lacks(s, b),
        },
    decreases s.len(),
{
    if s.len() > 0 && s.last() != b {
        lemma_last_index_of(s.drop_last(), b);
        match last_index_of(s.drop_last(), b) {
            Some(i) => {
                assert forall|j: int| 0 <= j < s.skip(i + 1).len() implies #[trigger] s.skip(
                    i + 1,
                )[j] != b by {
                    if j < s.drop_last().skip(i + 1).len() {
                        assert(s.skip(i + 1)[j] == s.drop_last().skip(i + 1)[j]);
                    }
                }
            },
            None => {
                assert forall|j: int| 0 <= j < s.len() implies #[trigger] s[j] != b by {
                    if j < s.len() - 1 {
                        assert(s[j] == s.drop_last()[j]);
                    }
                }
            },
        }
    }
}

/// An occurrence of `b` with no `b` after it is the last one.
pub proof fn lemma_last_index_is(s: Seq<u8>, b: u8, i: int)
    requires
        0 <= i < s.len(),
        s[i] == b,
        lacks(s.skip(i + 1), b),
    ensures
        last_index_of(s, b) == Some(i),
{
    lemma_last_index_of(s, b);
    match last_index_of(s, b) {
        Some(k) => {
            if k > i {
                assert(s.skip(i + 1)[k - i - 1] == s[k]);
            } else if k < i {
                assert(s.skip(k + 1)[i - k - 1] == s[i]);
            }
        },
        None => {
            assert(s[i] == b);
        },
    }
}

/// A sequence without `b` has no last `b`.
pub proof fn lemma_last_index_none(s: Seq<u8>, b: u8)
    requires
        lacks(s, b),
    ensures
        last_index_of(s, b) is None,
{
    lemma_last_index_of(s, b);
    if let Some(k) = last_index_of(s, b) {
        assert(s[k] == b);
    }
}

/// The index of the last `flag` byte of `archive`, found by reading the
/// archive backwards `BUFFER_SIZE_HEADERS` bytes at a time; `HeaderNotFound`
/// when the archive holds no such byte.
pub fn find_flag_index(archive: &[u8], flag: u8) -> (res: Result<usize, FormatError>)
    ensures
        match res {
            Ok(i) => last_index_of(archive@, flag) == Some(i as int),
            Err(e) => e == FormatError::HeaderNotFound && last_index_of(archive@, flag) is None,
        },
{
    let mut position: usize = archive.len();
    while position > 0
        invariant
            position <= archive@.len(),
            forall|j: int| position <= j < archive@.len() ==> #[trigger] archive@[j] != flag,
        decreases position,
    {
        let read_size: usize = if position < BUFFER_SIZE_HEADERS {
            position
        } else {
            BUFFER_SIZE_HEADERS
        };
        let chunk_start = position - read_size;
        // search the chunk `chunk_start .. position` from its end
        let mut k: usize = position;
        while k > chunk_start
            invariant
                chunk_start <= k <= position <= archive@.len(),
                forall|j: int| k <= j < archive@.len() ==> #[trigger] archive@[j] != flag,
            decreases k,
        {
            if archive[k - 1] == flag {
                proof {
                    let i = k - 1;
                    assert forall|j: int| 0 <= j < archive@.skip(i + 1).len() implies #[trigger] archive@.skip(i + 1)[j] != flag by {
                        assert(archive@.skip(i + 1)[j] == archive@[i + 1 + j]);
                    }
                    lemma_last_index_is(archive@, flag, i as int);
                }
                return Ok(k - 1);
            }
            k = k - 1;
        }
        position = chunk_start;
    }
    proof {
        lemma_last_index_none(archive@, flag);
    }
    Err(FormatError::HeaderNotFound)
}


// ---------------------------------------------------------------------------
// Item header entries.
// ---------------------------------------------------------------------------

/// The entries of an item-header section, read from the front: each run of
/// bytes up to a `;` is an entry (the `;` dropped); a last run with no `;`
/// after it is read to the end and loses its last byte, as if that byte
/// were the separator.  `cur` is the run read so far.
pub open spec fn entries_from(s: Seq<u8>, cur: Seq<u8>) -> Seq<Seq<u8>>
    decreases s.len(),
{
    if s.len() == 0 {
        if cur.len() == 0 {
            seq![]
        } else {
            seq![cur.drop_last()]
        }
    } else if s[0] == HEADER_ITEM_SEPARATOR {
        seq![cur] + entries_from(s.drop_first(), seq![])
    } else {
        entries_from(s.drop_first(), cur.push(s[0]))
    }
}

/// The entries of an item-header section.
pub open spec fn split_entries(s: Seq<u8>) -> Seq<Seq<u8>> {
    entries_from(s, seq![])
}

/// Entries written one after the other, each followed by `;`.
pub open spec fn join_entries(es: Seq<Seq<u8>>) -> Seq<u8>
    decreases es.len(),
{
    if es.len() == 0 {
        seq![]
    } else {
        join_entries(es.drop_last()) + es.last() + seq![HEADER_ITEM_SEPARATOR]
    }
}

/// The base64 decoding of each entry, or `None` when one of them is not
/// valid base64.
pub open spec fn decode_entries(es: Seq<Seq<u8>>) -> Option<Seq<Seq<u8>>>
    decreases es.len(),
{
    if es.len() == 0 {
        Some(seq![])
    } else {
        match (decode_entries(es.drop_last()), b64_decoded(es.last())) {
            (Some(rs), Some(r)) => Some(rs.push(r)),
            _ => None,
        }
    }
}

/// The base64 encoding of each record.
pub open spec fn encode_records(rs: Seq<Seq<u8>>) -> Seq<Seq<u8>> {
    rs.map_values(|r: Seq<u8>| b64_encoded(r))
}

/// `s` is empty or ends with the entry separator: an entry appended to it
/// starts a run of its own.
pub open spec fn ends_entry(s: Seq<u8>) -> bool {
    s.len() == 0 || s.last() == HEADER_ITEM_SEPARATOR
}

/// `e` can stand as an entry: it holds none of the separator bytes.
pub open spec fn is_entry(e: Seq<u8>) -> bool {
    &&& lacks(e, HEADER_ITEM_SEPARATOR)
    &&& lacks(e, HEADER_SECTION_GENERAL_SEPARATOR)
    &&& lacks(e, HEADER_SECTION_ITEM_SEPARATOR)
}

/// The base64 encoding of any bytes is an entry: its alphabet holds none
/// of the separators.
pub proof fn lemma_b64_is_entry(r: Seq<u8>)
    ensures
        is_entry(b64_encoded(r)),
{
    let e = b64_encoded(r);
    lemma_b64_alphabet(r);
    assert forall|q: int| 0 <= q < e.len() implies #[trigger] e[q] != HEADER_ITEM_SEPARATOR
        && e[q] != HEADER_SECTION_GENERAL_SEPARATOR && e[q] != HEADER_SECTION_ITEM_SEPARATOR by {
        assert(is_url_safe_b64_byte(e[q]));
    }
}

/// The views of a vector of byte vectors.
pub open spec fn byte_views(v: Seq<Vec<u8>>) -> Seq<Seq<u8>> {
    v.map_values(|b: Vec<u8>| b@)
}

/// Reading `e ';'` after a run `cur` gives the one entry `cur e`.
proof fn lemma_entries_single(e: Seq<u8>, cur: Seq<u8>)
    requires
        lacks(e, HEADER_ITEM_SEPARATOR),
    ensures
        entries_from(e + seq![HEADER_ITEM_SEPARATOR], cur) == seq![cur + e],
    decreases e.len(),
{
    let s = e + seq![HEADER_ITEM_SEPARATOR];
    if e.len() == 0 {
        assert(s[0] == HEADER_ITEM_SEPARATOR);
        assert(s.drop_first() =~= Seq::<u8>::empty());
        assert(entries_from(s.drop_first(), seq![]) =~= Seq::<Seq<u8>>::empty());
        assert(entries_from(s, cur) == seq![cur] + entries_from(s.drop_first(), seq![]));
        assert(cur + e =~= cur);
        assert(seq![cur] + Seq::<Seq<u8>>::empty() =~= seq![cur]);
    } else {
        assert(s[0] == e[0]);
        assert(e[0] != HEADER_ITEM_SEPARATOR);
        assert(lacks(e.drop_first(), HEADER_ITEM_SEPARATOR)) by {
            assert forall|i: int| 0 <= i < e.drop_first().len() implies #[trigger] e.drop_first()[i]
                != HEADER_ITEM_SEPARATOR by {
                assert(e.drop_first()[i] == e[i + 1]);
            }
        }
        lemma_entries_single(e.drop_first(), cur.push(e[0]));
        assert(s.drop_first() =~= e.drop_first() + seq![HEADER_ITEM_SEPARATOR]);
        assert(entries_from(s, cur) == entries_from(s.drop_first(), cur.push(s[0])));
        assert(cur.push(e[0]) + e.drop_first() =~= cur + e);
    }
}

/// Reading a section that ends an entry, then more bytes, reads the entries
/// of each in turn.
proof fn lemma_entries_append(s: Seq<u8>, t: Seq<u8>, cur: Seq<u8>)
    requires
        (s.len() == 0 && cur.len() == 0) || (s.len() > 0 && s.last() == HEADER_ITEM_SEPARATOR),
    ensures
        entries_from(s + t, cur) == entries_from(s, cur) + entries_from(t, seq![]),
    decreases s.len(),
{
    if s.len() == 0 {
        assert(s + t =~= t);
        assert(cur =~= Seq::<u8>::empty());
        assert(entries_from(s, cur) =~= Seq::<Seq<u8>>::empty());
        assert(entries_from(s, cur) + entries_from(t, seq![]) =~= entries_from(t, seq![]));
    } else {
        let st = s + t;
        assert(st[0] == s[0]);
        assert(st.len() > 0);
        assert(st.drop_first() =~= s.drop_first() + t);
        if s[0] == HEADER_ITEM_SEPARATOR {
            assert(entries_from(st, cur) == seq![cur] + entries_from(st.drop_first(), seq![]));
            assert(entries_from(s, cur) == seq![cur] + entries_from(s.drop_first(), seq![]));
            if s.len() > 1 {
                assert(s.drop_first().last() == s.last());
            }
            lemma_entries_append(s.drop_first(), t, seq![]);
            assert(seq![cur] + entries_from(s.drop_first() + t, seq![]) =~= seq![cur]
                + entries_from(s.drop_first(), seq![]) + entries_from(t, seq![]));
        } else {
            assert(s.len() > 1);
            assert(s.drop_first().last() == s.last());
            assert(entries_from(st, cur) == entries_from(st.drop_first(), cur.push(st[0])));
            assert(entries_from(s, cur) == entries_from(s.drop_first(), cur.push(s[0])));
            lemma_entries_append(s.drop_first(), t, cur.push(s[0]));
        }
    }
}

/// Joined entries end an entry.
proof fn lemma_join_ends_entry(es: Seq<Seq<u8>>)
    ensures
        ends_entry(join_entries(es)),
{
}

/// Entries that hold no `;`, joined, read back as themselves.
pub proof fn lemma_split_join(es: Seq<Seq<u8>>)
    requires
        forall|i: int| 0 <= i < es.len() ==> lacks(#[trigger] es[i], HEADER_ITEM_SEPARATOR),
    ensures
        split_entries(join_entries(es)) == es,
    decreases es.len(),
{
    if es.len() > 0 {
        let init = es.drop_last();
        assert forall|i: int| 0 <= i < init.len() implies lacks(#[trigger] init[i], HEADER_ITEM_SEPARATOR) by {
            assert(init[i] == es[i]);
        }
        lemma_split_join(init);
        let e = es.last();
        assert(lacks(e, HEADER_ITEM_SEPARATOR));
        let tail = e + seq![HEADER_ITEM_SEPARATOR];
        assert(join_entries(es) =~= join_entries(init) + tail);
        let j = join_entries(init);
        lemma_entries_append(j, tail, seq![]);
        lemma_entries_single(e, seq![]);
        assert(Seq::<u8>::empty() + e =~= e);
        assert(init + seq![e] =~= es);
    }
}

/// Appending one entry to a section that ends an entry adds that entry.
pub proof fn lemma_split_push(s: Seq<u8>, e: Seq<u8>)
    requires
        ends_entry(s),
        lacks(e, HEADER_ITEM_SEPARATOR),
    ensures
        split_entries(s + e + seq![HEADER_ITEM_SEPARATOR]) == split_entries(s).push(e),
{
    let tail = e + seq![HEADER_ITEM_SEPARATOR];
    assert(s + e + seq![HEADER_ITEM_SEPARATOR] =~= s + tail);
    lemma_entries_append(s, tail, seq![]);
    lemma_entries_single(e, seq![]);
    assert(Seq::<u8>::empty() + e =~= e);
    assert(split_entries(s) + seq![e] =~= split_entries(s).push(e));
}

/// Decoding two runs of entries decodes each in turn.
pub proof fn lemma_decode_append(a: Seq<Seq<u8>>, b: Seq<Seq<u8>>)
    ensures
        decode_entries(a + b) == match (decode_entries(a), decode_entries(b)) {
            (Some(x), Some(y)) => Some(x + y),
            _ => None,
        },
    decreases b.len(),
{
    if b.len() == 0 {
        assert(a + b =~= a);
        if let Some(x) = decode_entries(a) {
            assert(x + Seq::<Seq<u8>>::empty() =~= x);
        }
    } else {
        lemma_decode_append(a, b.drop_last());
        assert((a + b).drop_last() =~= a + b.drop_last());
        assert((a + b).last() == b.last());
        if let (Some(x), Some(y)) = (decode_entries(a), decode_entries(b.drop_last())) {
            if let Some(r) = b64_decoded(b.last()) {
                assert((x + y).push(r) =~= x + y.push(r));
            }
        }
    }
}

/// Entries that are the encodings of records, each of which decodes back to
/// its record, decode to the records.
pub proof fn lemma_decode_encoded(rs: Seq<Seq<u8>>, es: Seq<Seq<u8>>)
    requires
        es.len() == rs.len(),
        forall|i: int| 0 <= i < es.len() ==> b64_decoded(#[trigger] es[i]) == Some(rs[i]),
    ensures
        decode_entries(es) == Some(rs),
    decreases es.len(),
{
    if es.len() > 0 {
        assert forall|i: int| 0 <= i < es.drop_last().len() implies b64_decoded(
            #[trigger] es.drop_last()[i],
        ) == Some(rs.drop_last()[i]) by {
            assert(es.drop_last()[i] == es[i]);
        }
        lemma_decode_encoded(rs.drop_last(), es.drop_last());
        assert(b64_decoded(es.last()) == Some(rs.last()));
        assert(rs.drop_last().push(rs.last()) =~= rs);
    }
}


// ---------------------------------------------------------------------------
// Reading the item headers.
// ---------------------------------------------------------------------------

/// The item headers of an archive: the base64-decoded entries that follow
/// its last `/`.
pub open spec fn spec_list(a: Seq<u8>) -> Result<Seq<Seq<u8>>, FormatError> {
    match last_index_of(a, HEADER_SECTION_ITEM_SEPARATOR) {
        None => Err(FormatError::HeaderNotFound),
        Some(p) => match decode_entries(split_entries(a.skip(p + 1))) {
            Some(rs) => Ok(rs),
            None => Err(FormatError::InvalidEntry),
        },
    }
}

/// One step of reading entries, from position `i` of `s`.
proof fn lemma_entries_step(s: Seq<u8>, i: int, cur: Seq<u8>)
    requires
        0 <= i < s.len(),
    ensures
        entries_from(s.skip(i), cur) == if s[i] == HEADER_ITEM_SEPARATOR {
            seq![cur] + entries_from(s.skip(i + 1), seq![])
        } else {
            entries_from(s.skip(i + 1), cur.push(s[i]))
        },
{
    assert(s.skip(i)[0] == s[i]);
    assert(s.skip(i).drop_first() =~= s.skip(i + 1));
}

/// Decodes one entry; `InvalidEntry` when it is not valid base64.
fn decode_entry(entry: &Vec<u8>) -> (res: Result<Vec<u8>, FormatError>)
    ensures
        match res {
            Ok(r) => b64_decoded(entry@) == Some(r@),
            Err(e) => e == FormatError::InvalidEntry && b64_decoded(entry@) is None,
        },
{
    match b64_decode(entry.as_slice()) {
        Some(r) => Ok(r),
        None => Err(FormatError::InvalidEntry),
    }
}

/// The item headers of an archive, as the bytes they decode to: the
/// entries after the last `/`, each up to a `;`, base64-decoded.
/// `HeaderNotFound` when the archive holds no `/`; `InvalidEntry` when an
/// entry is not valid base64.
pub fn list_entries(archive: &[u8]) -> (res: Result<Vec<Vec<u8>>, FormatError>)
    ensures
        match res {
            Ok(rs) => spec_list(archive@) == Ok::<Seq<Seq<u8>>, FormatError>(byte_views(rs@)),
            Err(e) => spec_list(archive@) == Err::<Seq<Seq<u8>>, FormatError>(e),
        },
{
    let p = match find_flag_index(archive, HEADER_SECTION_ITEM_SEPARATOR) {
        Ok(p) => p,
        Err(e) => return Err(e),
    };
    proof {
        lemma_last_index_of(archive@, HEADER_SECTION_ITEM_SEPARATOR);
    }
    assert(p < archive.len());
    let ghost sec = archive@.skip(p + 1);
    let mut items: Vec<Vec<u8>> = Vec::new();
    let ghost mut done: Seq<Seq<u8>> = seq![];
    let mut cur: Vec<u8> = Vec::new();
    let mut i: usize = p + 1;
    assert(archive@.skip(i as int) =~= sec);
    while i < archive.len()
        invariant
            p + 1 <= i <= archive@.len(),
            last_index_of(archive@, HEADER_SECTION_ITEM_SEPARATOR) == Some(p as int),
            sec == archive@.skip(p + 1),
            split_entries(sec) == done + entries_from(archive@.skip(i as int), cur@),
            decode_entries(done) == Some(byte_views(items@)),
        decreases archive@.len() - i,
    {
        let b = archive[i];
        proof {
            lemma_entries_step(archive@, i as int, cur@);
        }
        if b == HEADER_ITEM_SEPARATOR {
            let r = decode_entry(&cur);
            match r {
                Ok(r) => {
                    proof {
                        assert(done.push(cur@).drop_last() =~= done);
                        assert(byte_views(items@.push(r)) =~= byte_views(items@).push(r@));
                        assert(done + (seq![cur@] + entries_from(archive@.skip(i + 1), seq![]))
                            =~= done.push(cur@) + entries_from(archive@.skip(i + 1), seq![]));
                        done = done.push(cur@);
                    }
                    items.push(r);
                    cur = Vec::new();
                },
                Err(e) => {
                    proof {
                        let rest = entries_from(archive@.skip(i + 1), seq![]);
                        assert(done + (seq![cur@] + rest) =~= done.push(cur@) + rest);
                        assert(done.push(cur@).drop_last() =~= done);
                        assert(done.push(cur@).last() == cur@);
                        assert(decode_entries(done.push(cur@)) is None);
                        lemma_decode_append(done.push(cur@), rest);
                    }
                    return Err(e);
                },
            }
        } else {
            cur.push(b);
        }
        i = i + 1;
    }
    assert(archive@.skip(i as int) =~= Seq::<u8>::empty());
    if cur.len() > 0 {
        let mut last = cur.clone();
        last.pop();
        assert(last@ =~= cur@.drop_last());
        let r = decode_entry(&last);
        match r {
            Ok(r) => {
                proof {
                    assert(split_entries(sec) =~= done.push(last@));
                    assert(done.push(last@).drop_last() =~= done);
                    assert(done.push(last@).last() == last@);
                    assert(byte_views(items@.push(r)) =~= byte_views(items@).push(r@));
                }
                items.push(r);
            },
            Err(e) => {
                proof {
                    assert(split_entries(sec) =~= done.push(last@));
                    assert(done.push(last@).drop_last() =~= done);
                    assert(done.push(last@).last() == last@);
                }
                return Err(e);
            },
        }
    } else {
        assert(split_entries(sec) =~= done);
    }
    Ok(items)
}


// ---------------------------------------------------------------------------
// Well-formed archives.
// ---------------------------------------------------------------------------

/// `a` has a general header flag before its item header flag, and its item
/// header section is empty or ends an entry.  Every archive that this
/// library writes is well formed.
pub open spec fn is_well_formed(a: Seq<u8>) -> bool {
    match (
        last_index_of(a, HEADER_SECTION_GENERAL_SEPARATOR),
        last_index_of(a, HEADER_SECTION_ITEM_SEPARATOR),
    ) {
        (Some(g), Some(p)) => g < p && ends_entry(a.skip(p + 1)),
        _ => false,
    }
}

/// Where the general header of `a` starts (its last `|`).
pub open spec fn general_index(a: Seq<u8>) -> int {
    last_index_of(a, HEADER_SECTION_GENERAL_SEPARATOR)->0
}

/// Where the item header flag of `a` stands (its last `/`).
pub open spec fn item_flag_index(a: Seq<u8>) -> int {
    last_index_of(a, HEADER_SECTION_ITEM_SEPARATOR)->0
}

/// Two runs of bytes without `b`, one after the other, have no `b`.
pub proof fn lemma_lacks_concat(x: Seq<u8>, y: Seq<u8>, b: u8)
    requires
        lacks(x, b),
        lacks(y, b),
    ensures
        lacks(x + y, b),
{
    assert forall|i: int| 0 <= i < (x + y).len() implies #[trigger] (x + y)[i] != b by {
        if i < x.len() {
            assert((x + y)[i] == x[i]);
        } else {
            assert((x + y)[i] == y[i - x.len()]);
        }
    }
}

/// `s` is what follows position `k` of `t`, and `t[k]` is `b`, with no
/// `b` in `s`: then `k` is the last `b` of `t`.
proof fn lemma_last_at(t: Seq<u8>, k: int, s: Seq<u8>, b: u8)
    requires
        0 <= k < t.len(),
        t[k] == b,
        t.skip(k + 1) == s,
        lacks(s, b),
    ensures
        last_index_of(t, b) == Some(k),
{
    lemma_last_index_is(t, b, k);
}

/// What a list of item headers turns into when one record is appended.
pub open spec fn pushed(
    l: Result<Seq<Seq<u8>>, FormatError>,
    r: Seq<u8>,
) -> Result<Seq<Seq<u8>>, FormatError> {
    match l {
        Ok(rs) => Ok(rs.push(r)),
        Err(e) => Err(e),
    }
}

// ---------------------------------------------------------------------------
// Adding an item.
// ---------------------------------------------------------------------------

/// `a` with `c` placed before its general header (at `g`) and the entry `e`
/// appended, followed by `;`.
pub open spec fn spec_insert(a: Seq<u8>, g: int, c: Seq<u8>, e: Seq<u8>) -> Seq<u8> {
    a.take(g) + c + a.skip(g) + e + seq![HEADER_ITEM_SEPARATOR]
}

/// Adding an item to a well-formed archive: the archive stays well formed,
/// the general header moves by the length of the compressed data, which now
/// stands where the general header stood, and the item headers gain the
/// record that the new entry decodes to, after the ones already there.
pub proof fn law_insert(a: Seq<u8>, c: Seq<u8>, e: Seq<u8>, r: Seq<u8>)
    requires
        is_well_formed(a),
        is_entry(e),
        b64_decoded(e) == Some(r),
    ensures
        ({
            let g = general_index(a);
            let n = spec_insert(a, g, c, e);
            &&& is_well_formed(n)
            &&& general_index(n) == g + c.len()
            &&& item_flag_index(n) == item_flag_index(a) + c.len()
            &&& n.subrange(g, g + c.len()) == c
            &&& n.take(g) == a.take(g)
            &&& spec_list(n) == pushed(spec_list(a), r)
            &&& spec_general_header(n) == spec_general_header(a)
        }),
{
    let g = general_index(a);
    let p = item_flag_index(a);
    lemma_last_index_of(a, HEADER_SECTION_GENERAL_SEPARATOR);
    lemma_last_index_of(a, HEADER_SECTION_ITEM_SEPARATOR);
    let n = spec_insert(a, g, c, e);
    let sep = seq![HEADER_ITEM_SEPARATOR];
    let x = a.take(g) + c;
    assert(n =~= x + a.skip(g) + e + sep);
    assert(x.len() == g + c.len());
    // the general header flag
    assert(n[g + c.len()] == a[g]);
    assert(n.skip(g + c.len() + 1) =~= a.skip(g + 1) + e + sep);
    assert(lacks(sep, HEADER_SECTION_GENERAL_SEPARATOR));
    lemma_lacks_concat(a.skip(g + 1), e, HEADER_SECTION_GENERAL_SEPARATOR);
    lemma_lacks_concat(a.skip(g + 1) + e, sep, HEADER_SECTION_GENERAL_SEPARATOR);
    lemma_last_at(n, g + c.len(), a.skip(g + 1) + e + sep, HEADER_SECTION_GENERAL_SEPARATOR);
    // the item header flag
    assert(n[p + c.len()] == a[p]);
    assert(n.skip(p + c.len() + 1) =~= a.skip(p + 1) + e + sep);
    assert(lacks(sep, HEADER_SECTION_ITEM_SEPARATOR));
    lemma_lacks_concat(a.skip(p + 1), e, HEADER_SECTION_ITEM_SEPARATOR);
    lemma_lacks_concat(a.skip(p + 1) + e, sep, HEADER_SECTION_ITEM_SEPARATOR);
    lemma_last_at(n, p + c.len(), a.skip(p + 1) + e + sep, HEADER_SECTION_ITEM_SEPARATOR);
    // the item header section
    let sec = a.skip(p + 1);
    lemma_split_push(sec, e);
    let es = split_entries(sec);
    assert(es.push(e).drop_last() =~= es);
    assert(es.push(e).last() == e);
    assert(n.subrange(g, g + c.len()) =~= c);
    assert(n.take(g) =~= a.take(g));
    assert forall|i: int| g <= i <= p implies #[trigger] n[i + c.len()] == a[i] by {
        assert(n[i + c.len()] == (x + a.skip(g))[i + c.len()]);
    }
    lemma_general_header_moved(a, n, c.len() as int);
}

/// `archive` up to `g`, then `compressed`, then the rest of `archive`, then
/// `entry` and `;`.
fn splice_bytes(archive: &[u8], g: usize, compressed: &[u8], entry: &[u8]) -> (res: Vec<u8>)
    requires
        g < archive@.len(),
    ensures
        res@ == spec_insert(archive@, g as int, compressed@, entry@),
{
    let mut out: Vec<u8> = Vec::new();
    let mut i: usize = 0;
    while i < g
        invariant
            i <= g < archive@.len(),
            out@ =~= archive@.take(i as int),
        decreases g - i,
    {
        out.push(archive[i]);
        i = i + 1;
    }
    let mut j: usize = 0;
    while j < compressed.len()
        invariant
            j <= compressed@.len(),
            out@ =~= archive@.take(g as int) + compressed@.take(j as int),
        decreases compressed@.len() - j,
    {
        out.push(compressed[j]);
        j = j + 1;
    }
    assert(compressed@.take(compressed@.len() as int) =~= compressed@);
    let mut k: usize = g;
    while k < archive.len()
        invariant
            g <= k <= archive@.len(),
            out@ =~= archive@.take(g as int) + compressed@ + archive@.subrange(g as int, k as int),
        decreases archive@.len() - k,
    {
        out.push(archive[k]);
        k = k + 1;
    }
    assert(archive@.subrange(g as int, archive@.len() as int) =~= archive@.skip(g as int));
    let mut m: usize = 0;
    while m < entry.len()
        invariant
            m <= entry@.len(),
            out@ =~= archive@.take(g as int) + compressed@ + archive@.skip(g as int)
                + entry@.take(m as int),
        decreases entry@.len() - m,
    {
        out.push(entry[m]);
        m = m + 1;
    }
    assert(entry@.take(entry@.len() as int) =~= entry@);
    out.push(HEADER_ITEM_SEPARATOR);
    assert(out@ =~= spec_insert(archive@, g as int, compressed@, entry@));
    out
}

/// Places `compressed` where the general header of `archive` starts and
/// appends the base64 encoding of `record`, followed by `;`, as a new item
/// header entry.  `HeaderNotFound` when the archive has no `|`.
pub fn insert_item_bytes(archive: &[u8], compressed: &[u8], record: &[u8]) -> (res: Result<
    Vec<u8>,
    FormatError,
>)
    requires
        record@.len() <= usize::MAX / 2,
    ensures
        match res {
            Ok(n) => {
                &&& last_index_of(archive@, HEADER_SECTION_GENERAL_SEPARATOR) is Some
                &&& n@ == spec_insert(
                    archive@,
                    general_index(archive@),
                    compressed@,
                    b64_encoded(record@),
                )
                &&& is_well_formed(archive@) ==> {
                    &&& is_well_formed(n@)
                    &&& general_index(n@) == general_index(archive@) + compressed@.len()
                    &&& spec_list(n@) == pushed(spec_list(archive@), record@)
                    &&& spec_general_header(n@) == spec_general_header(archive@)
                }
            },
            Err(e) => e == FormatError::HeaderNotFound && last_index_of(
                archive@,
                HEADER_SECTION_GENERAL_SEPARATOR,
            ) is None,
        },
{
    let g = match find_flag_index(archive, HEADER_SECTION_GENERAL_SEPARATOR) {
        Ok(g) => g,
        Err(e) => return Err(e),
    };
    proof {
        lemma_last_index_of(archive@, HEADER_SECTION_GENERAL_SEPARATOR);
    }
    assert(g < archive.len());
    let entry = b64_encode(record);
    let out = splice_bytes(archive, g, compressed, entry.as_slice());
    proof {
        let e = entry@;
        lemma_b64_is_entry(record@);
        if is_well_formed(archive@) {
            law_insert(archive@, compressed@, e, record@);
        }
    }
    Ok(out)
}


// ---------------------------------------------------------------------------
// Removing an item's data.
// ---------------------------------------------------------------------------

/// `a` without the bytes from `s` to `e`.
pub open spec fn spec_cut(a: Seq<u8>, s: int, e: int) -> Seq<u8> {
    a.take(s) + a.skip(e)
}

/// Cutting a range of bytes out of the data of a well-formed archive: the
/// archive stays well formed, both section flags move back by the length of
/// the range, the item headers are unchanged, and the bytes before and
/// after the range keep their order.
pub proof fn law_cut(a: Seq<u8>, s: int, e: int)
    requires
        is_well_formed(a),
        0 <= s <= e <= general_index(a),
    ensures
        ({
            let n = spec_cut(a, s, e);
            &&& is_well_formed(n)
            &&& general_index(n) == general_index(a) - (e - s)
            &&& item_flag_index(n) == item_flag_index(a) - (e - s)
            &&& spec_list(n) == spec_list(a)
            &&& n.take(s) == a.take(s)
            &&& n.skip(s) == a.skip(e)
            &&& spec_general_header(n) == spec_general_header(a)
        }),
{
    let g = general_index(a);
    let p = item_flag_index(a);
    lemma_last_index_of(a, HEADER_SECTION_GENERAL_SEPARATOR);
    lemma_last_index_of(a, HEADER_SECTION_ITEM_SEPARATOR);
    let n = spec_cut(a, s, e);
    let d = e - s;
    assert(n[g - d] == a[g]);
    assert(n.skip(g - d + 1) =~= a.skip(g + 1));
    lemma_last_at(n, g - d, a.skip(g + 1), HEADER_SECTION_GENERAL_SEPARATOR);
    assert(n[p - d] == a[p]);
    assert(n.skip(p - d + 1) =~= a.skip(p + 1));
    lemma_last_at(n, p - d, a.skip(p + 1), HEADER_SECTION_ITEM_SEPARATOR);
    assert(n.take(s) =~= a.take(s));
    assert(n.skip(s) =~= a.skip(e));
    assert forall|i: int| g <= i <= p implies #[trigger] n[i + (-d)] == a[i] by {
        assert(n[i - d] == a.skip(e)[i - d - s]);
    }
    lemma_general_header_moved(a, n, -d);
}

/// `archive` without the bytes from `start` to `end`: the bytes after
/// `end` move back to `start`.
pub fn cut_range(archive: &[u8], start: usize, end: usize) -> (res: Vec<u8>)
    requires
        start <= end <= archive@.len(),
    ensures
        res@ == spec_cut(archive@, start as int, end as int),
{
    let mut out: Vec<u8> = Vec::new();
    let mut i: usize = 0;
    while i < start
        invariant
            i <= start <= end <= archive@.len(),
            out@ =~= archive@.take(i as int),
        decreases start - i,
    {
        out.push(archive[i]);
        i = i + 1;
    }
    let mut k: usize = end;
    while k < archive.len()
        invariant
            start <= end <= k <= archive@.len(),
            out@ =~= archive@.take(start as int) + archive@.subrange(end as int, k as int),
        decreases archive@.len() - k,
    {
        out.push(archive[k]);
        k = k + 1;
    }
    assert(archive@.subrange(end as int, archive@.len() as int) =~= archive@.skip(end as int));
    out
}

// ---------------------------------------------------------------------------
// Rewriting the item headers.
// ---------------------------------------------------------------------------

/// `n` zero bytes.
pub open spec fn zeros(n: int) -> Seq<u8> {
    Seq::new(n as nat, |i: int| 0u8)
}

/// `a` cut or zero-extended to length `len`.
pub open spec fn resized(a: Seq<u8>, len: int) -> Seq<u8> {
    if len <= a.len() {
        a.take(len)
    } else {
        a + zeros(len - a.len())
    }
}

/// `a` with its item header entries replaced by `es`: the bytes of `a` up
/// to `gen` (zero-extended if `a` is shorter), then the bytes from `gen` up
/// to and including the item header flag (none if `gen` lies past it), then
/// the entries, each followed by `;`.
pub open spec fn spec_rewrite(a: Seq<u8>, gen: int, es: Seq<Seq<u8>>) -> Seq<u8> {
    let ii = item_flag_index(a) + 1;
    let general = if ii > gen {
        a.subrange(gen, ii)
    } else {
        seq![]
    };
    resized(a, gen) + general + join_entries(es)
}

/// Joined entries without `b` hold no `b` (when `b` is not `;`).
pub proof fn lemma_join_lacks(es: Seq<Seq<u8>>, b: u8)
    requires
        b != HEADER_ITEM_SEPARATOR,
        forall|i: int| 0 <= i < es.len() ==> lacks(#[trigger] es[i], b),
    ensures
        lacks(join_entries(es), b),
    decreases es.len(),
{
    if es.len() > 0 {
        assert forall|i: int| 0 <= i < es.drop_last().len() implies lacks(
            #[trigger] es.drop_last()[i],
            b,
        ) by {
            assert(es.drop_last()[i] == es[i]);
        }
        lemma_join_lacks(es.drop_last(), b);
        assert(lacks(es.last(), b));
        assert(lacks(seq![HEADER_ITEM_SEPARATOR], b));
        lemma_lacks_concat(join_entries(es.drop_last()), es.last(), b);
        lemma_lacks_concat(join_entries(es.drop_last()) + es.last(), seq![HEADER_ITEM_SEPARATOR], b);
    }
}

/// Replacing the item headers of a well-formed archive (keeping everything
/// up to its item header flag) by entries that decode to `rs`: the archive
/// stays well formed, its section flags stay where they were, and its item
/// headers are `rs`.
pub proof fn law_rewrite(a: Seq<u8>, es: Seq<Seq<u8>>, rs: Seq<Seq<u8>>)
    requires
        is_well_formed(a),
        es.len() == rs.len(),
        forall|i: int| 0 <= i < es.len() ==> is_entry(#[trigger] es[i]),
        forall|i: int| 0 <= i < es.len() ==> b64_decoded(#[trigger] es[i]) == Some(rs[i]),
    ensures
        ({
            let n = a.take(item_flag_index(a) + 1) + join_entries(es);
            &&& is_well_formed(n)
            &&& general_index(n) == general_index(a)
            &&& item_flag_index(n) == item_flag_index(a)
            &&& spec_list(n) == Ok::<Seq<Seq<u8>>, FormatError>(rs)
            &&& spec_general_header(n) == spec_general_header(a)
        }),
{
    let g = general_index(a);
    let p = item_flag_index(a);
    lemma_last_index_of(a, HEADER_SECTION_GENERAL_SEPARATOR);
    lemma_last_index_of(a, HEADER_SECTION_ITEM_SEPARATOR);
    let j = join_entries(es);
    let n = a.take(p + 1) + j;
    assert forall|i: int| 0 <= i < es.len() implies lacks(
        #[trigger] es[i],
        HEADER_SECTION_GENERAL_SEPARATOR,
    ) by {
        assert(is_entry(es[i]));
    }
    assert forall|i: int| 0 <= i < es.len() implies lacks(
        #[trigger] es[i],
        HEADER_SECTION_ITEM_SEPARATOR,
    ) by {
        assert(is_entry(es[i]));
    }
    assert forall|i: int| 0 <= i < es.len() implies lacks(#[trigger] es[i], HEADER_ITEM_SEPARATOR) by {
        assert(is_entry(es[i]));
    }
    lemma_join_lacks(es, HEADER_SECTION_GENERAL_SEPARATOR);
    lemma_join_lacks(es, HEADER_SECTION_ITEM_SEPARATOR);
    // general header flag
    assert(n[g] == a[g]);
    assert(a.take(p + 1).skip(g + 1) =~= a.skip(g + 1).take(p - g));
    assert(lacks(a.skip(g + 1).take(p - g), HEADER_SECTION_GENERAL_SEPARATOR)) by {
        assert forall|i: int| 0 <= i < a.skip(g + 1).take(p - g).len() implies #[trigger] a.skip(
            g + 1,
        ).take(p - g)[i] != HEADER_SECTION_GENERAL_SEPARATOR by {
            assert(a.skip(g + 1).take(p - g)[i] == a.skip(g + 1)[i]);
        }
    }
    assert(n.skip(g + 1) =~= a.take(p + 1).skip(g + 1) + j);
    lemma_lacks_concat(a.take(p + 1).skip(g + 1), j, HEADER_SECTION_GENERAL_SEPARATOR);
    lemma_last_at(n, g, a.take(p + 1).skip(g + 1) + j, HEADER_SECTION_GENERAL_SEPARATOR);
    // item header flag
    assert(n[p] == a[p]);
    assert(n.skip(p + 1) =~= j);
    lemma_last_at(n, p, j, HEADER_SECTION_ITEM_SEPARATOR);
    lemma_join_ends_entry(es);
    lemma_split_join(es);
    lemma_decode_encoded(rs, es);
    assert forall|i: int| g <= i <= p implies #[trigger] n[i + 0] == a[i] by {
        assert(n[i] == a.take(p + 1)[i]);
    }
    lemma_general_header_moved(a, n, 0);
}

/// Replaces the item header entries of `archive` by the base64 encodings
/// of `records`, each followed by `;`.  The bytes up to
/// `general_header_index` are kept (the archive is zero-extended if it is
/// shorter), then the general header from there up to and including the
/// item header flag, then the new entries.  `HeaderNotFound` when the
/// archive has no `/`.
pub fn rewrite_entries(archive: &[u8], general_header_index: usize, records: &Vec<Vec<u8>>) -> (res:
    Result<Vec<u8>, FormatError>)
    requires
        forall|i: int| 0 <= i < records@.len() ==> (#[trigger] records@[i])@.len() <= usize::MAX
            / 2,
    ensures
        match res {
            Ok(n) => {
                &&& last_index_of(archive@, HEADER_SECTION_ITEM_SEPARATOR) is Some
                &&& n@ == spec_rewrite(
                    archive@,
                    general_header_index as int,
                    encode_records(byte_views(records@)),
                )
                &&& general_header_index <= item_flag_index(archive@) + 1 ==> n@ == archive@.take(
                    item_flag_index(archive@) + 1,
                ) + join_entries(encode_records(byte_views(records@)))
                &&& is_well_formed(archive@) && general_header_index <= item_flag_index(archive@)
                    + 1 ==> {
                    &&& is_well_formed(n@)
                    &&& general_index(n@) == general_index(archive@)
                    &&& spec_list(n@) == Ok::<Seq<Seq<u8>>, FormatError>(byte_views(records@))
                    &&& spec_general_header(n@) == spec_general_header(archive@)
                }
            },
            Err(e) => e == FormatError::HeaderNotFound && last_index_of(
                archive@,
                HEADER_SECTION_ITEM_SEPARATOR,
            ) is None,
        },
{
    let p = match find_flag_index(archive, HEADER_SECTION_ITEM_SEPARATOR) {
        Ok(p) => p,
        Err(e) => return Err(e),
    };
    proof {
        lemma_last_index_of(archive@, HEADER_SECTION_ITEM_SEPARATOR);
    }
    assert(p < archive.len());
    let ii = p + 1;
    let gen = general_header_index;
    let glen = if ii > gen {
        ii - gen
    } else {
        0
    };
    let mut out: Vec<u8> = Vec::new();
    // the bytes before the general header, zero-extended
    if gen <= archive.len() {
        let mut i: usize = 0;
        while i < gen
            invariant
                i <= gen <= archive@.len(),
                out@ =~= archive@.take(i as int),
            decreases gen - i,
        {
            out.push(archive[i]);
            i = i + 1;
        }
    } else {
        let mut i: usize = 0;
        while i < archive.len()
            invariant
                i <= archive@.len(),
                out@ =~= archive@.take(i as int),
            decreases archive@.len() - i,
        {
            out.push(archive[i]);
            i = i + 1;
        }
        assert(archive@.take(archive@.len() as int) =~= archive@);
        let mut z: usize = archive.len();
        while z < gen
            invariant
                archive@.len() <= z <= gen,
                out@ =~= archive@ + zeros(z - archive@.len()),
            decreases gen - z,
        {
            out.push(0u8);
            z = z + 1;
        }
    }
    assert(out@ =~= resized(archive@, gen as int));
    // the general header, up to and including the item header flag
    let mut k: usize = 0;
    while k < glen
        invariant
            k <= glen,
            glen > 0 ==> gen + glen == ii <= archive@.len(),
            out@ =~= resized(archive@, gen as int) + (if glen > 0 {
                archive@.subrange(gen as int, gen + k)
            } else {
                seq![]
            }),
        decreases glen - k,
    {
        out.push(archive[gen + k]);
        k = k + 1;
    }
    let ghost base = out@;
    assert(base =~= resized(archive@, gen as int) + (if ii > gen {
        archive@.subrange(gen as int, ii as int)
    } else {
        seq![]
    }));
    // the entries
    let ghost mut es: Seq<Seq<u8>> = seq![];
    let mut r: usize = 0;
    while r < records.len()
        invariant
            r <= records@.len(),
            forall|i: int| 0 <= i < records@.len() ==> (#[trigger] records@[i])@.len()
                <= usize::MAX / 2,
            es.len() == r,
            es =~= encode_records(byte_views(records@)).take(r as int),
            forall|i: int| 0 <= i < r ==> is_entry(#[trigger] es[i]),
            forall|i: int| 0 <= i < r ==> b64_decoded(#[trigger] es[i]) == Some(records@[i]@),
            out@ =~= base + join_entries(es),
        decreases records@.len() - r,
    {
        let entry = b64_encode(records[r].as_slice());
        let mut m: usize = 0;
        let ghost before = out@;
        while m < entry.len()
            invariant
                m <= entry@.len(),
                out@ =~= before + entry@.take(m as int),
            decreases entry@.len() - m,
        {
            out.push(entry[m]);
            m = m + 1;
        }
        assert(entry@.take(entry@.len() as int) =~= entry@);
        out.push(HEADER_ITEM_SEPARATOR);
        proof {
            let e = entry@;
            lemma_b64_is_entry(records@[r as int]@);
            let old_es = es;
            es = es.push(e);
            assert(es.drop_last() =~= old_es);
            assert(es.last() == e);
            assert(encode_records(byte_views(records@)).take(r + 1) =~= old_es.push(e));
        }
        r = r + 1;
    }
    assert(es =~= encode_records(byte_views(records@)));
    proof {
        if gen <= ii {
            assert(base =~= archive@.take(ii as int));
        }
        if is_well_formed(archive@) && gen <= ii {
            assert forall|i: int| 0 <= i < es.len() implies b64_decoded(#[trigger] es[i]) == Some(
                byte_views(records@)[i],
            ) by {
                assert(byte_views(records@)[i] == records@[i]@);
            }
            law_rewrite(archive@, es, byte_views(records@));
        }
    }
    Ok(out)
}


// ---------------------------------------------------------------------------
// The general header.
// ---------------------------------------------------------------------------

/// The fields of an archive's general header.
#[derive(Clone, Copy, Debug, PartialEq, Eq, Structural)]
pub struct GeneralHeader {
    /// The format version byte (`'1'`).
    pub version: u8,
    /// The compression that the archive was created with.
    pub compression_type: CompressionType,
    /// The lock flag byte (`'0'` when unlocked).
    pub lock: u8,
}

/// The digit that stands for a compression type in the general header.
pub open spec fn code_digit(c: CompressionType) -> u8 {
    (DIGIT_ZERO + c.code()) as u8
}

/// The bytes of a new, empty archive: the general header
/// `'|' version ';' code ';' lock` and the item header flag `'/'`.
pub open spec fn spec_initial(c: CompressionType) -> Seq<u8> {
    seq![
        HEADER_SECTION_GENERAL_SEPARATOR,
        RAT_VERSION,
        HEADER_ITEM_SEPARATOR,
        code_digit(c),
        HEADER_ITEM_SEPARATOR,
        LOCK_FLAG_OPEN,
        HEADER_SECTION_ITEM_SEPARATOR,
    ]
}

/// The general header of `a`: the five bytes between its last `|` and its
/// last `/`, `version ';' code ';' lock`, with a code digit of a known
/// compression type.
pub open spec fn spec_general_header(a: Seq<u8>) -> Result<GeneralHeader, FormatError> {
    match (
        last_index_of(a, HEADER_SECTION_GENERAL_SEPARATOR),
        last_index_of(a, HEADER_SECTION_ITEM_SEPARATOR),
    ) {
        (Some(g), Some(p)) => {
            if p != g + 6 || a[g + 2] != HEADER_ITEM_SEPARATOR || a[g + 4] != HEADER_ITEM_SEPARATOR
                || a[g + 3] < DIGIT_ZERO {
                Err(FormatError::InvalidGeneralHeader)
            } else {
                match CompressionType::spec_from_u8((a[g + 3] - DIGIT_ZERO) as u8) {
                    Some(c) => Ok(GeneralHeader { version: a[g + 1], compression_type: c, lock: a[g + 5] }),
                    None => Err(FormatError::InvalidGeneralHeader),
                }
            }
        },
        _ => Err(FormatError::HeaderNotFound),
    }
}

/// The bytes of a new, empty archive compressed with `compression_type`.
pub fn initial_content(compression_type: CompressionType) -> (res: Vec<u8>)
    ensures
        res@ == spec_initial(compression_type),
        is_well_formed(res@),
        spec_list(res@) == Ok::<Seq<Seq<u8>>, FormatError>(seq![]),
        spec_general_header(res@) == Ok::<GeneralHeader, FormatError>(
            GeneralHeader { version: RAT_VERSION, compression_type, lock: LOCK_FLAG_OPEN },
        ),
{
    let digit: u8 = DIGIT_ZERO + compression_type.to_u8();
    let res: Vec<u8> = vec![
        HEADER_SECTION_GENERAL_SEPARATOR,
        RAT_VERSION,
        HEADER_ITEM_SEPARATOR,
        digit,
        HEADER_ITEM_SEPARATOR,
        LOCK_FLAG_OPEN,
        HEADER_SECTION_ITEM_SEPARATOR,
    ];
    proof {
        let a = res@;
        assert(a =~= spec_initial(compression_type));
        assert(a.skip(1) =~= seq![RAT_VERSION, HEADER_ITEM_SEPARATOR, digit, HEADER_ITEM_SEPARATOR, LOCK_FLAG_OPEN, HEADER_SECTION_ITEM_SEPARATOR]);
        assert(lacks(a.skip(1), HEADER_SECTION_GENERAL_SEPARATOR));
        lemma_last_index_is(a, HEADER_SECTION_GENERAL_SEPARATOR, 0);
        assert(a.skip(7) =~= Seq::<u8>::empty());
        lemma_last_index_is(a, HEADER_SECTION_ITEM_SEPARATOR, 6);
        assert(split_entries(a.skip(7)) =~= Seq::<Seq<u8>>::empty());
    }
    res
}

/// Reads the general header of `archive`.  `HeaderNotFound` when the
/// archive lacks `|` or `/`; `InvalidGeneralHeader` when the bytes between
/// them are not `version ';' code ';' lock` with a known code.
pub fn parse_general_header(archive: &[u8]) -> (res: Result<GeneralHeader, FormatError>)
    ensures
        res == spec_general_header(archive@),
{
    let g = match find_flag_index(archive, HEADER_SECTION_GENERAL_SEPARATOR) {
        Ok(g) => g,
        Err(e) => return Err(e),
    };
    let p = match find_flag_index(archive, HEADER_SECTION_ITEM_SEPARATOR) {
        Ok(p) => p,
        Err(e) => return Err(e),
    };
    proof {
        lemma_last_index_of(archive@, HEADER_SECTION_GENERAL_SEPARATOR);
        lemma_last_index_of(archive@, HEADER_SECTION_ITEM_SEPARATOR);
    }
    assert(g < archive.len() && p < archive.len());
    if g >= p || p - g != 6 {
        return Err(FormatError::InvalidGeneralHeader);
    }
    if archive[g + 2] != HEADER_ITEM_SEPARATOR || archive[g + 4] != HEADER_ITEM_SEPARATOR
        || archive[g + 3] < DIGIT_ZERO {
        return Err(FormatError::InvalidGeneralHeader);
    }
    match CompressionType::from_u8(archive[g + 3] - DIGIT_ZERO) {
        Some(c) => Ok(GeneralHeader { version: archive[g + 1], compression_type: c, lock: archive[g + 5] }),
        None => Err(FormatError::InvalidGeneralHeader),
    }
}


/// Moving the general header and the item header flag together, bytes and
/// all, by `d` positions keeps the general header.
pub proof fn lemma_general_header_moved(a: Seq<u8>, n: Seq<u8>, d: int)
    requires
        last_index_of(a, HEADER_SECTION_GENERAL_SEPARATOR) is Some,
        last_index_of(a, HEADER_SECTION_ITEM_SEPARATOR) is Some,
        last_index_of(n, HEADER_SECTION_GENERAL_SEPARATOR) == Some(general_index(a) + d),
        last_index_of(n, HEADER_SECTION_ITEM_SEPARATOR) == Some(item_flag_index(a) + d),
        forall|i: int|
            general_index(a) <= i <= item_flag_index(a) ==> #[trigger] n[i + d] == a[i],
    ensures
        spec_general_header(n) == spec_general_header(a),
{
    let g = general_index(a);
    let p = item_flag_index(a);
    if p == g + 6 {
        assert(n[g + 1 + d] == a[g + 1]);
        assert(n[g + 2 + d] == a[g + 2]);
        assert(n[g + 3 + d] == a[g + 3]);
        assert(n[g + 4 + d] == a[g + 4]);
        assert(n[g + 5 + d] == a[g + 5]);
    }
}

} // verus!
