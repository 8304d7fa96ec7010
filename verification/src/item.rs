//! The header of one item stored in an archive.

use vstd::prelude::*;
use crate::bindings::{node_id_value, since_epoch, system_now, uuid_v1, uuid_v1_value};

verus! {

/// Where an item's compressed data lies in the archive, with its name, its
/// uncompressed size and the metadata the caller attached to it.
#[derive(Debug)]
pub struct FileItem<T> {
    /// The item's version-1 UUID, as its 128-bit value.
    pub id: u128,
    /// The item's file name.
    pub name: String,
    /// What the caller attached to the item.
    pub metadata: T,
    /// Where the item's compressed data starts in the archive.
    pub start: u64,
    /// Where the item's compressed data ends in the archive (exclusive).
    pub end: u64,
    /// The size of the item before compression.
    pub size: u64,
}

/// A stored file as the tool reports it: its id (a UUID's 128-bit value),
/// its size and its name.
#[derive(Debug)]
pub struct RFile {
    pub uuid: u128,
    pub size: u64,
    pub name: String,
}

/// The node id written into every item id.
pub open spec fn item_node_id() -> Seq<u8> {
    seq![1u8, 2u8, 3u8, 4u8, 5u8, 6u8]
}

/// The clock sequence of an item id made at `nanos` nanoseconds past a
/// second: their low 14 bits.
pub open spec fn clock_sequence(nanos: u32) -> u16 {
    (nanos % 0x4000) as u16
}

impl<T> FileItem<T> {
    /// A new item header with a fresh version-1 UUID for the current time
    /// (node id `01:02:03:04:05:06`): its last six bytes are the node id,
    /// its version nibble is 1 and its variant bits are `10`.  `None` when
    /// the clock reads a time before the Unix epoch.
    pub fn new(name: String, metadata: T, size: u64, start: u64, end: u64) -> (res: Option<Self>)
        ensures
            match res {
                Some(f) => {
                    &&& f.name == name
                    &&& f.metadata == metadata
                    &&& f.size == size
                    &&& f.start == start
                    &&& f.end == end
                    &&& f.id % 0x1_0000_0000_0000 == node_id_value(item_node_id())
                    &&& (f.id / 0x1000_0000_0000_0000_0000) % 16 == 1
                    &&& (f.id / 0x4000_0000_0000_0000) % 4 == 2
                },
                None => true,
            },
    {
        match since_epoch(system_now()) {
            Some((secs, nanos)) => Some(Self::at_time(name, metadata, size, start, end, secs, nanos)),
            None => None,
        }
    }

    /// The item header that `new` makes when the clock reads `secs`
    /// seconds and `nanos` nanoseconds after the Unix epoch: its id is the
    /// version-1 UUID for that time, with node id `01:02:03:04:05:06` and
    /// the low 14 bits of `nanos` as clock sequence.
    pub fn at_time(
        name: String,
        metadata: T,
        size: u64,
        start: u64,
        end: u64,
        secs: u64,
        nanos: u32,
    ) -> (res: Self)
        requires
            nanos < 1_000_000_000,
        ensures
            res.name == name,
            res.metadata == metadata,
            res.size == size,
            res.start == start,
            res.end == end,
            res.id == uuid_v1_value(secs, nanos, clock_sequence(nanos), item_node_id()),
            res.id % 0x1_0000_0000_0000 == node_id_value(item_node_id()),
            (res.id / 0x1000_0000_0000_0000_0000) % 16 == 1,
            (res.id / 0x4000_0000_0000_0000) % 4 == 2,
    {
        let node: [u8; 6] = [1, 2, 3, 4, 5, 6];
        assert(node@ == item_node_id());
        let counter: u16 = (nanos % 0x4000) as u16;
        let id = uuid_v1(secs, nanos, counter, node);
        FileItem { id, name, metadata, start, end, size }
    }
}

/// The position of the first item with id `id`.
pub open spec fn first_with_id<T>(items: Seq<FileItem<T>>, id: u128) -> Option<int>
    decreases items.len(),
{
    if items.len() == 0 {
        None
    } else if items[0].id == id {
        Some(0)
    } else {
        match first_with_id(items.drop_first(), id) {
            Some(i) => Some(i + 1),
            None => None,
        }
    }
}

/// The position of the first item named `name`.
pub open spec fn first_with_name<T>(items: Seq<FileItem<T>>, name: Seq<char>) -> Option<int>
    decreases items.len(),
{
    if items.len() == 0 {
        None
    } else if items[0].name@ == name {
        Some(0)
    } else {
        match first_with_name(items.drop_first(), name) {
            Some(i) => Some(i + 1),
            None => None,
        }
    }
}

/// What `first_with_id` returns, described without recursion.
pub proof fn lemma_first_with_id<T>(items: Seq<FileItem<T>>, id: u128)
    ensures
        match first_with_id(items, id) {
            Some(i) => 0 <= i < items.len() && items[i].id == id && forall|j: int|
                0 <= j < i ==> #[trigger] items[j].id != id,
            None => forall|j: int| 0 <= j < items.len() ==> #[trigger] items[j].id != id,
        },
    decreases items.len(),
{
    if items.len() > 0 && items[0].id != id {
        let rest = items.drop_first();
        lemma_first_with_id(rest, id);
        match first_with_id(rest, id) {
            Some(i) => {
                assert(items[i + 1] == rest[i]);
                assert forall|j: int| 0 <= j < i + 1 implies #[trigger] items[j].id != id by {
                    if j > 0 {
                        assert(items[j] == rest[j - 1]);
                    }
                }
            },
            None => {
                assert forall|j: int| 0 <= j < items.len() implies #[trigger] items[j].id != id by {
                    if j > 0 {
                        assert(items[j] == rest[j - 1]);
                    }
                }
            },
        }
    }
}

/// What `first_with_name` returns, described without recursion.
pub proof fn lemma_first_with_name<T>(items: Seq<FileItem<T>>, name: Seq<char>)
    ensures
        match first_with_name(items, name) {
            Some(i) => 0 <= i < items.len() && items[i].name@ == name && forall|j: int|
                0 <= j < i ==> #[trigger] items[j].name@ != name,
            None => forall|j: int| 0 <= j < items.len() ==> #[trigger] items[j].name@ != name,
        },
    decreases items.len(),
{
    if items.len() > 0 && items[0].name@ != name {
        let rest = items.drop_first();
        lemma_first_with_name(rest, name);
        assert forall|j: int| 1 <= j < items.len() implies items[j] == rest[j - 1] by {}
        match first_with_name(rest, name) {
            Some(i) => {
                assert(items[i + 1] == rest[i]);
                assert forall|j: int| 0 <= j < i + 1 implies #[trigger] items[j].name@ != name by {
                    if j > 0 {
                        let r = rest[j - 1];
                        assert(r.name@ != name);
                        assert(items[j] == r);
                    }
                }
            },
            None => {
                assert forall|j: int| 0 <= j < items.len() implies #[trigger] items[j].name@
                    != name by {
                    if j > 0 {
                        let r = rest[j - 1];
                        assert(r.name@ != name);
                        assert(items[j] == r);
                    }
                }
            },
        }
    }
}

/// An item named `name`, none before it having that name, is the first
/// with that name.
proof fn lemma_first_name_is<T>(items: Seq<FileItem<T>>, name: Seq<char>, k: int)
    requires
        0 <= k < items.len(),
        items[k].name@ == name,
        forall|j: int| 0 <= j < k ==> #[trigger] items[j].name@ != name,
    ensures
        first_with_name(items, name) == Some(k),
{
    lemma_first_with_name(items, name);
    match first_with_name(items, name) {
        Some(i) => {
            if i < k {
                assert(items[i].name@ != name);
            } else if i > k {
                assert(items[k].name@ != name);
            }
        },
        None => {
            assert(items[k].name@ != name);
        },
    }
}

/// An item with id `id`, none before it having that id, is the first with
/// that id.
pub proof fn lemma_first_id_is<T>(items: Seq<FileItem<T>>, id: u128, k: int)
    requires
        0 <= k < items.len(),
        items[k].id == id,
        forall|j: int| 0 <= j < k ==> #[trigger] items[j].id != id,
    ensures
        first_with_id(items, id) == Some(k),
{
    lemma_first_with_id(items, id);
    match first_with_id(items, id) {
        Some(i) => {
            if i < k {
                assert(items[i].id != id);
            } else if i > k {
                assert(items[k].id != id);
            }
        },
        None => {
            assert(items[k].id != id);
        },
    }
}

/// No item has id `id`: there is no first one.
proof fn lemma_first_id_none<T>(items: Seq<FileItem<T>>, id: u128)
    requires
        forall|j: int| 0 <= j < items.len() ==> #[trigger] items[j].id != id,
    ensures
        first_with_id(items, id) is None,
{
    lemma_first_with_id(items, id);
    if let Some(i) = first_with_id(items, id) {
        assert(items[i].id != id);
    }
}

/// No item is named `name`: there is no first one.
proof fn lemma_first_name_none<T>(items: Seq<FileItem<T>>, name: Seq<char>)
    requires
        forall|j: int| 0 <= j < items.len() ==> #[trigger] items[j].name@ != name,
    ensures
        first_with_name(items, name) is None,
{
    lemma_first_with_name(items, name);
    if let Some(i) = first_with_name(items, name) {
        assert(items[i].name@ != name);
    }
}

/// The position of the first item with id `id`, if any.
pub fn position_of_id<T>(items: &[FileItem<T>], id: u128) -> (res: Option<usize>)
    ensures
        match res {
            Some(i) => first_with_id(items@, id) == Some(i as int),
            None => first_with_id(items@, id) is None,
        },
{
    let mut i: usize = 0;
    while i < items.len()
        invariant
            i <= items@.len(),
            forall|j: int| 0 <= j < i ==> #[trigger] items@[j].id != id,
        decreases items@.len() - i,
    {
        if items[i].id == id {
            proof {
                lemma_first_id_is(items@, id, i as int);
            }
            return Some(i);
        }
        i = i + 1;
    }
    proof {
        lemma_first_id_none(items@, id);
    }
    None
}

/// The position of the first item named `name`, if any.
pub fn position_of_name<T>(items: &[FileItem<T>], name: &str) -> (res: Option<usize>)
    ensures
        match res {
            Some(i) => first_with_name(items@, name@) == Some(i as int),
            None => first_with_name(items@, name@) is None,
        },
{
    let wanted: String = name.to_owned();
    let mut i: usize = 0;
    while i < items.len()
        invariant
            i <= items@.len(),
            wanted@ == name@,
            forall|j: int| 0 <= j < i ==> #[trigger] items@[j].name@ != name@,
        decreases items@.len() - i,
    {
        if items[i].name == wanted {
            proof {
                lemma_first_name_is(items@, name@, i as int);
            }
            return Some(i);
        }
        i = i + 1;
    }
    proof {
        lemma_first_name_none(items@, name@);
    }
    None
}

} // verus!
