//! The root directory: a run of 32-byte slots, sixteen to a sector.
//!
//! A slot whose first byte is `00` ends the directory; one whose first byte
//! is `E5` was deleted. Any other slot is in use, and names a file unless
//! its attribute byte marks a volume label or a directory.
use vstd::prelude::*;
use crate::block::{le16, le32, lemma_le32_parts, Block};
use crate::bus::{image_wf, CardBus};
use crate::clock::{pack_timestamp, unpack_timestamp, Timestamp};
use crate::error::TransportError;
use crate::name::ShortName;
use crate::transport::BlockTransport;
use crate::volume::Volume;

verus! {

/// The attribute byte given to a new file: the archive bit alone.
pub const ATTR_ARCHIVE: u8 = 0x20;

/// What the directory records of one file.
#[derive(Clone, Copy, Debug, PartialEq, Eq)]
pub struct DirectoryEntry {
    pub name: ShortName,
    /// Size in bytes.
    pub size: u32,
    /// First cluster of the file's chain.
    pub first_cluster: u32,
    /// When the file was last closed after a change.
    pub modified: Timestamp,
}

/// The sector that holds slot `index`.
pub open spec fn slot_sector(vol: Volume, index: int) -> int {
    vol.root_start + index / 16
}

/// Where in its sector slot `index` starts.
pub open spec fn slot_offset(index: int) -> int {
    (index % 16) * 32
}

/// The 32 bytes of slot `index`.
pub open spec fn slot_bytes(image: Seq<Seq<u8>>, vol: Volume, index: int) -> Seq<u8> {
    image[slot_sector(vol, index)].subrange(slot_offset(index), slot_offset(index) + 32)
}

/// The slot marks the end of the directory.
pub open spec fn slot_is_end(slot: Seq<u8>) -> bool {
    slot[0] == 0x00
}

/// The slot is not in use.
pub open spec fn slot_is_free(slot: Seq<u8>) -> bool {
    slot[0] == 0x00 || slot[0] == 0xE5
}

/// The slot is in use by a file: neither the volume-label bit nor the
/// directory bit of its attribute byte is set.
pub open spec fn slot_is_file(slot: Seq<u8>) -> bool {
    !slot_is_free(slot) && (slot[11] / 8) % 4 == 0
}

/// The slot is in use by a file of this stored name.
pub open spec fn slot_names(slot: Seq<u8>, name: Seq<u8>) -> bool {
    slot_is_file(slot) && slot.subrange(0, 11) == name
}

/// Slot `index` is the one that a search for `name` finds: the first slot
/// that names it, with no end mark before it.
pub open spec fn found_at(image: Seq<Seq<u8>>, vol: Volume, name: Seq<u8>, index: int) -> bool {
    &&& 0 <= index < vol.root_entries
    &&& slot_names(slot_bytes(image, vol, index), name)
    &&& forall|j: int|
        0 <= j < index ==> !slot_is_end(#[trigger] slot_bytes(image, vol, j)) && !slot_names(
            slot_bytes(image, vol, j),
            name,
        )
}

/// A search for `name` finds nothing.
pub open spec fn absent(image: Seq<Seq<u8>>, vol: Volume, name: Seq<u8>) -> bool {
    forall|i: int| !found_at(image, vol, name, i)
}

/// Slot `index` is the first one that is not in use.
pub open spec fn free_slot_at(image: Seq<Seq<u8>>, vol: Volume, index: int) -> bool {
    &&& 0 <= index < vol.root_entries
    &&& slot_is_free(slot_bytes(image, vol, index))
    &&& forall|j: int| 0 <= j < index ==> !slot_is_free(#[trigger] slot_bytes(image, vol, j))
}

/// Every slot is in use.
pub open spec fn directory_full(image: Seq<Seq<u8>>, vol: Volume) -> bool {
    forall|j: int| 0 <= j < vol.root_entries ==> !slot_is_free(#[trigger] slot_bytes(image, vol, j))
}

/// The file size that a slot records.
pub open spec fn slot_size(slot: Seq<u8>) -> int {
    le32(slot, 28)
}

/// The first cluster that a slot records.
pub open spec fn slot_first_cluster(slot: Seq<u8>) -> int {
    le16(slot, 26)
}

/// `entry` is what the slot records.
pub open spec fn describes(entry: DirectoryEntry, slot: Seq<u8>) -> bool {
    &&& entry.name@ == slot.subrange(0, 11)
    &&& entry.size == slot_size(slot)
    &&& entry.first_cluster == slot_first_cluster(slot)
    &&& entry.modified == Timestamp::unpacked(le16(slot, 24), le16(slot, 22))
}

/// The slot of a new, empty file: name, archive attribute, creation and
/// modification time `now`, first cluster, size zero.
pub open spec fn fresh_slot(name: Seq<u8>, first_cluster: int, now: Timestamp) -> Seq<u8> {
    Seq::new(
        32,
        |k: int|
            if k < 11 {
                name[k]
            } else if k == 11 {
                ATTR_ARCHIVE
            } else if 14 <= k < 18 {
                now.fat_bytes()[k - 14]
            } else if 22 <= k < 26 {
                now.fat_bytes()[k - 22]
            } else if k == 26 {
                (first_cluster % 256) as u8
            } else if k == 27 {
                (first_cluster / 256) as u8
            } else {
                0u8
            },
    )
}

/// A slot with its modification time set to `now` and its size to `size`.
pub open spec fn updated_slot(slot: Seq<u8>, size: int, now: Timestamp) -> Seq<u8> {
    Seq::new(
        32,
        |k: int|
            if 22 <= k < 26 {
                now.fat_bytes()[k - 22]
            } else if k == 28 {
                (size % 256) as u8
            } else if k == 29 {
                ((size / 256) % 256) as u8
            } else if k == 30 {
                ((size / 65536) % 256) as u8
            } else if k == 31 {
                (size / 16777216) as u8
            } else {
                slot[k]
            },
    )
}

/// A slot with its first cluster set to `first_cluster`.
pub open spec fn adopted_slot(slot: Seq<u8>, first_cluster: int) -> Seq<u8> {
    Seq::new(
        32,
        |k: int|
            if k == 26 {
                (first_cluster % 256) as u8
            } else if k == 27 {
                (first_cluster / 256) as u8
            } else {
                slot[k]
            },
    )
}

/// The card's sectors after slot `index` is replaced by `bytes`.
pub open spec fn with_slot(image: Seq<Seq<u8>>, vol: Volume, index: int, bytes: Seq<u8>) -> Seq<
    Seq<u8>,
> {
    image.update(
        slot_sector(vol, index),
        Seq::new(
            512,
            |k: int|
                if slot_offset(index) <= k < slot_offset(index) + 32 {
                    bytes[k - slot_offset(index)]
                } else {
                    image[slot_sector(vol, index)][k]
                },
        ),
    )
}

/// The root directories of two images agree.
pub open spec fn same_root(a: Seq<Seq<u8>>, b: Seq<Seq<u8>>, vol: Volume) -> bool {
    forall|s: int| vol.root_start <= s < vol.data_start ==> a[s] == b[s]
}

/// Every slot lies in a sector of the root directory, behind the table.
pub proof fn lemma_slot_sector_in_root(vol: Volume, index: int)
    requires
        vol.wf(),
        0 <= index < vol.root_entries,
    ensures
        vol.root_start <= slot_sector(vol, index) < vol.data_start,
        vol.fat_start + vol.fat_sectors <= slot_sector(vol, index),
        0 <= slot_offset(index) <= 480,
{
}

/// Images with the same root directory have the same slots.
pub proof fn lemma_same_root_slot(a: Seq<Seq<u8>>, b: Seq<Seq<u8>>, vol: Volume, index: int)
    requires
        vol.wf(),
        same_root(a, b, vol),
        0 <= index < vol.root_entries,
    ensures
        slot_bytes(a, vol, index) == slot_bytes(b, vol, index),
{
    lemma_slot_sector_in_root(vol, index);
}

/// Images with the same root directory find the same files.
pub proof fn lemma_same_root_found(
    a: Seq<Seq<u8>>,
    b: Seq<Seq<u8>>,
    vol: Volume,
    name: Seq<u8>,
    index: int,
)
    requires
        vol.wf(),
        same_root(a, b, vol),
        found_at(a, vol, name, index),
    ensures
        found_at(b, vol, name, index),
{
    lemma_same_root_slot(a, b, vol, index);
    assert forall|j: int| 0 <= j < index implies !slot_is_end(#[trigger] slot_bytes(b, vol, j))
        && !slot_names(slot_bytes(b, vol, j), name) by {
        lemma_same_root_slot(a, b, vol, j);
        assert(!slot_is_end(slot_bytes(a, vol, j)));
    }
}

/// Replacing one slot leaves every other slot, and every sector outside its
/// own, as it was.
pub proof fn lemma_with_slot(image: Seq<Seq<u8>>, vol: Volume, index: int, bytes: Seq<u8>)
    requires
        vol.lies_on(image),
        0 <= index < vol.root_entries,
        bytes.len() == 32,
    ensures
        image_wf(with_slot(image, vol, index, bytes)),
        with_slot(image, vol, index, bytes).len() == image.len(),
        slot_bytes(with_slot(image, vol, index, bytes), vol, index) == bytes,
        forall|j: int|
            0 <= j < vol.root_entries && j != index ==> #[trigger] slot_bytes(
                with_slot(image, vol, index, bytes),
                vol,
                j,
            ) == slot_bytes(image, vol, j),
        forall|s: int|
            0 <= s < image.len() && s != slot_sector(vol, index) ==> #[trigger] with_slot(
                image,
                vol,
                index,
                bytes,
            )[s] == image[s],
{
    let after = with_slot(image, vol, index, bytes);
    lemma_slot_sector_in_root(vol, index);
    assert(slot_bytes(after, vol, index) =~= bytes);
    assert forall|j: int| 0 <= j < vol.root_entries && j != index implies #[trigger] slot_bytes(
        after,
        vol,
        j,
    ) == slot_bytes(image, vol, j) by {
        lemma_slot_sector_in_root(vol, j);
        assert(slot_bytes(after, vol, j) =~= slot_bytes(image, vol, j));
    }
}

/// An updated slot keeps its name, its attribute byte and its first
/// cluster, and records the new size.
pub proof fn lemma_updated_slot(slot: Seq<u8>, size: int, now: Timestamp)
    requires
        slot.len() == 32,
        0 <= size <= u32::MAX,
    ensures
        updated_slot(slot, size, now).len() == 32,
        updated_slot(slot, size, now).subrange(0, 11) == slot.subrange(0, 11),
        updated_slot(slot, size, now)[0] == slot[0],
        updated_slot(slot, size, now)[11] == slot[11],
        slot_first_cluster(updated_slot(slot, size, now)) == slot_first_cluster(slot),
        slot_size(updated_slot(slot, size, now)) == size,
{
    let after = updated_slot(slot, size, now);
    assert(after.subrange(0, 11) =~= slot.subrange(0, 11));
    assert(after[26] == slot[26] && after[27] == slot[27]);
    lemma_le32_parts(size);
    assert(after[28] == (size % 256) as u8);
    assert(after[29] == ((size / 256) % 256) as u8);
    assert(after[30] == ((size / 65536) % 256) as u8);
    assert(after[31] == (size / 16777216) as u8);
}

/// A slot with a new first cluster keeps everything else that it records.
pub proof fn lemma_adopted_slot(slot: Seq<u8>, first_cluster: int)
    requires
        slot.len() == 32,
        0 <= first_cluster < 65536,
    ensures
        adopted_slot(slot, first_cluster).len() == 32,
        adopted_slot(slot, first_cluster).subrange(0, 11) == slot.subrange(0, 11),
        adopted_slot(slot, first_cluster)[0] == slot[0],
        adopted_slot(slot, first_cluster)[11] == slot[11],
        slot_first_cluster(adopted_slot(slot, first_cluster)) == first_cluster,
        slot_size(adopted_slot(slot, first_cluster)) == slot_size(slot),
        le16(adopted_slot(slot, first_cluster), 22) == le16(slot, 22),
        le16(adopted_slot(slot, first_cluster), 24) == le16(slot, 24),
{
    let after = adopted_slot(slot, first_cluster);
    assert(after.subrange(0, 11) =~= slot.subrange(0, 11));
    assert(after[26] == (first_cluster % 256) as u8);
    assert(after[27] == (first_cluster / 256) as u8);
    assert(after[28] == slot[28] && after[29] == slot[29] && after[30] == slot[30] && after[31]
        == slot[31]);
    assert(after[22] == slot[22] && after[23] == slot[23] && after[24] == slot[24] && after[25]
        == slot[25]);
}

/// Replacing a slot by one with the same name and attribute byte keeps
/// every file where the directory finds it.
pub proof fn lemma_with_slot_found(
    image: Seq<Seq<u8>>,
    vol: Volume,
    index: int,
    bytes: Seq<u8>,
    name: Seq<u8>,
    at: int,
)
    requires
        vol.lies_on(image),
        0 <= index < vol.root_entries,
        bytes.len() == 32,
        bytes.subrange(0, 11) == slot_bytes(image, vol, index).subrange(0, 11),
        bytes[0] == slot_bytes(image, vol, index)[0],
        bytes[11] == slot_bytes(image, vol, index)[11],
        found_at(image, vol, name, at),
    ensures
        found_at(with_slot(image, vol, index, bytes), vol, name, at),
{
    let after = with_slot(image, vol, index, bytes);
    lemma_with_slot(image, vol, index, bytes);
    assert forall|j: int| 0 <= j < vol.root_entries implies slot_is_end(
        #[trigger] slot_bytes(after, vol, j),
    ) == slot_is_end(slot_bytes(image, vol, j)) && slot_names(slot_bytes(after, vol, j), name)
        == slot_names(slot_bytes(image, vol, j), name) by {}
    assert forall|j: int| 0 <= j < at implies !slot_is_end(#[trigger] slot_bytes(after, vol, j))
        && !slot_names(slot_bytes(after, vol, j), name) by {
        assert(!slot_is_end(slot_bytes(image, vol, j)));
    }
}

/// Where nothing is found and no slot before `index` ends the directory,
/// no slot before `index` names the file.
pub proof fn lemma_absent_before(image: Seq<Seq<u8>>, vol: Volume, name: Seq<u8>, index: int, j: int)
    requires
        absent(image, vol, name),
        0 <= j < index <= vol.root_entries,
        forall|k: int| 0 <= k < index ==> !slot_is_end(#[trigger] slot_bytes(image, vol, k)),
    ensures
        !slot_names(slot_bytes(image, vol, j), name),
    decreases j,
{
    if slot_names(slot_bytes(image, vol, j), name) {
        assert forall|k: int| 0 <= k < j implies !slot_is_end(#[trigger] slot_bytes(image, vol, k))
            && !slot_names(slot_bytes(image, vol, k), name) by {
            lemma_absent_before(image, vol, name, index, k);
        }
        assert(found_at(image, vol, name, j));
    }
}

/// At most one slot is found for a name.
pub proof fn lemma_found_unique(image: Seq<Seq<u8>>, vol: Volume, name: Seq<u8>, i: int, j: int)
    requires
        found_at(image, vol, name, i),
        found_at(image, vol, name, j),
    ensures
        i == j,
{
    if i < j {
        assert(!slot_names(slot_bytes(image, vol, i), name));
    }
    if j < i {
        assert(!slot_names(slot_bytes(image, vol, j), name));
    }
}

/// Whether the eleven bytes at `at` are the stored name.
fn block_has_name(block: &Block, at: usize, name: &ShortName) -> (b: bool)
    requires
        at + 32 <= 512,
    ensures
        b == (block@.subrange(at as int, at + 32).subrange(0, 11) == name@),
{
    let ghost slot = block@.subrange(at as int, at + 32);
    let mut k: usize = 0;
    while k < 11
        invariant
            k <= 11,
            at + 32 <= 512,
            slot == block@.subrange(at as int, at + 32),
            forall|m: int| 0 <= m < k ==> slot[m] == name@[m],
        decreases 11 - k,
    {
        if block.get(at + k) != name.bytes[k] {
            assert(slot.subrange(0, 11)[k as int] != name@[k as int]);
            return false;
        }
        k = k + 1;
    }
    assert(slot.subrange(0, 11) =~= name@);
    true
}

/// Searches the root directory for `name`.
///
/// Gives the slot found and what it records, or `None` where the directory
/// holds no such file. Changes no sector.
pub fn find_entry<B: CardBus>(transport: &mut BlockTransport<B>, vol: &Volume, name: &ShortName) -> (r:
    Result<Option<(u32, DirectoryEntry)>, TransportError>)
    requires
        old(transport).wf(),
        vol.lies_on(old(transport).image()),
    ensures
        final(transport).wf(),
        final(transport).image() == old(transport).image(),
        r matches Ok(Some(hit)) ==> found_at(old(transport).image(), *vol, name@, hit.0 as int)
            && describes(hit.1, slot_bytes(old(transport).image(), *vol, hit.0 as int)) && hit.1.name
            == *name,
        r matches Ok(None) ==> absent(old(transport).image(), *vol, name@),
        old(transport).reliable() ==> r is Ok && final(transport).reliable(),
{
    let ghost image = transport.image();
    let mut block = Block::zeroed();
    let mut index: u32 = 0;
    while index < vol.root_entries
        invariant
            transport.wf(),
            transport.image() == image,
            image == old(transport).image(),
            vol.lies_on(image),
            index <= vol.root_entries,
            index % 16 != 0 ==> block@ == image[slot_sector(*vol, index as int)],
            forall|j: int|
                0 <= j < index ==> !slot_is_end(#[trigger] slot_bytes(image, *vol, j))
                    && !slot_names(slot_bytes(image, *vol, j), name@),
            old(transport).reliable() ==> transport.reliable(),
        decreases vol.root_entries - index,
    {
        proof {
            lemma_slot_sector_in_root(*vol, index as int);
        }
        if index % 16 == 0 {
            block = match transport.read_block(vol.root_start + index / 16) {
                Err(e) => {
                    return Err(e);
                },
                Ok(b) => b,
            };
        }
        let at: usize = ((index % 16) * 32) as usize;
        let ghost slot = slot_bytes(image, *vol, index as int);
        assert(slot == block@.subrange(at as int, at + 32));
        let first = block.get(at);
        if first == 0x00 {
            assert forall|i: int| !found_at(image, *vol, name@, i) by {
                if found_at(image, *vol, name@, i) {
                    if i > index {
                        assert(!slot_is_end(slot_bytes(image, *vol, index as int)));
                    } else if i < index {
                        assert(!slot_names(slot_bytes(image, *vol, i), name@));
                    }
                }
            }
            return Ok(None);
        }
        let attr = block.get(at + 11);
        if first != 0xE5 && (attr / 8) % 4 == 0 && block_has_name(&block, at, name) {
            let entry = DirectoryEntry {
                name: *name,
                size: block.get_le32(at + 28),
                first_cluster: block.get_le16(at + 26) as u32,
                modified: unpack_timestamp(block.get_le16(at + 24), block.get_le16(at + 22)),
            };
            return Ok(Some((index, entry)));
        }
        index = index + 1;
    }
    assert forall|i: int| !found_at(image, *vol, name@, i) by {
        if found_at(image, *vol, name@, i) {
            assert(!slot_names(slot_bytes(image, *vol, i), name@));
        }
    }
    Ok(None)
}

/// Finds the first slot that is not in use, or `None` where the directory
/// is full. Changes no sector.
pub fn find_free_slot<B: CardBus>(transport: &mut BlockTransport<B>, vol: &Volume) -> (r: Result<
    Option<u32>,
    TransportError,
>)
    requires
        old(transport).wf(),
        vol.lies_on(old(transport).image()),
    ensures
        final(transport).wf(),
        final(transport).image() == old(transport).image(),
        r matches Ok(Some(index)) ==> free_slot_at(old(transport).image(), *vol, index as int),
        r matches Ok(None) ==> directory_full(old(transport).image(), *vol),
        old(transport).reliable() ==> r is Ok && final(transport).reliable(),
{
    let ghost image = transport.image();
    let mut block = Block::zeroed();
    let mut index: u32 = 0;
    while index < vol.root_entries
        invariant
            transport.wf(),
            transport.image() == image,
            image == old(transport).image(),
            vol.lies_on(image),
            index <= vol.root_entries,
            index % 16 != 0 ==> block@ == image[slot_sector(*vol, index as int)],
            forall|j: int| 0 <= j < index ==> !slot_is_free(#[trigger] slot_bytes(image, *vol, j)),
            old(transport).reliable() ==> transport.reliable(),
        decreases vol.root_entries - index,
    {
        proof {
            lemma_slot_sector_in_root(*vol, index as int);
        }
        if index % 16 == 0 {
            block = match transport.read_block(vol.root_start + index / 16) {
                Err(e) => {
                    return Err(e);
                },
                Ok(b) => b,
            };
        }
        let at: usize = ((index % 16) * 32) as usize;
        assert(slot_bytes(image, *vol, index as int) == block@.subrange(at as int, at + 32));
        let first = block.get(at);
        if first == 0x00 || first == 0xE5 {
            return Ok(Some(index));
        }
        index = index + 1;
    }
    Ok(None)
}

/// The 32 bytes of a new, empty file's slot.
fn build_fresh_slot(name: &ShortName, first_cluster: u16, now: &Timestamp) -> (slot: [u8; 32])
    requires
        now.wf(),
    ensures
        slot@ == fresh_slot(name@, first_cluster as int, *now),
{
    let stamp = pack_timestamp(now);
    let mut slot = [0u8; 32];
    let mut k: usize = 0;
    while k < 11
        invariant
            k <= 11,
            forall|m: int| 0 <= m < k ==> slot@[m] == name@[m],
            forall|m: int| k <= m < 32 ==> slot@[m] == 0u8,
        decreases 11 - k,
    {
        slot[k] = name.bytes[k];
        k = k + 1;
    }
    slot[11] = ATTR_ARCHIVE;
    slot[14] = stamp[0];
    slot[15] = stamp[1];
    slot[16] = stamp[2];
    slot[17] = stamp[3];
    slot[22] = stamp[0];
    slot[23] = stamp[1];
    slot[24] = stamp[2];
    slot[25] = stamp[3];
    slot[26] = (first_cluster % 256) as u8;
    slot[27] = (first_cluster / 256) as u8;
    assert(slot@ =~= fresh_slot(name@, first_cluster as int, *now));
    slot
}

/// Writes the slot of a new, empty file into slot `index`, leaving the rest
/// of its sector as it is. On failure no sector has changed.
pub fn write_new_entry<B: CardBus>(
    transport: &mut BlockTransport<B>,
    vol: &Volume,
    index: u32,
    name: &ShortName,
    first_cluster: u16,
    now: &Timestamp,
) -> (r: Result<(), TransportError>)
    requires
        old(transport).wf(),
        vol.lies_on(old(transport).image()),
        index < vol.root_entries,
        now.wf(),
    ensures
        final(transport).wf(),
        r is Ok ==> final(transport).image() == with_slot(
            old(transport).image(),
            *vol,
            index as int,
            fresh_slot(name@, first_cluster as int, *now),
        ),
        r is Err ==> final(transport).image() == old(transport).image(),
        old(transport).reliable() ==> r is Ok && final(transport).reliable(),
{
    proof {
        lemma_slot_sector_in_root(*vol, index as int);
    }
    let ghost image = transport.image();
    let sector = vol.root_start + index / 16;
    let at: usize = ((index % 16) * 32) as usize;
    let mut block = match transport.read_block(sector) {
        Err(e) => {
            return Err(e);
        },
        Ok(b) => b,
    };
    let slot = build_fresh_slot(name, first_cluster, now);
    let mut k: usize = 0;
    while k < 32
        invariant
            k <= 32,
            at + 32 <= 512,
            forall|m: int| at <= m < at + k ==> block@[m] == slot@[m - at],
            forall|m: int| 0 <= m < 512 && !(at <= m < at + k) ==> block@[m] == image[sector as int][m],
        decreases 32 - k,
    {
        block.set(at + k, slot[k]);
        k = k + 1;
    }
    assert(block@ =~= with_slot(image, *vol, index as int, slot@)[sector as int]);
    transport.write_block(sector, &block)
}

/// Sets the first cluster that slot `index` records, leaving the rest of
/// its sector as it is. On failure no sector has changed.
pub fn set_first_cluster<B: CardBus>(
    transport: &mut BlockTransport<B>,
    vol: &Volume,
    index: u32,
    first_cluster: u16,
) -> (r: Result<(), TransportError>)
    requires
        old(transport).wf(),
        vol.lies_on(old(transport).image()),
        index < vol.root_entries,
    ensures
        final(transport).wf(),
        r is Ok ==> final(transport).image() == with_slot(
            old(transport).image(),
            *vol,
            index as int,
            adopted_slot(slot_bytes(old(transport).image(), *vol, index as int), first_cluster as int),
        ),
        r is Err ==> final(transport).image() == old(transport).image(),
        old(transport).reliable() ==> r is Ok && final(transport).reliable(),
{
    proof {
        lemma_slot_sector_in_root(*vol, index as int);
    }
    let ghost image = transport.image();
    let sector = vol.root_start + index / 16;
    let at: usize = ((index % 16) * 32) as usize;
    let mut block = match transport.read_block(sector) {
        Err(e) => {
            return Err(e);
        },
        Ok(b) => b,
    };
    block.set(at + 26, (first_cluster % 256) as u8);
    block.set(at + 27, (first_cluster / 256) as u8);
    assert(block@ =~= with_slot(
        image,
        *vol,
        index as int,
        adopted_slot(slot_bytes(image, *vol, index as int), first_cluster as int),
    )[sector as int]);
    transport.write_block(sector, &block)
}

/// Sets the size and the modification time that slot `index` records,
/// leaving the rest of its sector as it is. On failure no sector has
/// changed.
pub fn update_entry<B: CardBus>(
    transport: &mut BlockTransport<B>,
    vol: &Volume,
    index: u32,
    size: u32,
    now: &Timestamp,
) -> (r: Result<(), TransportError>)
    requires
        old(transport).wf(),
        vol.lies_on(old(transport).image()),
        index < vol.root_entries,
        now.wf(),
    ensures
        final(transport).wf(),
        r is Ok ==> final(transport).image() == with_slot(
            old(transport).image(),
            *vol,
            index as int,
            updated_slot(slot_bytes(old(transport).image(), *vol, index as int), size as int, *now),
        ),
        r is Err ==> final(transport).image() == old(transport).image(),
        old(transport).reliable() ==> r is Ok && final(transport).reliable(),
{
    proof {
        lemma_slot_sector_in_root(*vol, index as int);
    }
    let ghost image = transport.image();
    let sector = vol.root_start + index / 16;
    let at: usize = ((index % 16) * 32) as usize;
    let mut block = match transport.read_block(sector) {
        Err(e) => {
            return Err(e);
        },
        Ok(b) => b,
    };
    let stamp = pack_timestamp(now);
    block.set(at + 22, stamp[0]);
    block.set(at + 23, stamp[1]);
    block.set(at + 24, stamp[2]);
    block.set(at + 25, stamp[3]);
    block.set_le32(at + 28, size);
    assert(block@ =~= with_slot(
        image,
        *vol,
        index as int,
        updated_slot(slot_bytes(image, *vol, index as int), size as int, *now),
    )[sector as int]);
    transport.write_block(sector, &block)
}

} // verus!
