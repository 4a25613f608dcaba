//! Files of the root directory: opening for append, closing and reading
//! back.
//!
//! A handle keeps the file's directory entry and cluster chain in memory.
//! Appending moves the handle's size forward; the size that the directory
//! records moves only when the file is closed. A file therefore reads, after
//! any failure, as it did when it was last closed.
use vstd::prelude::*;
use crate::bus::CardBus;
use crate::clock::Timestamp;
use crate::data::{
    chain_sectors,
    lemma_same_data_stream,
    lemma_sectors_grow,
    lemma_split,
    read_stream,
    same_data,
    stream,
};
use crate::dir::{
    absent,
    adopted_slot,
    describes,
    directory_full,
    find_entry,
    find_free_slot,
    found_at,
    free_slot_at,
    fresh_slot,
    lemma_absent_before,
    lemma_adopted_slot,
    lemma_found_unique,
    lemma_same_root_found,
    lemma_slot_sector_in_root,
    lemma_updated_slot,
    lemma_with_slot,
    lemma_with_slot_found,
    same_root,
    set_first_cluster,
    slot_bytes,
    slot_first_cluster,
    slot_is_end,
    slot_is_free,
    slot_names,
    slot_size,
    update_entry,
    updated_slot,
    with_slot,
    write_new_entry,
    DirectoryEntry,
};
use crate::error::{CapacityError, FsError, VolumeError};
use crate::fat::{
    find_free,
    free_count,
    in_volume,
    is_chain,
    is_free,
    lemma_chain_length,
    lemma_chain_unique,
    lemma_fat_sector_in_table,
    lemma_same_table_chain,
    lemma_with_fat_entry,
    lowest_free,
    nothing_lost,
    same_table,
    walk_chain,
    with_fat_entry,
    write_entry,
    END_OF_CHAIN,
};
use crate::name::{name_parts_of, stored_name, ShortName};
use crate::transport::BlockTransport;
use crate::volume::Volume;

verus! {

/// The clusters of one file, in order.
#[derive(Debug)]
pub struct ClusterChain {
    pub clusters: Vec<u32>,
}

impl View for ClusterChain {
    type V = Seq<u32>;

    open spec fn view(&self) -> Seq<u32> {
        self.clusters@
    }
}

/// An open file: its directory slot, what the slot will record when the
/// file is closed, its cluster chain, and the place where the next byte
/// goes.
#[derive(Debug)]
pub struct OpenFileHandle {
    /// Slot of the root directory that records the file.
    pub slot: u32,
    /// Name, first cluster, and the size including what was appended.
    pub entry: DirectoryEntry,
    /// The file's clusters, first to last.
    pub chain: ClusterChain,
    /// The cluster that takes the next byte, or the last cluster where the
    /// chain is full.
    pub cursor_cluster: u32,
    /// Bytes of the cursor's cluster that lie before the next byte.
    pub cursor_offset: u32,
}

/// Which cluster of a chain takes byte `size`: the last one where the chain
/// is full.
pub open spec fn cursor_index(vol: Volume, chain_len: int, size: int) -> int {
    if size >= 512 * (chain_len * vol.sectors_per_cluster) {
        chain_len - 1
    } else {
        (size / 512) / (vol.sectors_per_cluster as int)
    }
}

/// The slot that a search for `name` finds.
pub open spec fn found_slot(image: Seq<Seq<u8>>, vol: Volume, name: Seq<u8>) -> int {
    choose|i: int| found_at(image, vol, name, i)
}

/// Whether a chain starts at `start`.
pub open spec fn has_chain(image: Seq<Seq<u8>>, vol: Volume, start: int) -> bool {
    exists|chain: Seq<u32>| is_chain(image, vol, start, chain)
}

/// The chain that starts at `start`.
pub open spec fn chain_from(image: Seq<Seq<u8>>, vol: Volume, start: int) -> Seq<u32> {
    choose|chain: Seq<u32>| is_chain(image, vol, start, chain)
}

/// Whether a slot records an empty file that has no cluster yet.
pub open spec fn unallocated(slot: Seq<u8>) -> bool {
    slot_first_cluster(slot) == 0 && slot_size(slot) == 0
}

/// Whether the directory holds the file and the file can be read: it is
/// empty and has no cluster yet, or its chain is sound and holds as many
/// bytes as the directory records.
pub open spec fn readable(image: Seq<Seq<u8>>, vol: Volume, name: Seq<u8>) -> bool {
    let slot = slot_bytes(image, vol, found_slot(image, vol, name));
    &&& !absent(image, vol, name)
    &&& unallocated(slot) || (has_chain(image, vol, slot_first_cluster(slot)) && slot_size(slot)
        <= 512 * chain_sectors(vol, chain_from(image, vol, slot_first_cluster(slot))))
}

/// The size that the directory records for the file `name`.
pub open spec fn stored_size(image: Seq<Seq<u8>>, vol: Volume, name: Seq<u8>) -> int {
    slot_size(slot_bytes(image, vol, found_slot(image, vol, name)))
}

/// What the card stores as the content of the file `name`: the bytes of its
/// chain, as many as the directory records. `None` where the directory
/// holds no such file.
pub open spec fn stored_file(image: Seq<Seq<u8>>, vol: Volume, name: Seq<u8>) -> Option<Seq<u8>> {
    if absent(image, vol, name) {
        None
    } else {
        let slot = slot_bytes(image, vol, found_slot(image, vol, name));
        Some(stream(image, vol, chain_from(image, vol, slot_first_cluster(slot)), slot_size(slot)))
    }
}

impl OpenFileHandle {
    /// The handle belongs to the card's sectors: the directory finds the
    /// file in the handle's slot, the handle's chain is the file's chain,
    /// and the chain holds the handle's size.
    pub open spec fn valid_on(&self, image: Seq<Seq<u8>>, vol: Volume) -> bool {
        &&& self.entry.name.wf()
        &&& found_at(image, vol, self.entry.name@, self.slot as int)
        &&& slot_first_cluster(slot_bytes(image, vol, self.slot as int)) == self.entry.first_cluster
        &&& is_chain(image, vol, self.entry.first_cluster as int, self.chain@)
        &&& self.entry.size <= 512 * chain_sectors(vol, self.chain@)
        &&& self.cursor_cluster == self.chain@[cursor_index(
            vol,
            self.chain@.len() as int,
            self.entry.size as int,
        )]
        &&& self.cursor_offset == self.entry.size - 512 * (cursor_index(
            vol,
            self.chain@.len() as int,
            self.entry.size as int,
        ) * vol.sectors_per_cluster)
    }

    /// The file's bytes, including what was appended through the handle.
    pub open spec fn content(&self, image: Seq<Seq<u8>>, vol: Volume) -> Seq<u8> {
        stream(image, vol, self.chain@, self.entry.size as int)
    }

    /// The size that the directory records for the file.
    pub open spec fn recorded_size(&self, image: Seq<Seq<u8>>, vol: Volume) -> int {
        slot_size(slot_bytes(image, vol, self.slot as int))
    }

    /// The file's size, including what was appended through the handle.
    pub fn size(&self) -> (n: u32)
        ensures
            n == self.entry.size,
    {
        self.entry.size
    }

    /// Number of clusters in the file's chain.
    pub fn cluster_total(&self) -> (n: usize)
        ensures
            n == self.chain@.len(),
    {
        self.chain.clusters.len()
    }
}

/// A new, empty file in the first unused slot, with the lowest free cluster
/// as its first, recorded with the time `now`.
pub open spec fn created(
    before: Seq<Seq<u8>>,
    after: Seq<Seq<u8>>,
    vol: Volume,
    name: Seq<u8>,
    now: Timestamp,
    handle: OpenFileHandle,
) -> bool {
    &&& free_slot_at(before, vol, handle.slot as int)
    &&& handle.chain@ == seq![handle.entry.first_cluster]
    &&& lowest_free(before, vol, handle.chain@)
    &&& handle.entry.size == 0
    &&& handle.entry.modified == now
    &&& after == with_slot(
        with_fat_entry(before, vol, handle.entry.first_cluster as int, END_OF_CHAIN as int),
        vol,
        handle.slot as int,
        fresh_slot(name, handle.entry.first_cluster as int, now),
    )
}

/// An empty file that had no cluster, given the lowest free cluster as its
/// first.
pub open spec fn adopted(
    before: Seq<Seq<u8>>,
    after: Seq<Seq<u8>>,
    vol: Volume,
    name: Seq<u8>,
    handle: OpenFileHandle,
) -> bool {
    &&& handle.slot == found_slot(before, vol, name)
    &&& handle.chain@ == seq![handle.entry.first_cluster]
    &&& lowest_free(before, vol, handle.chain@)
    &&& describes(handle.entry, slot_bytes(after, vol, handle.slot as int))
    &&& handle.entry.size == 0
    &&& after == with_slot(
        with_fat_entry(before, vol, handle.entry.first_cluster as int, END_OF_CHAIN as int),
        vol,
        handle.slot as int,
        adopted_slot(
            slot_bytes(before, vol, handle.slot as int),
            handle.entry.first_cluster as int,
        ),
    )
}

/// What `open_named` returns on success. A file that the directory holds is
/// opened as it is, and no sector changes, unless it is empty and has no
/// cluster yet: then it gets the lowest free cluster. A file that the
/// directory lacks is created empty.
pub open spec fn opened(
    before: Seq<Seq<u8>>,
    after: Seq<Seq<u8>>,
    vol: Volume,
    name: Seq<u8>,
    now: Timestamp,
    handle: OpenFileHandle,
) -> bool {
    &&& handle.valid_on(after, vol)
    &&& handle.entry.name@ == name
    &&& if absent(before, vol, name) {
        created(before, after, vol, name, now, handle)
    } else {
        &&& handle.slot == found_slot(before, vol, name)
        &&& handle.entry.size == stored_size(before, vol, name)
        &&& Some(handle.content(after, vol)) == stored_file(before, vol, name)
        &&& if unallocated(slot_bytes(before, vol, found_slot(before, vol, name))) {
            adopted(before, after, vol, name, handle)
        } else {
            &&& after == before
            &&& describes(handle.entry, slot_bytes(before, vol, handle.slot as int))
        }
    }
}

/// When opening or reading the file `name` may fail with `e`. Only a
/// transport error can come on any card.
pub open spec fn open_refused(image: Seq<Seq<u8>>, vol: Volume, name: Seq<u8>, e: FsError) -> bool {
    let slot = slot_bytes(image, vol, found_slot(image, vol, name));
    match e {
        FsError::Transport(_) => true,
        FsError::Volume(VolumeError::CorruptChain) => !absent(image, vol, name) && !unallocated(
            slot,
        ) && !has_chain(image, vol, slot_first_cluster(slot)),
        FsError::Volume(VolumeError::BadLength) => !absent(image, vol, name) && !unallocated(slot)
            && has_chain(image, vol, slot_first_cluster(slot)) && slot_size(slot) > 512
            * chain_sectors(vol, chain_from(image, vol, slot_first_cluster(slot))),
        FsError::Capacity(CapacityError::DirectoryFull) => absent(image, vol, name)
            && directory_full(image, vol),
        FsError::Capacity(CapacityError::NoFreeCluster) => free_count(image, vol) == 0 && (if absent(
            image,
            vol,
            name,
        ) {
            !directory_full(image, vol)
        } else {
            unallocated(slot)
        }),
        _ => false,
    }
}

/// What `close` leaves on the card: the file's slot with the handle's size
/// and the time `now`, and every other byte as it was.
pub open spec fn closed(
    before: Seq<Seq<u8>>,
    after: Seq<Seq<u8>>,
    vol: Volume,
    handle: OpenFileHandle,
    now: Timestamp,
) -> bool {
    after == with_slot(
        before,
        vol,
        handle.slot as int,
        updated_slot(slot_bytes(before, vol, handle.slot as int), handle.entry.size as int, now),
    )
}

/// The slot found for a name is the one that `found_slot` names.
pub proof fn lemma_found_slot(image: Seq<Seq<u8>>, vol: Volume, name: Seq<u8>, index: int)
    requires
        found_at(image, vol, name, index),
    ensures
        !absent(image, vol, name),
        found_slot(image, vol, name) == index,
{
    lemma_found_unique(image, vol, name, index, found_slot(image, vol, name));
}

/// A chain from a start cluster is the one that `chain_from` names.
pub proof fn lemma_chain_from(image: Seq<Seq<u8>>, vol: Volume, start: int, chain: Seq<u32>)
    requires
        vol.wf(),
        is_chain(image, vol, start, chain),
    ensures
        has_chain(image, vol, start),
        chain_from(image, vol, start) == chain,
{
    lemma_chain_unique(image, vol, start, chain, chain_from(image, vol, start));
}

/// A file with a valid handle reads, from the card alone, as the bytes of
/// the handle's chain up to the recorded size.
pub proof fn lemma_stored_file(image: Seq<Seq<u8>>, vol: Volume, handle: OpenFileHandle)
    requires
        vol.wf(),
        handle.valid_on(image, vol),
    ensures
        stored_file(image, vol, handle.entry.name@) == Some(
            stream(image, vol, handle.chain@, handle.recorded_size(image, vol)),
        ),
{
    lemma_found_slot(image, vol, handle.entry.name@, handle.slot as int);
    lemma_chain_from(image, vol, handle.entry.first_cluster as int, handle.chain@);
}

/// After a close the card stores, under the file's name, the handle's
/// content and size.
pub proof fn lemma_closed_file(
    before: Seq<Seq<u8>>,
    after: Seq<Seq<u8>>,
    vol: Volume,
    handle: OpenFileHandle,
    now: Timestamp,
)
    requires
        vol.lies_on(before),
        handle.valid_on(before, vol),
        closed(before, after, vol, handle, now),
    ensures
        vol.lies_on(after),
        after.len() == before.len(),
        handle.valid_on(after, vol),
        handle.recorded_size(after, vol) == handle.entry.size,
        stored_size(after, vol, handle.entry.name@) == handle.entry.size,
        handle.content(after, vol) == handle.content(before, vol),
        stored_file(after, vol, handle.entry.name@) == Some(handle.content(before, vol)),
        readable(after, vol, handle.entry.name@),
{
    let name = handle.entry.name@;
    let index = handle.slot as int;
    let was = slot_bytes(before, vol, index);
    let now_is = updated_slot(was, handle.entry.size as int, now);
    lemma_slot_sector_in_root(vol, index);
    lemma_updated_slot(was, handle.entry.size as int, now);
    lemma_with_slot(before, vol, index, now_is);
    lemma_with_slot_found(before, vol, index, now_is, name, index);
    assert(same_table(before, after, vol));
    assert(same_data(before, after, vol));
    lemma_same_table_chain(before, after, vol, handle.entry.first_cluster as int, handle.chain@);
    lemma_same_data_stream(before, after, vol, handle.chain@, handle.entry.size as int);
    lemma_stored_file(after, vol, handle);
    lemma_found_slot(after, vol, name, index);
    lemma_chain_from(after, vol, handle.entry.first_cluster as int, handle.chain@);
}

/// The cluster that takes byte `size` of a chain, and how far into that
/// cluster the byte lies.
pub(crate) fn place_cursor(vol: &Volume, chain: &Vec<u32>, size: u32) -> (at: (u32, u32))
    requires
        vol.wf(),
        1 <= chain@.len() <= vol.cluster_count,
        size <= 512 * chain_sectors(*vol, chain@),
    ensures
        at.0 == chain@[cursor_index(*vol, chain@.len() as int, size as int)],
        at.1 == size - 512 * (cursor_index(*vol, chain@.len() as int, size as int)
            * vol.sectors_per_cluster),
{
    let per = vol.sectors_per_cluster as u32;
    let count = chain.len() as u32;
    proof {
        lemma_sectors_grow(count as int, vol.cluster_count as int, per as int);
        lemma_sectors_grow(count as int - 1, count as int, per as int);
    }
    let sectors: u32 = count * per;
    let q: u32 = size / 512;
    if q >= sectors {
        let index = count - 1;
        (chain[index as usize], size - 512 * (index * per))
    } else {
        proof {
            lemma_split(q as int, per as int, count as int);
        }
        let index = q / per;
        (chain[index as usize], size - 512 * (index * per))
    }
}

/// Marks the lowest free cluster as the last of a chain.
fn claim_cluster<B: CardBus>(transport: &mut BlockTransport<B>, volume: &Volume) -> (r: Result<
    u32,
    FsError,
>)
    requires
        old(transport).wf(),
        volume.lies_on(old(transport).image()),
    ensures
        final(transport).wf(),
        r matches Ok(cluster) ==> in_volume(*volume, cluster as int) && lowest_free(
            old(transport).image(),
            *volume,
            seq![cluster],
        ) && final(transport).image() == with_fat_entry(
            old(transport).image(),
            *volume,
            cluster as int,
            END_OF_CHAIN as int,
        ),
        r matches Err(e) ==> final(transport).image() == old(transport).image() && (e is Transport
            || (e == FsError::Capacity(CapacityError::NoFreeCluster) && free_count(
            old(transport).image(),
            *volume,
        ) == 0)),
        r matches Err(FsError::Transport(_)) ==> !old(transport).reliable(),
        old(transport).reliable() ==> final(transport).reliable(),
{
    let clusters = match find_free(transport, volume, 1) {
        Err(e) => {
            return Err(e);
        },
        Ok(clusters) => clusters,
    };
    let first = clusters[0];
    assert(in_volume(*volume, clusters@[0] as int));
    assert(clusters@ =~= seq![first]);
    match write_entry(transport, volume, first, END_OF_CHAIN) {
        Err(e) => Err(FsError::Transport(e)),
        Ok(()) => Ok(first),
    }
}

/// A handle on a one-cluster chain that was just claimed is valid once the
/// file's slot names the cluster.
proof fn lemma_claimed_valid(
    before: Seq<Seq<u8>>,
    after: Seq<Seq<u8>>,
    vol: Volume,
    handle: OpenFileHandle,
    bytes: Seq<u8>,
)
    requires
        vol.lies_on(before),
        in_volume(vol, handle.entry.first_cluster as int),
        handle.slot < vol.root_entries,
        bytes.len() == 32,
        after == with_slot(
            with_fat_entry(before, vol, handle.entry.first_cluster as int, END_OF_CHAIN as int),
            vol,
            handle.slot as int,
            bytes,
        ),
        handle.entry.name.wf(),
        found_at(after, vol, handle.entry.name@, handle.slot as int),
        slot_first_cluster(bytes) == handle.entry.first_cluster,
        handle.chain@ == seq![handle.entry.first_cluster],
        handle.entry.size == 0,
        handle.cursor_cluster == handle.entry.first_cluster,
        handle.cursor_offset == 0,
    ensures
        vol.lies_on(after),
        after.len() == before.len(),
        handle.valid_on(after, vol),
        handle.content(after, vol) == Seq::<u8>::empty(),
{
    let first = handle.entry.first_cluster as int;
    let claimed = with_fat_entry(before, vol, first, END_OF_CHAIN as int);
    lemma_with_fat_entry(before, vol, first, END_OF_CHAIN as int);
    lemma_fat_sector_in_table(vol, first);
    lemma_with_slot(claimed, vol, handle.slot as int, bytes);
    lemma_slot_sector_in_root(vol, handle.slot as int);
    assert(is_chain(after, vol, first, handle.chain@));
    assert(1 * vol.sectors_per_cluster == vol.sectors_per_cluster as int);
    assert(cursor_index(vol, 1, 0) == 0) by {
        lemma_split(0, vol.sectors_per_cluster as int, 1);
    }
    assert(0 * vol.sectors_per_cluster == 0);
    assert(handle.content(after, vol) =~= Seq::<u8>::empty());
}

/// Claiming a free cluster loses nothing.
proof fn lemma_claim_loses_nothing(before: Seq<Seq<u8>>, vol: Volume, cluster: int)
    requires
        vol.lies_on(before),
        in_volume(vol, cluster),
        is_free(before, vol, cluster),
    ensures
        nothing_lost(before, with_fat_entry(before, vol, cluster, END_OF_CHAIN as int), vol),
{
    lemma_with_fat_entry(before, vol, cluster, END_OF_CHAIN as int);
    lemma_fat_sector_in_table(vol, cluster);
}

/// Creates the file `name`, empty, in the first unused slot.
fn create<B: CardBus>(
    volume: &Volume,
    transport: &mut BlockTransport<B>,
    name: &ShortName,
    now: &Timestamp,
) -> (r: Result<OpenFileHandle, FsError>)
    requires
        old(transport).wf(),
        volume.lies_on(old(transport).image()),
        absent(old(transport).image(), *volume, name@),
        name.wf(),
        now.wf(),
    ensures
        final(transport).wf(),
        volume.lies_on(final(transport).image()),
        final(transport).image().len() == old(transport).image().len(),
        r matches Ok(handle) ==> opened(
            old(transport).image(),
            final(transport).image(),
            *volume,
            name@,
            *now,
            handle,
        ),
        r matches Err(e) ==> open_refused(old(transport).image(), *volume, name@, e)
            && nothing_lost(old(transport).image(), final(transport).image(), *volume),
        r matches Err(FsError::Transport(_)) ==> !old(transport).reliable(),
        old(transport).reliable() ==> final(transport).reliable(),
{
    let ghost before = transport.image();
    let slot = match find_free_slot(transport, volume) {
        Err(e) => {
            return Err(FsError::Transport(e));
        },
        Ok(None) => {
            return Err(FsError::Capacity(CapacityError::DirectoryFull));
        },
        Ok(Some(slot)) => slot,
    };
    assert(!directory_full(before, *volume)) by {
        assert(slot_is_free(slot_bytes(before, *volume, slot as int)));
    }
    let first = match claim_cluster(transport, volume) {
        Err(e) => {
            return Err(e);
        },
        Ok(first) => first,
    };
    let ghost claimed = transport.image();
    proof {
        assert(seq![first][0] == first);
        lemma_claim_loses_nothing(before, *volume, first as int);
        lemma_with_fat_entry(before, *volume, first as int, END_OF_CHAIN as int);
    }
    match write_new_entry(transport, volume, slot, name, first as u16, now) {
        Err(e) => {
            return Err(FsError::Transport(e));
        },
        Ok(()) => {},
    }
    let ghost after = transport.image();
    let entry = DirectoryEntry { name: *name, size: 0, first_cluster: first, modified: *now };
    let mut clusters: Vec<u32> = Vec::new();
    clusters.push(first);
    let handle = OpenFileHandle {
        slot,
        entry,
        chain: ClusterChain { clusters },
        cursor_cluster: first,
        cursor_offset: 0,
    };
    proof {
        let fresh = fresh_slot(name@, first as int, *now);
        lemma_with_slot(claimed, *volume, slot as int, fresh);
        lemma_slot_sector_in_root(*volume, slot as int);
        lemma_fat_sector_in_table(*volume, first as int);
        assert(fresh.subrange(0, 11) =~= name@);
        assert(slot_names(fresh, name@));
        assert forall|j: int| 0 <= j < slot implies !slot_is_end(
            #[trigger] slot_bytes(after, *volume, j),
        ) && !slot_names(slot_bytes(after, *volume, j), name@) by {
            lemma_slot_sector_in_root(*volume, j);
            assert(slot_bytes(claimed, *volume, j) == slot_bytes(before, *volume, j));
            assert(!slot_is_free(slot_bytes(before, *volume, j)));
            assert forall|k: int| 0 <= k < slot implies !slot_is_end(
                #[trigger] slot_bytes(before, *volume, k),
            ) by {
                assert(!slot_is_free(slot_bytes(before, *volume, k)));
            }
            lemma_absent_before(before, *volume, name@, slot as int, j);
        }
        assert(found_at(after, *volume, name@, slot as int));
        assert(handle.chain@ =~= seq![first]);
        lemma_claimed_valid(before, after, *volume, handle, fresh);
    }
    Ok(handle)
}

/// Gives an empty file that has no cluster its first.
fn adopt<B: CardBus>(
    volume: &Volume,
    transport: &mut BlockTransport<B>,
    slot: u32,
    entry: DirectoryEntry,
) -> (r: Result<OpenFileHandle, FsError>)
    requires
        old(transport).wf(),
        volume.lies_on(old(transport).image()),
        entry.name.wf(),
        found_at(old(transport).image(), *volume, entry.name@, slot as int),
        describes(entry, slot_bytes(old(transport).image(), *volume, slot as int)),
        unallocated(slot_bytes(old(transport).image(), *volume, slot as int)),
    ensures
        final(transport).wf(),
        volume.lies_on(final(transport).image()),
        final(transport).image().len() == old(transport).image().len(),
        r matches Ok(handle) ==> handle.valid_on(final(transport).image(), *volume)
            && handle.entry.name == entry.name && handle.slot == slot && handle.content(
            final(transport).image(),
            *volume,
        ) == Seq::<u8>::empty() && adopted(
            old(transport).image(),
            final(transport).image(),
            *volume,
            entry.name@,
            handle,
        ),
        r matches Err(e) ==> nothing_lost(
            old(transport).image(),
            final(transport).image(),
            *volume,
        ) && (e is Transport || (e == FsError::Capacity(CapacityError::NoFreeCluster)
            && free_count(old(transport).image(), *volume) == 0)),
        r matches Err(FsError::Transport(_)) ==> !old(transport).reliable(),
        old(transport).reliable() ==> final(transport).reliable(),
{
    let ghost before = transport.image();
    let ghost was = slot_bytes(before, *volume, slot as int);
    let first = match claim_cluster(transport, volume) {
        Err(e) => {
            return Err(e);
        },
        Ok(first) => first,
    };
    let ghost claimed = transport.image();
    proof {
        assert(seq![first][0] == first);
        lemma_claim_loses_nothing(before, *volume, first as int);
        lemma_with_fat_entry(before, *volume, first as int, END_OF_CHAIN as int);
        lemma_fat_sector_in_table(*volume, first as int);
        lemma_slot_sector_in_root(*volume, slot as int);
        assert(slot_bytes(claimed, *volume, slot as int) == was);
    }
    match set_first_cluster(transport, volume, slot, first as u16) {
        Err(e) => {
            return Err(FsError::Transport(e));
        },
        Ok(()) => {},
    }
    let ghost after = transport.image();
    let mut clusters: Vec<u32> = Vec::new();
    clusters.push(first);
    let handle = OpenFileHandle {
        slot,
        entry: DirectoryEntry {
            name: entry.name,
            size: 0,
            first_cluster: first,
            modified: entry.modified,
        },
        chain: ClusterChain { clusters },
        cursor_cluster: first,
        cursor_offset: 0,
    };
    proof {
        let now_is = adopted_slot(was, first as int);
        lemma_adopted_slot(was, first as int);
        lemma_found_slot(before, *volume, entry.name@, slot as int);
        assert(found_at(claimed, *volume, entry.name@, slot as int)) by {
            assert(same_root(before, claimed, *volume));
            lemma_same_root_found(before, claimed, *volume, entry.name@, slot as int);
        }
        lemma_with_slot_found(claimed, *volume, slot as int, now_is, entry.name@, slot as int);
        lemma_with_slot(claimed, *volume, slot as int, now_is);
        assert(handle.chain@ =~= seq![first]);
        lemma_claimed_valid(before, after, *volume, handle, now_is);
    }
    Ok(handle)
}

/// Opens the file that the directory records in `slot` as `entry`.
fn open_found<B: CardBus>(
    volume: &Volume,
    transport: &mut BlockTransport<B>,
    slot: u32,
    entry: DirectoryEntry,
) -> (r: Result<OpenFileHandle, FsError>)
    requires
        old(transport).wf(),
        volume.lies_on(old(transport).image()),
        entry.name.wf(),
        found_at(old(transport).image(), *volume, entry.name@, slot as int),
        describes(entry, slot_bytes(old(transport).image(), *volume, slot as int)),
        !unallocated(slot_bytes(old(transport).image(), *volume, slot as int)),
    ensures
        final(transport).wf(),
        final(transport).image() == old(transport).image(),
        r matches Ok(handle) ==> handle.valid_on(old(transport).image(), *volume) && handle.entry
            == entry && handle.slot == slot && Some(
            handle.content(old(transport).image(), *volume),
        ) == stored_file(old(transport).image(), *volume, entry.name@),
        r matches Err(e) ==> open_refused(old(transport).image(), *volume, entry.name@, e) && !(e
            is Capacity),
        r matches Err(FsError::Transport(_)) ==> !old(transport).reliable(),
        old(transport).reliable() ==> final(transport).reliable(),
{
    let ghost before = transport.image();
    proof {
        lemma_found_slot(before, *volume, entry.name@, slot as int);
    }
    let clusters = match walk_chain(transport, volume, entry.first_cluster) {
        Err(e) => {
            proof {
                if e == FsError::Volume(VolumeError::CorruptChain) {
                    assert(!has_chain(before, *volume, entry.first_cluster as int));
                }
            }
            return Err(e);
        },
        Ok(clusters) => clusters,
    };
    proof {
        lemma_chain_from(before, *volume, entry.first_cluster as int, clusters@);
        lemma_chain_length(before, *volume, entry.first_cluster as int, clusters@);
        lemma_sectors_grow(
            clusters@.len() as int,
            volume.cluster_count as int,
            volume.sectors_per_cluster as int,
        );
    }
    let held: u64 = 512 * ((clusters.len() as u64) * (volume.sectors_per_cluster as u64));
    if entry.size as u64 > held {
        return Err(FsError::Volume(VolumeError::BadLength));
    }
    let at = place_cursor(volume, &clusters, entry.size);
    let handle = OpenFileHandle {
        slot,
        entry,
        chain: ClusterChain { clusters },
        cursor_cluster: at.0,
        cursor_offset: at.1,
    };
    proof {
        lemma_stored_file(before, *volume, handle);
    }
    Ok(handle)
}

/// Opens the file `name` of the root directory for appending, creating it
/// where the directory has none.
///
/// An existing file is opened as it stands, with its chain walked to the
/// end; no sector changes. An existing file that is empty and has no
/// cluster yet gets the lowest free cluster. A new file gets the first
/// unused slot and the lowest free cluster, and is recorded with size zero
/// and the time `now`. A failure loses nothing that was stored: at most one
/// free cluster has been claimed.
pub fn open_named<B: CardBus>(
    volume: &Volume,
    transport: &mut BlockTransport<B>,
    name: &ShortName,
    now: &Timestamp,
) -> (r: Result<OpenFileHandle, FsError>)
    requires
        old(transport).wf(),
        volume.lies_on(old(transport).image()),
        name.wf(),
        now.wf(),
    ensures
        final(transport).wf(),
        volume.lies_on(final(transport).image()),
        final(transport).image().len() == old(transport).image().len(),
        r matches Ok(handle) ==> opened(
            old(transport).image(),
            final(transport).image(),
            *volume,
            name@,
            *now,
            handle,
        ),
        r matches Err(e) ==> open_refused(old(transport).image(), *volume, name@, e)
            && nothing_lost(old(transport).image(), final(transport).image(), *volume),
        r matches Err(FsError::Transport(_)) ==> !old(transport).reliable(),
        old(transport).reliable() ==> final(transport).reliable(),
{
    let ghost before = transport.image();
    let hit = match find_entry(transport, volume, name) {
        Err(e) => {
            return Err(FsError::Transport(e));
        },
        Ok(hit) => hit,
    };
    match hit {
        None => create(volume, transport, name, now),
        Some((slot, entry)) => {
            proof {
                lemma_found_slot(before, *volume, name@, slot as int);
            }
            if entry.first_cluster == 0 && entry.size == 0 {
                proof {
                    assert(stored_file(before, *volume, name@) == Some(Seq::<u8>::empty())) by {
                        let from = slot_first_cluster(slot_bytes(before, *volume, slot as int));
                        assert(stream(before, *volume, chain_from(before, *volume, from), 0)
                            =~= Seq::<u8>::empty());
                    }
                }
                adopt(volume, transport, slot, entry)
            } else {
                open_found(volume, transport, slot, entry)
            }
        },
    }
}

/// Opens the file called `name`, as [`open_named`] does.
///
/// Fails with `BadName` where the name has no stored form.
pub fn open_for_append<B: CardBus>(
    volume: &Volume,
    transport: &mut BlockTransport<B>,
    name: &str,
    now: &Timestamp,
) -> (r: Result<OpenFileHandle, FsError>)
    requires
        old(transport).wf(),
        volume.lies_on(old(transport).image()),
        now.wf(),
    ensures
        final(transport).wf(),
        volume.lies_on(final(transport).image()),
        final(transport).image().len() == old(transport).image().len(),
        match stored_name(name_parts_of(name@)) {
            None => r == Err::<OpenFileHandle, FsError>(FsError::Volume(VolumeError::BadName))
                && final(transport).image() == old(transport).image(),
            Some(stored) => {
                &&& r matches Ok(handle) ==> opened(
                    old(transport).image(),
                    final(transport).image(),
                    *volume,
                    stored,
                    *now,
                    handle,
                )
                &&& r matches Err(e) ==> open_refused(old(transport).image(), *volume, stored, e)
                    && nothing_lost(old(transport).image(), final(transport).image(), *volume)
            },
        },
        r matches Err(FsError::Transport(_)) ==> !old(transport).reliable(),
        old(transport).reliable() ==> final(transport).reliable(),
{
    match ShortName::parse(name) {
        None => Err(FsError::Volume(VolumeError::BadName)),
        Some(stored) => open_named(volume, transport, &stored, now),
    }
}

/// Closes the file: records the handle's size and the time `now` in the
/// file's directory slot.
///
/// On success the card stores, under the file's name, everything that was
/// appended through the handle. On failure no sector has changed.
pub fn close<B: CardBus>(
    handle: OpenFileHandle,
    volume: &Volume,
    transport: &mut BlockTransport<B>,
    now: &Timestamp,
) -> (r: Result<(), FsError>)
    requires
        old(transport).wf(),
        volume.lies_on(old(transport).image()),
        handle.valid_on(old(transport).image(), *volume),
        now.wf(),
    ensures
        final(transport).wf(),
        volume.lies_on(final(transport).image()),
        final(transport).image().len() == old(transport).image().len(),
        r is Ok ==> {
            &&& closed(old(transport).image(), final(transport).image(), *volume, handle, *now)
            &&& stored_file(final(transport).image(), *volume, handle.entry.name@) == Some(
                handle.content(old(transport).image(), *volume),
            )
            &&& readable(final(transport).image(), *volume, handle.entry.name@)
            &&& stored_size(final(transport).image(), *volume, handle.entry.name@)
                == handle.entry.size
        },
        r matches Err(e) ==> e is Transport && !old(transport).reliable() && final(transport).image() == old(transport).image(),
        old(transport).reliable() ==> r is Ok && final(transport).reliable(),
{
    let ghost before = transport.image();
    match update_entry(transport, volume, handle.slot, handle.entry.size, now) {
        Err(e) => Err(FsError::Transport(e)),
        Ok(()) => {
            proof {
                lemma_closed_file(before, transport.image(), *volume, handle, *now);
            }
            Ok(())
        },
    }
}

/// Reads the whole file `name`, as the directory records it.
///
/// Gives `None` where the directory holds no such file. Changes no sector.
pub fn read_file<B: CardBus>(volume: &Volume, transport: &mut BlockTransport<B>, name: &ShortName) -> (r:
    Result<Option<Vec<u8>>, FsError>)
    requires
        old(transport).wf(),
        volume.lies_on(old(transport).image()),
    ensures
        final(transport).wf(),
        final(transport).image() == old(transport).image(),
        r matches Ok(Some(bytes)) ==> readable(old(transport).image(), *volume, name@) && Some(
            bytes@,
        ) == stored_file(old(transport).image(), *volume, name@),
        r matches Ok(None) ==> absent(old(transport).image(), *volume, name@),
        r matches Err(e) ==> open_refused(old(transport).image(), *volume, name@, e) && !(e is Capacity),
        r matches Err(FsError::Transport(_)) ==> !old(transport).reliable(),
        old(transport).reliable() ==> final(transport).reliable(),
{
    let ghost image = transport.image();
    let hit = match find_entry(transport, volume, name) {
        Err(e) => {
            return Err(FsError::Transport(e));
        },
        Ok(hit) => hit,
    };
    match hit {
        None => Ok(None),
        Some((slot, entry)) => {
            proof {
                lemma_found_slot(image, *volume, name@, slot as int);
            }
            if entry.first_cluster == 0 && entry.size == 0 {
                let bytes: Vec<u8> = Vec::new();
                proof {
                    let from = slot_first_cluster(slot_bytes(image, *volume, slot as int));
                    assert(stream(image, *volume, chain_from(image, *volume, from), 0) =~= bytes@);
                }
                return Ok(Some(bytes));
            }
            let clusters = match walk_chain(transport, volume, entry.first_cluster) {
                Err(e) => {
                    proof {
                        if e == FsError::Volume(VolumeError::CorruptChain) {
                            assert(!has_chain(image, *volume, entry.first_cluster as int));
                        }
                    }
                    return Err(e);
                },
                Ok(clusters) => clusters,
            };
            proof {
                lemma_chain_from(image, *volume, entry.first_cluster as int, clusters@);
                lemma_chain_length(image, *volume, entry.first_cluster as int, clusters@);
                lemma_sectors_grow(
                    clusters@.len() as int,
                    volume.cluster_count as int,
                    volume.sectors_per_cluster as int,
                );
            }
            let held: u64 = 512 * ((clusters.len() as u64) * (volume.sectors_per_cluster as u64));
            if entry.size as u64 > held {
                return Err(FsError::Volume(VolumeError::BadLength));
            }
            match read_stream(transport, volume, &clusters, entry.size) {
                Err(e) => Err(FsError::Transport(e)),
                Ok(bytes) => Ok(Some(bytes)),
            }
        },
    }
}

} // verus!
