//! Appending to an open file.
//!
//! The data goes behind the file's present end: into the rest of the
//! chain's clusters and, where they do not suffice, into the lowest free
//! clusters. Those are linked to the chain last, by one write, so that a
//! failure at any point leaves the file as it was.
use vstd::prelude::*;
use crate::bus::CardBus;
use crate::data::{
    chain_sectors,
    cluster_sector,
    clusters_for,
    clusters_in_volume,
    clusters_needed,
    file_sector,
    is_file_sector,
    lemma_cluster_sector_bounds,
    lemma_clusters_for,
    lemma_file_sector_bounds,
    lemma_file_sector_prefix,
    lemma_foreign_cluster_sector,
    lemma_sectors_grow,
    stream_byte,
    write_stream,
};
use crate::dir::{lemma_same_root_found, lemma_same_root_slot, same_root};
use crate::error::{CapacityError, FsError, TransportError};
use crate::fat::{
    extend_chain,
    fat_entry,
    fat_sector,
    find_free,
    free_count,
    in_volume,
    is_chain,
    is_free,
    lemma_chain_distinct,
    lemma_chain_length,
    lemma_fat_sector_in_table,
    lemma_lowest_free_rising,
    lemma_same_table_chain,
    lowest_free,
    same_table,
    END_OF_CHAIN,
};
use crate::file::{cursor_index, place_cursor, ClusterChain, OpenFileHandle};
use crate::transport::BlockTransport;
use crate::volume::Volume;

verus! {

/// What `append` returns on success. The handle's size has grown by the
/// data's length, and its content is the former content followed by the
/// data. The chain has exactly as many clusters as the new size needs,
/// unless it had more; the added ones are the lowest free clusters. The
/// root directory, and with it the recorded size, is as it was.
pub open spec fn appended(
    before: Seq<Seq<u8>>,
    after: Seq<Seq<u8>>,
    vol: Volume,
    was: OpenFileHandle,
    data: Seq<u8>,
    now_is: OpenFileHandle,
) -> bool {
    let held = was.chain@.len() as int;
    &&& now_is.valid_on(after, vol)
    &&& now_is.slot == was.slot
    &&& now_is.entry.name == was.entry.name
    &&& now_is.entry.first_cluster == was.entry.first_cluster
    &&& now_is.entry.modified == was.entry.modified
    &&& now_is.entry.size == was.entry.size + data.len()
    &&& now_is.content(after, vol) == was.content(before, vol) + data
    &&& now_is.chain@.len() == (if clusters_for(vol, now_is.entry.size as int) > held {
        clusters_for(vol, now_is.entry.size as int)
    } else {
        held
    })
    &&& now_is.chain@.subrange(0, held) == was.chain@
    &&& lowest_free(before, vol, now_is.chain@.subrange(held, now_is.chain@.len() as int))
    &&& now_is.chain@.no_duplicates()
    &&& same_root(before, after, vol)
    &&& after.len() == before.len()
}

/// What a failed `append` leaves: the handle still belongs to the card, the
/// file's content is what it was, and the root directory, and with it the
/// recorded size, is as it was.
pub open spec fn append_undone(
    before: Seq<Seq<u8>>,
    after: Seq<Seq<u8>>,
    vol: Volume,
    handle: OpenFileHandle,
) -> bool {
    &&& handle.valid_on(after, vol)
    &&& handle.content(after, vol) == handle.content(before, vol)
    &&& handle.recorded_size(after, vol) == handle.recorded_size(before, vol)
    &&& same_root(before, after, vol)
    &&& after.len() == before.len()
}

/// When `append` may fail with `e`. Only a transport error can come on any
/// card.
pub open spec fn append_refused(
    image: Seq<Seq<u8>>,
    vol: Volume,
    handle: OpenFileHandle,
    data: Seq<u8>,
    e: FsError,
) -> bool {
    match e {
        FsError::Transport(_) => true,
        FsError::Capacity(CapacityError::FileTooLarge) => handle.entry.size + data.len()
            > u32::MAX,
        FsError::Capacity(CapacityError::NoFreeCluster) => handle.entry.size + data.len()
            <= u32::MAX && free_count(image, vol) < clusters_for(
            vol,
            handle.entry.size + data.len(),
        ) - handle.chain@.len(),
        _ => false,
    }
}

/// A chain followed by free clusters lists clusters of the volume, none of
/// them twice, and none of the free ones is the chain's last.
proof fn lemma_joined_chain(
    image: Seq<Seq<u8>>,
    vol: Volume,
    start: int,
    chain: Seq<u32>,
    fresh: Seq<u32>,
)
    requires
        vol.wf(),
        is_chain(image, vol, start, chain),
        lowest_free(image, vol, fresh),
    ensures
        clusters_in_volume(vol, chain + fresh),
        (chain + fresh).no_duplicates(),
        fresh.no_duplicates(),
        forall|i: int| 0 <= i < fresh.len() ==> in_volume(vol, #[trigger] fresh[i] as int),
        forall|i: int| 0 <= i < fresh.len() ==> #[trigger] fresh[i] != chain[chain.len() - 1],
        forall|i: int, j: int|
            0 <= i < chain.len() && 0 <= j < fresh.len() ==> #[trigger] chain[i] != #[trigger] fresh[j],
{
    let both = chain + fresh;
    lemma_chain_distinct(image, vol, start, chain);
    assert forall|i: int| 0 <= i < chain.len() implies !is_free(
        image,
        vol,
        #[trigger] chain[i] as int,
    ) by {
        assert(in_volume(vol, chain[i] as int));
        if i < chain.len() - 1 {
            assert(in_volume(vol, chain[i + 1] as int));
        }
    }
    assert forall|i: int, j: int| 0 <= i < chain.len() && 0 <= j < fresh.len() implies #[trigger] chain[i]
        != #[trigger] fresh[j] by {
        assert(!is_free(image, vol, chain[i] as int));
        assert(is_free(image, vol, fresh[j] as int));
    }
    assert forall|i: int, j: int| 0 <= i < fresh.len() && 0 <= j < fresh.len() && i != j implies fresh[i]
        != fresh[j] by {
        if i < j {
            lemma_lowest_free_rising(image, vol, fresh, i, j);
        } else {
            lemma_lowest_free_rising(image, vol, fresh, j, i);
        }
    }
    assert forall|i: int| 0 <= i < both.len() implies in_volume(vol, #[trigger] both[i] as int) by {
        if i < chain.len() {
            assert(in_volume(vol, chain[i] as int));
        } else {
            assert(in_volume(vol, fresh[i - chain.len()] as int));
        }
    }
    assert forall|i: int, j: int| 0 <= i < both.len() && 0 <= j < both.len() && i != j implies both[i]
        != both[j] by {
        if i < chain.len() && j < chain.len() {
        } else if i >= chain.len() && j >= chain.len() {
            assert(fresh[i - chain.len()] != fresh[j - chain.len()]);
        } else if i < chain.len() {
            assert(chain[i] != fresh[j - chain.len()]);
        } else {
            assert(chain[j] != fresh[i - chain.len()]);
        }
    }
    assert forall|i: int| 0 <= i < fresh.len() implies #[trigger] fresh[i] != chain[chain.len()
        - 1] by {
        assert(chain[chain.len() - 1] != fresh[i]);
    }
}

/// The bytes of a chain are those of any chain that continues it.
proof fn lemma_stream_prefix(
    image: Seq<Seq<u8>>,
    vol: Volume,
    chain: Seq<u32>,
    longer: Seq<u32>,
    p: int,
)
    requires
        vol.wf(),
        chain.len() <= longer.len(),
        forall|i: int| 0 <= i < chain.len() ==> chain[i] == longer[i],
        0 <= p < 512 * chain_sectors(vol, chain),
    ensures
        stream_byte(image, vol, chain, p) == stream_byte(image, vol, longer, p),
{
    lemma_file_sector_prefix(vol, chain, longer, p / 512);
}

/// The change from `before` to `after` keeps the file of `handle`: the
/// root directory and the file's chain are as they were, and the bytes
/// before the handle's size, read along `longer`, stay in place.
pub open spec fn keeps_file(
    before: Seq<Seq<u8>>,
    after: Seq<Seq<u8>>,
    vol: Volume,
    handle: OpenFileHandle,
    longer: Seq<u32>,
) -> bool {
    &&& after.len() == before.len()
    &&& same_root(before, after, vol)
    &&& is_chain(after, vol, handle.entry.first_cluster as int, handle.chain@)
    &&& forall|p: int|
        0 <= p < handle.entry.size ==> #[trigger] stream_byte(after, vol, longer, p)
            == stream_byte(before, vol, longer, p)
}

/// A handle stays valid, and its file stays what it is, across a change
/// that keeps the file.
proof fn lemma_file_kept(
    before: Seq<Seq<u8>>,
    after: Seq<Seq<u8>>,
    vol: Volume,
    handle: OpenFileHandle,
    longer: Seq<u32>,
)
    requires
        vol.lies_on(before),
        handle.valid_on(before, vol),
        handle.chain@.len() <= longer.len(),
        forall|i: int| 0 <= i < handle.chain@.len() ==> handle.chain@[i] == longer[i],
        keeps_file(before, after, vol, handle, longer),
    ensures
        append_undone(before, after, vol, handle),
{
    lemma_same_root_found(before, after, vol, handle.entry.name@, handle.slot as int);
    lemma_same_root_slot(before, after, vol, handle.slot as int);
    assert(handle.content(after, vol) =~= handle.content(before, vol)) by {
        assert forall|p: int| 0 <= p < handle.entry.size implies stream_byte(
            after,
            vol,
            handle.chain@,
            p,
        ) == stream_byte(before, vol, handle.chain@, p) by {
            lemma_stream_prefix(after, vol, handle.chain@, longer, p);
            lemma_stream_prefix(before, vol, handle.chain@, longer, p);
            assert(stream_byte(after, vol, longer, p) == stream_byte(before, vol, longer, p));
        }
    }
}

/// Two changes that keep a file keep it together.
proof fn lemma_keeps_file_twice(
    first: Seq<Seq<u8>>,
    second: Seq<Seq<u8>>,
    third: Seq<Seq<u8>>,
    vol: Volume,
    handle: OpenFileHandle,
    longer: Seq<u32>,
)
    requires
        keeps_file(first, second, vol, handle, longer),
        keeps_file(second, third, vol, handle, longer),
    ensures
        keeps_file(first, third, vol, handle, longer),
{
    assert forall|p: int| 0 <= p < handle.entry.size implies #[trigger] stream_byte(
        third,
        vol,
        longer,
        p,
    ) == stream_byte(first, vol, longer, p) by {
        assert(stream_byte(second, vol, longer, p) == stream_byte(first, vol, longer, p));
    }
}

/// Storing data behind a file's end keeps the file.
proof fn lemma_written_keeps(
    before: Seq<Seq<u8>>,
    stored: Seq<Seq<u8>>,
    vol: Volume,
    handle: OpenFileHandle,
    longer: Seq<u32>,
)
    requires
        vol.lies_on(before),
        handle.valid_on(before, vol),
        stored.len() == before.len(),
        forall|s: int| 0 <= s < vol.data_start ==> #[trigger] stored[s] == before[s],
        forall|p: int|
            0 <= p < handle.entry.size ==> #[trigger] stream_byte(stored, vol, longer, p)
                == stream_byte(before, vol, longer, p),
    ensures
        keeps_file(before, stored, vol, handle, longer),
        same_table(before, stored, vol),
{
    assert(same_table(before, stored, vol));
    lemma_same_table_chain(
        before,
        stored,
        vol,
        handle.entry.first_cluster as int,
        handle.chain@,
    );
}

/// A failed extension of a file's chain keeps the file.
proof fn lemma_unlinked_keeps(
    stored: Seq<Seq<u8>>,
    linked: Seq<Seq<u8>>,
    vol: Volume,
    handle: OpenFileHandle,
    fresh: Seq<u32>,
    longer: Seq<u32>,
)
    requires
        vol.lies_on(stored),
        linked.len() == stored.len(),
        is_chain(stored, vol, handle.entry.first_cluster as int, handle.chain@),
        handle.chain@.no_duplicates(),
        clusters_in_volume(vol, longer),
        handle.entry.size <= 512 * chain_sectors(vol, longer),
        forall|i: int, j: int|
            0 <= i < handle.chain@.len() && 0 <= j < fresh.len() ==> #[trigger] handle.chain@[i]
                != #[trigger] fresh[j],
        forall|s: int|
            0 <= s < stored.len() && !(vol.fat_start <= s < vol.fat_start + vol.fat_sectors)
                ==> #[trigger] linked[s] == stored[s],
        forall|c: int|
            in_volume(vol, c) && c != handle.chain@[handle.chain@.len() - 1] && (forall|i: int|
                0 <= i < fresh.len() ==> #[trigger] fresh[i] != c) ==> #[trigger] fat_entry(
                linked,
                vol,
                c,
            ) == fat_entry(stored, vol, c),
        fat_entry(linked, vol, handle.chain@[handle.chain@.len() - 1] as int) == fat_entry(
            stored,
            vol,
            handle.chain@[handle.chain@.len() - 1] as int,
        ),
    ensures
        keeps_file(stored, linked, vol, handle, longer),
{
    lemma_chain_kept_but(
        stored,
        linked,
        vol,
        handle.entry.first_cluster as int,
        handle.chain@,
        fresh,
    );
    assert forall|p: int| 0 <= p < handle.entry.size implies #[trigger] stream_byte(
        linked,
        vol,
        longer,
        p,
    ) == stream_byte(stored, vol, longer, p) by {
        lemma_file_sector_bounds(vol, longer, p / 512);
    }
}

/// What an append leaves of everything that is not the file's own: every
/// sector outside the table and the data region, the table entry of every
/// cluster that was in use, but for the file's last, and the data of every
/// cluster that was in use by something else.
pub open spec fn spares_others(
    before: Seq<Seq<u8>>,
    after: Seq<Seq<u8>>,
    vol: Volume,
    chain: Seq<u32>,
) -> bool {
    &&& forall|s: int|
        0 <= s < before.len() && !(vol.fat_start <= s < vol.fat_start + vol.fat_sectors) && !(
        vol.data_start <= s < vol.end()) ==> #[trigger] after[s] == before[s]
    &&& forall|c: int|
        in_volume(vol, c) && !is_free(before, vol, c) && c != chain[chain.len() - 1]
            ==> #[trigger] fat_entry(after, vol, c) == fat_entry(before, vol, c)
    &&& forall|c: int, k: int|
        in_volume(vol, c) && !is_free(before, vol, c) && 0 <= k < vol.sectors_per_cluster && (
        forall|i: int| 0 <= i < chain.len() ==> #[trigger] chain[i] != c) ==> after[#[trigger] cluster_sector(
            vol,
            c,
            k,
        )] == before[cluster_sector(vol, c, k)]
}

/// Storing data along a chain and its fresh clusters, then linking those,
/// spares everything that is not the file's own.
proof fn lemma_spares(
    before: Seq<Seq<u8>>,
    stored: Seq<Seq<u8>>,
    after: Seq<Seq<u8>>,
    vol: Volume,
    chain: Seq<u32>,
    fresh: Seq<u32>,
)
    requires
        vol.lies_on(before),
        stored.len() == before.len(),
        after.len() == before.len(),
        chain.len() >= 1,
        clusters_in_volume(vol, chain + fresh),
        lowest_free(before, vol, fresh),
        forall|s: int| 0 <= s < vol.data_start ==> #[trigger] stored[s] == before[s],
        forall|s: int|
            0 <= s < before.len() && !is_file_sector(vol, chain + fresh, s) ==> #[trigger] stored[s]
                == before[s],
        forall|s: int|
            0 <= s < stored.len() && !(vol.fat_start <= s < vol.fat_start + vol.fat_sectors)
                ==> #[trigger] after[s] == stored[s],
        forall|c: int|
            in_volume(vol, c) && c != chain[chain.len() - 1] && (forall|i: int|
                0 <= i < fresh.len() ==> #[trigger] fresh[i] != c) ==> #[trigger] fat_entry(
                after,
                vol,
                c,
            ) == fat_entry(stored, vol, c),
    ensures
        spares_others(before, after, vol, chain),
{
    let both = chain + fresh;
    assert forall|s: int|
        0 <= s < before.len() && !(vol.fat_start <= s < vol.fat_start + vol.fat_sectors) && !(
        vol.data_start <= s < vol.end()) implies #[trigger] after[s] == before[s] by {
        if s >= vol.end() {
            assert(!is_file_sector(vol, both, s)) by {
                assert forall|q: int| 0 <= q < chain_sectors(vol, both) implies #[trigger] file_sector(
                    vol,
                    both,
                    q,
                ) != s by {
                    lemma_file_sector_bounds(vol, both, q);
                }
            }
        }
        assert(stored[s] == before[s]);
    }
    assert forall|c: int|
        in_volume(vol, c) && !is_free(before, vol, c) && c != chain[chain.len() - 1] implies #[trigger] fat_entry(
        after,
        vol,
        c,
    ) == fat_entry(before, vol, c) by {
        assert forall|i: int| 0 <= i < fresh.len() implies #[trigger] fresh[i] != c by {
            assert(is_free(before, vol, fresh[i] as int));
        }
        lemma_fat_sector_in_table(vol, c);
        assert(stored[fat_sector(vol, c)] == before[fat_sector(vol, c)]);
    }
    assert forall|c: int, k: int|
        in_volume(vol, c) && !is_free(before, vol, c) && 0 <= k < vol.sectors_per_cluster && (
        forall|i: int| 0 <= i < chain.len() ==> #[trigger] chain[i] != c) implies after[#[trigger] cluster_sector(
        vol,
        c,
        k,
    )] == before[cluster_sector(vol, c, k)] by {
        assert forall|i: int| 0 <= i < both.len() implies #[trigger] both[i] != c by {
            if i < chain.len() {
                assert(chain[i] != c);
            } else {
                assert(is_free(before, vol, fresh[i - chain.len()] as int));
            }
        }
        lemma_foreign_cluster_sector(vol, both, c, k);
        lemma_cluster_sector_bounds(vol, c, k);
        let s = cluster_sector(vol, c, k);
        assert(stored[s] == before[s]);
        assert(after[s] == stored[s]);
    }
}

/// What storing data behind a file and linking fresh clusters leaves on
/// success: the chain of both, the data in place behind the former
/// content, and the root directory as it was.
pub open spec fn stored_behind(
    before: Seq<Seq<u8>>,
    after: Seq<Seq<u8>>,
    vol: Volume,
    handle: OpenFileHandle,
    fresh: Seq<u32>,
    data: Seq<u8>,
) -> bool {
    let both = handle.chain@ + fresh;
    &&& after.len() == before.len()
    &&& same_root(before, after, vol)
    &&& is_chain(after, vol, handle.entry.first_cluster as int, both)
    &&& forall|p: int|
        0 <= p < handle.entry.size ==> #[trigger] stream_byte(after, vol, both, p) == stream_byte(
            before,
            vol,
            both,
            p,
        )
    &&& forall|p: int|
        handle.entry.size <= p < handle.entry.size + data.len() ==> #[trigger] stream_byte(
            after,
            vol,
            both,
            p,
        ) == data[p - handle.entry.size]
}

/// Linking after storing gives what `stored_behind` says.
proof fn lemma_linked_behind(
    before: Seq<Seq<u8>>,
    stored: Seq<Seq<u8>>,
    after: Seq<Seq<u8>>,
    vol: Volume,
    handle: OpenFileHandle,
    fresh: Seq<u32>,
    data: Seq<u8>,
)
    requires
        vol.lies_on(stored),
        after.len() == stored.len(),
        keeps_file(before, stored, vol, handle, handle.chain@ + fresh),
        clusters_in_volume(vol, handle.chain@ + fresh),
        handle.entry.size + data.len() <= 512 * chain_sectors(vol, handle.chain@ + fresh),
        forall|p: int|
            handle.entry.size <= p < handle.entry.size + data.len() ==> #[trigger] stream_byte(
                stored,
                vol,
                handle.chain@ + fresh,
                p,
            ) == data[p - handle.entry.size],
        forall|s: int|
            0 <= s < stored.len() && !(vol.fat_start <= s < vol.fat_start + vol.fat_sectors)
                ==> #[trigger] after[s] == stored[s],
        is_chain(after, vol, handle.entry.first_cluster as int, handle.chain@ + fresh),
    ensures
        stored_behind(before, after, vol, handle, fresh, data),
{
    let both = handle.chain@ + fresh;
    assert forall|p: int| 0 <= p < handle.entry.size + data.len() implies #[trigger] stream_byte(
        after,
        vol,
        both,
        p,
    ) == stream_byte(stored, vol, both, p) by {
        lemma_file_sector_bounds(vol, both, p / 512);
    }
    assert forall|p: int| 0 <= p < handle.entry.size implies #[trigger] stream_byte(
        after,
        vol,
        both,
        p,
    ) == stream_byte(before, vol, both, p) by {
        assert(stream_byte(stored, vol, both, p) == stream_byte(before, vol, both, p));
    }
    assert(same_root(before, after, vol)) by {
        assert forall|s: int| vol.root_start <= s < vol.data_start implies after[s] == before[s] by {
            assert(after[s] == stored[s]);
        }
    }
}

/// One vector after the other.
fn joined(head: &Vec<u32>, rest: &Vec<u32>) -> (both: Vec<u32>)
    ensures
        both@ == head@ + rest@,
{
    let mut both: Vec<u32> = Vec::new();
    let mut i: usize = 0;
    while i < head.len()
        invariant
            i <= head@.len(),
            both@ == head@.subrange(0, i as int),
        decreases head@.len() - i,
    {
        both.push(head[i]);
        assert(both@ =~= head@.subrange(0, i + 1));
        i = i + 1;
    }
    assert(both@ =~= head@);
    let mut j: usize = 0;
    while j < rest.len()
        invariant
            j <= rest@.len(),
            both@ == head@ + rest@.subrange(0, j as int),
        decreases rest@.len() - j,
    {
        both.push(rest[j]);
        assert(both@ =~= head@ + rest@.subrange(0, j + 1));
        j = j + 1;
    }
    assert(both@ =~= head@ + rest@);
    both
}

/// Stores `data` behind the file's end along `both`, the file's chain
/// followed by the clusters of `fresh`, then links those to the chain.
fn store_behind<B: CardBus>(
    handle: &OpenFileHandle,
    volume: &Volume,
    transport: &mut BlockTransport<B>,
    fresh: &Vec<u32>,
    both: &Vec<u32>,
    data: &[u8],
) -> (r: Result<(), TransportError>)
    requires
        old(transport).wf(),
        volume.lies_on(old(transport).image()),
        handle.valid_on(old(transport).image(), *volume),
        lowest_free(old(transport).image(), *volume, fresh@),
        both@ == handle.chain@ + fresh@,
        handle.entry.size + data@.len() <= 512 * chain_sectors(*volume, both@),
        handle.entry.size + data@.len() <= u32::MAX,
    ensures
        final(transport).wf(),
        volume.lies_on(final(transport).image()),
        r is Ok ==> stored_behind(
            old(transport).image(),
            final(transport).image(),
            *volume,
            *handle,
            fresh@,
            data@,
        ),
        r is Err ==> append_undone(
            old(transport).image(),
            final(transport).image(),
            *volume,
            *handle,
        ),
        spares_others(
            old(transport).image(),
            final(transport).image(),
            *volume,
            handle.chain@,
        ),
        old(transport).reliable() ==> r is Ok && final(transport).reliable(),
{
    let ghost before = transport.image();
    let ghost start = handle.entry.first_cluster as int;
    proof {
        lemma_joined_chain(before, *volume, start, handle.chain@, fresh@);
        lemma_chain_distinct(before, *volume, start, handle.chain@);
    }
    let written = write_stream(transport, volume, both, handle.entry.size, data);
    let ghost stored = transport.image();
    proof {
        lemma_written_keeps(before, stored, *volume, *handle, both@);
    }
    match written {
        Err(e) => {
            proof {
                lemma_file_kept(before, stored, *volume, *handle, both@);
                lemma_spares(before, stored, stored, *volume, handle.chain@, fresh@);
            }
            return Err(e);
        },
        Ok(()) => {},
    }
    if fresh.len() == 0 {
        proof {
            assert(handle.chain@ + fresh@ =~= handle.chain@);
            lemma_linked_behind(before, stored, stored, *volume, *handle, fresh@, data@);
            lemma_spares(before, stored, stored, *volume, handle.chain@, fresh@);
        }
        return Ok(());
    }
    let held = handle.chain.clusters.len();
    let tail = handle.chain.clusters[held - 1];
    assert(in_volume(*volume, handle.chain@[held - 1] as int));
    let linked = extend_chain(transport, volume, tail, fresh);
    let ghost after = transport.image();
    proof {
        lemma_spares(before, stored, after, *volume, handle.chain@, fresh@);
    }
    match linked {
        Err(e) => {
            proof {
                lemma_unlinked_keeps(stored, after, *volume, *handle, fresh@, both@);
                lemma_keeps_file_twice(before, stored, after, *volume, *handle, both@);
                lemma_file_kept(before, after, *volume, *handle, both@);
            }
            Err(e)
        },
        Ok(()) => {
            proof {
                lemma_chain_grown(stored, after, *volume, start, handle.chain@, fresh@);
                lemma_linked_behind(before, stored, after, *volume, *handle, fresh@, data@);
            }
            Ok(())
        },
    }
}

/// A handle moved behind data that was stored and linked is what `append`
/// promises.
proof fn lemma_appended(
    before: Seq<Seq<u8>>,
    after: Seq<Seq<u8>>,
    vol: Volume,
    was: OpenFileHandle,
    fresh: Seq<u32>,
    data: Seq<u8>,
    now_is: OpenFileHandle,
)
    requires
        vol.lies_on(before),
        was.valid_on(before, vol),
        lowest_free(before, vol, fresh),
        stored_behind(before, after, vol, was, fresh, data),
        was.entry.size + data.len() <= 512 * chain_sectors(vol, was.chain@ + fresh),
        (was.chain@ + fresh).len() == (if clusters_for(vol, was.entry.size + data.len())
            > was.chain@.len() {
            clusters_for(vol, was.entry.size + data.len())
        } else {
            was.chain@.len() as int
        }),
        now_is.slot == was.slot,
        now_is.entry.name == was.entry.name,
        now_is.entry.first_cluster == was.entry.first_cluster,
        now_is.entry.modified == was.entry.modified,
        now_is.entry.size == was.entry.size + data.len(),
        now_is.chain@ == was.chain@ + fresh,
        now_is.cursor_cluster == now_is.chain@[cursor_index(
            vol,
            now_is.chain@.len() as int,
            now_is.entry.size as int,
        )],
        now_is.cursor_offset == now_is.entry.size - 512 * (cursor_index(
            vol,
            now_is.chain@.len() as int,
            now_is.entry.size as int,
        ) * vol.sectors_per_cluster),
    ensures
        appended(before, after, vol, was, data, now_is),
{
    let both = was.chain@ + fresh;
    let held = was.chain@.len() as int;
    lemma_joined_chain(before, vol, was.entry.first_cluster as int, was.chain@, fresh);
    lemma_same_root_found(before, after, vol, was.entry.name@, was.slot as int);
    lemma_same_root_slot(before, after, vol, was.slot as int);
    assert(both.subrange(0, held) =~= was.chain@);
    assert(both.subrange(held, both.len() as int) =~= fresh);
    assert(now_is.content(after, vol) =~= was.content(before, vol) + data) by {
        assert forall|p: int| 0 <= p < now_is.entry.size implies stream_byte(after, vol, both, p) == (
        was.content(before, vol) + data)[p] by {
            if p < was.entry.size {
                assert(stream_byte(after, vol, both, p) == stream_byte(before, vol, both, p));
                lemma_stream_prefix(before, vol, was.chain@, both, p);
            } else {
                assert(stream_byte(after, vol, both, p) == data[p - was.entry.size]);
            }
        }
    }
}

/// Appends `data` to the file and returns how many bytes were appended:
/// all of them.
///
/// Stores the data behind the file's present end, in the chain's clusters
/// and, where they do not suffice, in the lowest free clusters, which are
/// then linked to the chain. The directory is not touched: the recorded
/// size moves when the file is closed.
///
/// On failure the handle is as it was, and so are the file's content and
/// its recorded size; data stored by then lies beyond the file's end.
/// Fails with `FileTooLarge` where the size would pass `u32::MAX`, and with
/// `NoFreeCluster` where fewer clusters are free than the data needs; in
/// both cases no sector has changed.
pub fn append<B: CardBus>(
    handle: &mut OpenFileHandle,
    volume: &Volume,
    transport: &mut BlockTransport<B>,
    data: &[u8],
) -> (r: Result<usize, FsError>)
    requires
        old(transport).wf(),
        volume.lies_on(old(transport).image()),
        old(handle).valid_on(old(transport).image(), *volume),
    ensures
        final(transport).wf(),
        volume.lies_on(final(transport).image()),
        final(transport).image().len() == old(transport).image().len(),
        r matches Ok(n) ==> n == data@.len() && appended(
            old(transport).image(),
            final(transport).image(),
            *volume,
            *old(handle),
            data@,
            *final(handle),
        ),
        r matches Err(e) ==> *final(handle) == *old(handle) && append_undone(
            old(transport).image(),
            final(transport).image(),
            *volume,
            *old(handle),
        ) && append_refused(old(transport).image(), *volume, *old(handle), data@, e),
        spares_others(
            old(transport).image(),
            final(transport).image(),
            *volume,
            old(handle).chain@,
        ),
        r matches Err(FsError::Capacity(_)) ==> final(transport).image() == old(transport).image(),
        r matches Err(FsError::Transport(_)) ==> !old(transport).reliable(),
        old(transport).reliable() ==> final(transport).reliable(),
{
    let ghost before = transport.image();
    let ghost was = *handle;
    let size = handle.entry.size;
    proof {
        assert(spares_others(before, before, *volume, was.chain@));
        assert(keeps_file(before, before, *volume, was, was.chain@));
        lemma_file_kept(before, before, *volume, was, was.chain@);
        lemma_chain_length(before, *volume, was.entry.first_cluster as int, was.chain@);
    }
    if data.len() > (u32::MAX - size) as usize {
        return Err(FsError::Capacity(CapacityError::FileTooLarge));
    }
    let new_size: u32 = size + data.len() as u32;
    let held = handle.chain.clusters.len();
    let needed = clusters_needed(volume, new_size);
    let wanted: u32 = if needed as usize > held {
        needed - held as u32
    } else {
        0
    };
    let fresh = match find_free(transport, volume, wanted) {
        Err(e) => {
            return Err(e);
        },
        Ok(fresh) => fresh,
    };
    let chain = joined(&handle.chain.clusters, &fresh);
    proof {
        lemma_clusters_for(*volume, new_size as int);
        lemma_sectors_grow(needed as int, chain@.len() as int, volume.sectors_per_cluster as int);
    }
    match store_behind(handle, volume, transport, &fresh, &chain, data) {
        Err(e) => {
            return Err(FsError::Transport(e));
        },
        Ok(()) => {},
    }
    proof {
        assert(is_chain(transport.image(), *volume, was.entry.first_cluster as int, chain@));
        lemma_chain_length(transport.image(), *volume, was.entry.first_cluster as int, chain@);
    }
    let at = place_cursor(volume, &chain, new_size);
    handle.entry.size = new_size;
    handle.chain = ClusterChain { clusters: chain };
    handle.cursor_cluster = at.0;
    handle.cursor_offset = at.1;
    proof {
        lemma_appended(before, transport.image(), *volume, was, fresh@, data@, *handle);
    }
    Ok(data.len())
}

/// A chain stays what it is while only entries of clusters outside it, and
/// not that of its last cluster, are set.
proof fn lemma_chain_kept_but(
    before: Seq<Seq<u8>>,
    after: Seq<Seq<u8>>,
    vol: Volume,
    start: int,
    chain: Seq<u32>,
    fresh: Seq<u32>,
)
    requires
        vol.wf(),
        is_chain(before, vol, start, chain),
        chain.no_duplicates(),
        forall|i: int, j: int|
            0 <= i < chain.len() && 0 <= j < fresh.len() ==> #[trigger] chain[i] != #[trigger] fresh[j],
        forall|c: int|
            in_volume(vol, c) && c != chain[chain.len() - 1] && (forall|i: int|
                0 <= i < fresh.len() ==> #[trigger] fresh[i] != c) ==> #[trigger] fat_entry(
                after,
                vol,
                c,
            ) == fat_entry(before, vol, c),
        fat_entry(after, vol, chain[chain.len() - 1] as int) == fat_entry(
            before,
            vol,
            chain[chain.len() - 1] as int,
        ),
    ensures
        is_chain(after, vol, start, chain),
{
    assert forall|i: int| 0 <= i < chain.len() implies fat_entry(
        after,
        vol,
        #[trigger] chain[i] as int,
    ) == fat_entry(before, vol, chain[i] as int) by {
        assert(in_volume(vol, chain[i] as int));
        if i < chain.len() - 1 {
            let c = chain[i] as int;
            assert(c != chain[chain.len() - 1]);
            assert forall|k: int| 0 <= k < fresh.len() implies #[trigger] fresh[k] != c by {
                assert(chain[i] != fresh[k]);
            }
        }
    }
}

/// Linking fresh clusters behind a chain gives the chain of both.
proof fn lemma_chain_grown(
    before: Seq<Seq<u8>>,
    after: Seq<Seq<u8>>,
    vol: Volume,
    start: int,
    chain: Seq<u32>,
    fresh: Seq<u32>,
)
    requires
        vol.wf(),
        is_chain(before, vol, start, chain),
        chain.no_duplicates(),
        fresh.len() >= 1,
        forall|i: int| 0 <= i < fresh.len() ==> in_volume(vol, #[trigger] fresh[i] as int),
        forall|i: int, j: int|
            0 <= i < chain.len() && 0 <= j < fresh.len() ==> #[trigger] chain[i] != #[trigger] fresh[j],
        forall|c: int|
            in_volume(vol, c) && c != chain[chain.len() - 1] && (forall|i: int|
                0 <= i < fresh.len() ==> #[trigger] fresh[i] != c) ==> #[trigger] fat_entry(
                after,
                vol,
                c,
            ) == fat_entry(before, vol, c),
        fat_entry(after, vol, chain[chain.len() - 1] as int) == fresh[0],
        forall|i: int|
            0 <= i < fresh.len() - 1 ==> fat_entry(after, vol, #[trigger] fresh[i] as int) == fresh[i
                + 1],
        fat_entry(after, vol, fresh[fresh.len() - 1] as int) == END_OF_CHAIN,
    ensures
        is_chain(after, vol, start, chain + fresh),
{
    let both = chain + fresh;
    let held = chain.len() as int;
    assert forall|i: int| 0 <= i < both.len() implies in_volume(vol, #[trigger] both[i] as int) by {
        if i < held {
            assert(in_volume(vol, chain[i] as int));
        } else {
            assert(in_volume(vol, fresh[i - held] as int));
        }
    }
    assert forall|i: int| 0 <= i < both.len() - 1 implies fat_entry(
        after,
        vol,
        #[trigger] both[i] as int,
    ) == both[i + 1] by {
        if i < held - 1 {
            let c = chain[i] as int;
            assert(in_volume(vol, chain[i] as int));
            assert(c != chain[held - 1]);
            assert forall|k: int| 0 <= k < fresh.len() implies #[trigger] fresh[k] != c by {
                assert(chain[i] != fresh[k]);
            }
            assert(fat_entry(before, vol, chain[i] as int) == chain[i + 1]);
        } else if i == held - 1 {
        } else {
            assert(fat_entry(after, vol, fresh[i - held] as int) == fresh[i - held + 1]);
        }
    }
    assert(both[both.len() - 1] == fresh[fresh.len() - 1]);
}

} // verus!
