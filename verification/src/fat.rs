//! The allocation table: one 16-bit entry per cluster, which names the next
//! cluster of a file, marks its last one, or says that the cluster is free.
use vstd::prelude::*;
use crate::block::{le16, lemma_le16_stored, with_le16};
use crate::bus::{image_wf, CardBus};
use crate::error::{CapacityError, FsError, TransportError, VolumeError};
use crate::transport::BlockTransport;
use crate::volume::Volume;

verus! {

/// The entry written to mark the last cluster of a file.
pub const END_OF_CHAIN: u16 = 0xFFFF;

/// The least entry that marks the last cluster of a file.
pub const FIRST_END_MARK: u16 = 0xFFF8;

/// Whether `cluster` numbers a data cluster of the volume.
pub open spec fn in_volume(vol: Volume, cluster: int) -> bool {
    2 <= cluster < vol.cluster_count + 2
}

/// The sector that holds the table entry of `cluster`.
pub open spec fn fat_sector(vol: Volume, cluster: int) -> int {
    vol.fat_start + cluster / 256
}

/// Where in its sector the table entry of `cluster` starts.
pub open spec fn fat_offset(cluster: int) -> int {
    (cluster % 256) * 2
}

/// The table entry of `cluster`.
pub open spec fn fat_entry(image: Seq<Seq<u8>>, vol: Volume, cluster: int) -> int {
    le16(image[fat_sector(vol, cluster)], fat_offset(cluster))
}

/// Whether the table marks `cluster` as free.
pub open spec fn is_free(image: Seq<Seq<u8>>, vol: Volume, cluster: int) -> bool {
    fat_entry(image, vol, cluster) == 0
}

/// The card's sectors after the table entry of `cluster` is set to `value`.
pub open spec fn with_fat_entry(image: Seq<Seq<u8>>, vol: Volume, cluster: int, value: int) -> Seq<
    Seq<u8>,
> {
    image.update(
        fat_sector(vol, cluster),
        with_le16(image[fat_sector(vol, cluster)], fat_offset(cluster), value),
    )
}

/// Whether `chain` is the cluster chain that starts at `start`: every
/// cluster lies in the volume, each one's entry names the next, and the last
/// one's entry is an end mark.
pub open spec fn is_chain(image: Seq<Seq<u8>>, vol: Volume, start: int, chain: Seq<u32>) -> bool {
    &&& chain.len() >= 1
    &&& chain[0] == start
    &&& forall|i: int| 0 <= i < chain.len() ==> in_volume(vol, #[trigger] chain[i] as int)
    &&& forall|i: int|
        0 <= i < chain.len() - 1 ==> fat_entry(image, vol, #[trigger] chain[i] as int) == chain[i
            + 1]
    &&& fat_entry(image, vol, chain[chain.len() - 1] as int) >= FIRST_END_MARK
}

/// Number of free clusters among those numbered below `bound`.
pub open spec fn free_below(image: Seq<Seq<u8>>, vol: Volume, bound: int) -> nat
    decreases bound,
{
    if bound <= 2 {
        0
    } else {
        free_below(image, vol, bound - 1) + (if is_free(image, vol, bound - 1) {
            1nat
        } else {
            0nat
        })
    }
}

/// Number of free clusters in the volume.
pub open spec fn free_count(image: Seq<Seq<u8>>, vol: Volume) -> nat {
    free_below(image, vol, vol.cluster_count + 2)
}

/// Whether `found` lists the lowest-numbered free clusters in rising order:
/// its `i`-th cluster is free and has exactly `i` free clusters below it.
pub open spec fn lowest_free(image: Seq<Seq<u8>>, vol: Volume, found: Seq<u32>) -> bool {
    forall|i: int|
        0 <= i < found.len() ==> {
            &&& in_volume(vol, #[trigger] found[i] as int)
            &&& is_free(image, vol, found[i] as int)
            &&& free_below(image, vol, found[i] as int) == i
        }
}

/// The table entries of two images agree on every cluster of the volume.
pub open spec fn same_table(a: Seq<Seq<u8>>, b: Seq<Seq<u8>>, vol: Volume) -> bool {
    forall|s: int| vol.fat_start <= s < vol.fat_start + vol.fat_sectors ==> a[s] == b[s]
}

/// The entry of every cluster of the volume lies in a sector of the table,
/// before the root directory.
pub proof fn lemma_fat_sector_in_table(vol: Volume, cluster: int)
    requires
        vol.wf(),
        in_volume(vol, cluster),
    ensures
        vol.fat_start <= fat_sector(vol, cluster) < vol.fat_start + vol.fat_sectors,
        fat_sector(vol, cluster) < vol.root_start,
        0 <= fat_offset(cluster) <= 510,
{
}

/// Setting one entry leaves every other entry, and every sector outside the
/// table, as it was.
pub proof fn lemma_with_fat_entry(image: Seq<Seq<u8>>, vol: Volume, cluster: int, value: int)
    requires
        vol.lies_on(image),
        in_volume(vol, cluster),
        0 <= value < 65536,
    ensures
        image_wf(with_fat_entry(image, vol, cluster, value)),
        with_fat_entry(image, vol, cluster, value).len() == image.len(),
        fat_entry(with_fat_entry(image, vol, cluster, value), vol, cluster) == value,
        forall|other: int|
            in_volume(vol, other) && other != cluster ==> #[trigger] fat_entry(
                with_fat_entry(image, vol, cluster, value),
                vol,
                other,
            ) == fat_entry(image, vol, other),
        forall|s: int|
            0 <= s < image.len() && s != fat_sector(vol, cluster) ==> #[trigger] with_fat_entry(
                image,
                vol,
                cluster,
                value,
            )[s] == image[s],
{
    let s = fat_sector(vol, cluster);
    let after = with_fat_entry(image, vol, cluster, value);
    lemma_fat_sector_in_table(vol, cluster);
    lemma_le16_stored(image[s], fat_offset(cluster), value);
    assert forall|other: int| in_volume(vol, other) && other != cluster implies #[trigger] fat_entry(
        after,
        vol,
        other,
    ) == fat_entry(image, vol, other) by {
        lemma_fat_sector_in_table(vol, other);
        if fat_sector(vol, other) == s {
            assert(fat_offset(other) != fat_offset(cluster));
        }
    }
}

/// Images with the same table have the same entries.
pub proof fn lemma_same_table_entry(a: Seq<Seq<u8>>, b: Seq<Seq<u8>>, vol: Volume, cluster: int)
    requires
        vol.wf(),
        same_table(a, b, vol),
        in_volume(vol, cluster),
    ensures
        fat_entry(a, vol, cluster) == fat_entry(b, vol, cluster),
{
    lemma_fat_sector_in_table(vol, cluster);
}

/// Images with the same table have the same chains.
pub proof fn lemma_same_table_chain(
    a: Seq<Seq<u8>>,
    b: Seq<Seq<u8>>,
    vol: Volume,
    start: int,
    chain: Seq<u32>,
)
    requires
        vol.wf(),
        same_table(a, b, vol),
        is_chain(a, vol, start, chain),
    ensures
        is_chain(b, vol, start, chain),
{
    assert forall|i: int| 0 <= i < chain.len() implies fat_entry(a, vol, #[trigger] chain[i] as int)
        == fat_entry(b, vol, chain[i] as int) by {
        lemma_same_table_entry(a, b, vol, chain[i] as int);
    }
}

/// The count of free clusters below a bound grows with the bound, and by at
/// least one across a free cluster.
pub proof fn lemma_free_below_grows(image: Seq<Seq<u8>>, vol: Volume, lo: int, hi: int)
    requires
        lo <= hi,
    ensures
        free_below(image, vol, lo) <= free_below(image, vol, hi),
        lo >= 2 && lo < hi && is_free(image, vol, lo) ==> free_below(image, vol, lo) + 1
            <= free_below(image, vol, hi),
    decreases hi - lo,
{
    if lo < hi {
        lemma_free_below_grows(image, vol, lo, hi - 1);
    }
}

/// The lowest free clusters are listed in strictly rising order.
pub proof fn lemma_lowest_free_rising(image: Seq<Seq<u8>>, vol: Volume, found: Seq<u32>, i: int, j: int)
    requires
        lowest_free(image, vol, found),
        0 <= i < j < found.len(),
    ensures
        found[i] < found[j],
{
    if found[i] >= found[j] {
        lemma_free_below_grows(image, vol, found[j] as int, found[i] as int);
    }
}

/// No cluster occurs twice in a chain.
pub proof fn lemma_chain_no_repeat(
    image: Seq<Seq<u8>>,
    vol: Volume,
    start: int,
    chain: Seq<u32>,
    i: int,
    j: int,
)
    requires
        vol.wf(),
        is_chain(image, vol, start, chain),
        0 <= i < j < chain.len(),
    ensures
        chain[i] != chain[j],
    decreases chain.len() - j,
{
    if chain[i] == chain[j] {
        assert(in_volume(vol, chain[i + 1] as int));
        assert(fat_entry(image, vol, chain[i] as int) == chain[i + 1]);
        if j < chain.len() - 1 {
            assert(fat_entry(image, vol, chain[j] as int) == chain[j + 1]);
            lemma_chain_no_repeat(image, vol, start, chain, i + 1, j + 1);
        }
    }
}

/// No cluster occurs twice in a chain.
pub proof fn lemma_chain_distinct(image: Seq<Seq<u8>>, vol: Volume, start: int, chain: Seq<u32>)
    requires
        vol.wf(),
        is_chain(image, vol, start, chain),
    ensures
        chain.no_duplicates(),
{
    assert forall|i: int, j: int| 0 <= i < chain.len() && 0 <= j < chain.len() && i != j implies chain[i]
        != chain[j] by {
        if i < j {
            lemma_chain_no_repeat(image, vol, start, chain, i, j);
        } else {
            lemma_chain_no_repeat(image, vol, start, chain, j, i);
        }
    }
}

/// A walk along the table from `start` that has not met an end mark yet is
/// the beginning of the chain from `start`, if there is one.
pub open spec fn is_walk(image: Seq<Seq<u8>>, vol: Volume, start: int, walk: Seq<u32>) -> bool {
    &&& walk.len() >= 1
    &&& walk[0] == start
    &&& forall|i: int| 0 <= i < walk.len() ==> in_volume(vol, #[trigger] walk[i] as int)
    &&& forall|i: int|
        0 <= i < walk.len() - 1 ==> fat_entry(image, vol, #[trigger] walk[i] as int) == walk[i + 1]
}

/// A chain from `start` begins with every walk from `start`.
proof fn lemma_walk_is_prefix(
    image: Seq<Seq<u8>>,
    vol: Volume,
    start: int,
    walk: Seq<u32>,
    chain: Seq<u32>,
    i: int,
)
    requires
        vol.wf(),
        is_walk(image, vol, start, walk),
        is_chain(image, vol, start, chain),
        0 <= i < walk.len(),
    ensures
        i < chain.len(),
        chain[i] == walk[i],
    decreases i,
{
    if i > 0 {
        lemma_walk_is_prefix(image, vol, start, walk, chain, i - 1);
        assert(in_volume(vol, walk[i] as int));
        assert(fat_entry(image, vol, walk[i - 1] as int) == walk[i]);
    }
}

/// There is at most one chain from a start cluster.
pub proof fn lemma_chain_unique(
    image: Seq<Seq<u8>>,
    vol: Volume,
    start: int,
    a: Seq<u32>,
    b: Seq<u32>,
)
    requires
        vol.wf(),
        is_chain(image, vol, start, a),
        is_chain(image, vol, start, b),
    ensures
        a == b,
{
    lemma_walk_is_prefix(image, vol, start, a, b, a.len() - 1);
    lemma_walk_is_prefix(image, vol, start, b, a, b.len() - 1);
    assert forall|i: int| 0 <= i < a.len() implies a[i] == b[i] by {
        lemma_walk_is_prefix(image, vol, start, a, b, i);
    }
    assert(a =~= b);
}

/// A chain has no more clusters than the volume.
pub proof fn lemma_chain_length(image: Seq<Seq<u8>>, vol: Volume, start: int, chain: Seq<u32>)
    requires
        vol.wf(),
        is_chain(image, vol, start, chain),
    ensures
        chain.len() <= vol.cluster_count,
{
    lemma_chain_distinct(image, vol, start, chain);
    lemma_distinct_clusters_bounded(vol, chain);
}

/// Distinct clusters of the volume are no more than the volume has.
pub proof fn lemma_distinct_clusters_bounded(vol: Volume, clusters: Seq<u32>)
    requires
        clusters.no_duplicates(),
        forall|i: int| 0 <= i < clusters.len() ==> in_volume(vol, #[trigger] clusters[i] as int),
    ensures
        clusters.len() <= vol.cluster_count,
{
    let ints = clusters.map_values(|c: u32| c as int);
    assert(ints.no_duplicates());
    ints.unique_seq_to_set();
    vstd::set_lib::lemma_int_range(2, vol.cluster_count + 2);
    let all = vstd::set_lib::set_int_range(2, vol.cluster_count + 2);
    assert(ints.to_set().subset_of(all)) by {
        assert forall|x: int| ints.to_set().contains(x) implies all.contains(x) by {
            let i = choose|i: int| 0 <= i < ints.len() && ints[i] == x;
            assert(in_volume(vol, clusters[i] as int));
        }
    }
    vstd::set_lib::lemma_len_subset(ints.to_set(), all);
}

/// Reads the table entry of `cluster`.
pub fn read_entry<B: CardBus>(transport: &mut BlockTransport<B>, vol: &Volume, cluster: u32) -> (r:
    Result<u16, TransportError>)
    requires
        old(transport).wf(),
        vol.lies_on(old(transport).image()),
        in_volume(*vol, cluster as int),
    ensures
        final(transport).wf(),
        final(transport).image() == old(transport).image(),
        r matches Ok(e) ==> e == fat_entry(old(transport).image(), *vol, cluster as int),
        old(transport).reliable() ==> r is Ok && final(transport).reliable(),
{
    proof {
        lemma_fat_sector_in_table(*vol, cluster as int);
    }
    let sector = vol.fat_start + cluster / 256;
    match transport.read_block(sector) {
        Err(e) => Err(e),
        Ok(block) => Ok(block.get_le16(((cluster % 256) * 2) as usize)),
    }
}

/// Sets the table entry of `cluster` to `value`, leaving the rest of its
/// sector as it is. On failure no sector has changed.
pub fn write_entry<B: CardBus>(
    transport: &mut BlockTransport<B>,
    vol: &Volume,
    cluster: u32,
    value: u16,
) -> (r: Result<(), TransportError>)
    requires
        old(transport).wf(),
        vol.lies_on(old(transport).image()),
        in_volume(*vol, cluster as int),
    ensures
        final(transport).wf(),
        r is Ok ==> final(transport).image() == with_fat_entry(
            old(transport).image(),
            *vol,
            cluster as int,
            value as int,
        ),
        r is Err ==> final(transport).image() == old(transport).image(),
        old(transport).reliable() ==> r is Ok && final(transport).reliable(),
{
    proof {
        lemma_fat_sector_in_table(*vol, cluster as int);
    }
    let sector = vol.fat_start + cluster / 256;
    let mut block = match transport.read_block(sector) {
        Err(e) => {
            return Err(e);
        },
        Ok(block) => block,
    };
    block.set_le16(((cluster % 256) * 2) as usize, value);
    transport.write_block(sector, &block)
}

/// Follows the table from `start` to the end of the chain.
///
/// Gives the chain where there is one; fails with `CorruptChain` exactly
/// where there is none, unless the card fails a command first.
pub fn walk_chain<B: CardBus>(transport: &mut BlockTransport<B>, vol: &Volume, start: u32) -> (r:
    Result<Vec<u32>, FsError>)
    requires
        old(transport).wf(),
        vol.lies_on(old(transport).image()),
    ensures
        final(transport).wf(),
        final(transport).image() == old(transport).image(),
        r matches Ok(chain) ==> is_chain(old(transport).image(), *vol, start as int, chain@),
        r matches Err(e) ==> (e matches FsError::Transport(_) && !old(transport).reliable()) || (e
            == FsError::Volume(VolumeError::CorruptChain) && forall|chain: Seq<u32>|
            !is_chain(old(transport).image(), *vol, start as int, chain)),
        old(transport).reliable() ==> final(transport).reliable(),
{
    let ghost image = transport.image();
    if start < 2 || start - 2 >= vol.cluster_count {
        assert forall|chain: Seq<u32>| !is_chain(image, *vol, start as int, chain) by {
            if is_chain(image, *vol, start as int, chain) {
                assert(in_volume(*vol, chain[0] as int));
            }
        }
        return Err(FsError::Volume(VolumeError::CorruptChain));
    }
    let mut chain: Vec<u32> = Vec::new();
    chain.push(start);
    loop
        invariant
            transport.wf(),
            transport.image() == image,
            image == old(transport).image(),
            vol.lies_on(image),
            is_walk(image, *vol, start as int, chain@),
            chain@.len() <= vol.cluster_count,
            old(transport).reliable() ==> transport.reliable(),
        decreases vol.cluster_count - chain@.len(),
    {
        let last = chain[chain.len() - 1];
        assert(in_volume(*vol, chain@[chain@.len() - 1] as int));
        let entry = match read_entry(transport, vol, last) {
            Err(e) => {
                return Err(FsError::Transport(e));
            },
            Ok(entry) => entry,
        };
        if entry >= FIRST_END_MARK {
            return Ok(chain);
        }
        let next = entry as u32;
        if next < 2 || next - 2 >= vol.cluster_count {
            assert forall|other: Seq<u32>| !is_chain(image, *vol, start as int, other) by {
                if is_chain(image, *vol, start as int, other) {
                    lemma_walk_is_prefix(
                        image,
                        *vol,
                        start as int,
                        chain@,
                        other,
                        chain@.len() - 1,
                    );
                    if other.len() > chain@.len() {
                        assert(in_volume(*vol, other[chain@.len() as int] as int));
                        assert(fat_entry(image, *vol, other[chain@.len() - 1] as int) == other[chain@.len() as int]);
                    }
                }
            }
            return Err(FsError::Volume(VolumeError::CorruptChain));
        }
        let ghost longer = chain@.push(next);
        assert(is_walk(image, *vol, start as int, longer));
        if chain.len() >= vol.cluster_count as usize {
            assert forall|other: Seq<u32>| !is_chain(image, *vol, start as int, other) by {
                if is_chain(image, *vol, start as int, other) {
                    lemma_walk_is_prefix(
                        image,
                        *vol,
                        start as int,
                        longer,
                        other,
                        longer.len() - 1,
                    );
                    lemma_chain_distinct(image, *vol, start as int, other);
                    lemma_distinct_clusters_bounded(*vol, other);
                }
            }
            return Err(FsError::Volume(VolumeError::CorruptChain));
        }
        chain.push(next);
    }
}

/// What an operation that only claims free clusters leaves behind: the
/// card keeps its size, every sector outside the table stays as it was, and
/// so does the entry of every cluster that was in use.
pub open spec fn nothing_lost(before: Seq<Seq<u8>>, after: Seq<Seq<u8>>, vol: Volume) -> bool {
    &&& after.len() == before.len()
    &&& forall|s: int|
        0 <= s < before.len() && !(vol.fat_start <= s < vol.fat_start + vol.fat_sectors)
            ==> #[trigger] after[s] == before[s]
    &&& forall|c: int|
        in_volume(vol, c) && !is_free(before, vol, c) ==> #[trigger] fat_entry(after, vol, c)
            == fat_entry(before, vol, c)
}

/// Appends the clusters of `fresh` to the chain that ends in `tail`.
///
/// Writes the entries of the fresh clusters first and the entry of `tail`
/// last, so that a failure leaves the chain that ends in `tail` as it was.
/// Touches no sector outside the table and no entry of another cluster.
pub fn extend_chain<B: CardBus>(
    transport: &mut BlockTransport<B>,
    vol: &Volume,
    tail: u32,
    fresh: &Vec<u32>,
) -> (r: Result<(), TransportError>)
    requires
        old(transport).wf(),
        vol.lies_on(old(transport).image()),
        in_volume(*vol, tail as int),
        fresh@.len() >= 1,
        fresh@.no_duplicates(),
        forall|i: int| 0 <= i < fresh@.len() ==> in_volume(*vol, #[trigger] fresh@[i] as int),
        forall|i: int| 0 <= i < fresh@.len() ==> #[trigger] fresh@[i] != tail,
    ensures
        final(transport).wf(),
        vol.lies_on(final(transport).image()),
        final(transport).image().len() == old(transport).image().len(),
        forall|s: int|
            0 <= s < old(transport).image().len() && !(vol.fat_start <= s < vol.fat_start
                + vol.fat_sectors) ==> #[trigger] final(transport).image()[s] == old(transport).image()[s],
        forall|c: int|
            in_volume(*vol, c) && c != tail && (forall|i: int|
                0 <= i < fresh@.len() ==> #[trigger] fresh@[i] != c) ==> #[trigger] fat_entry(
                final(transport).image(),
                *vol,
                c,
            ) == fat_entry(old(transport).image(), *vol, c),
        r is Ok ==> {
            &&& fat_entry(final(transport).image(), *vol, tail as int) == fresh@[0]
            &&& forall|i: int|
                0 <= i < fresh@.len() - 1 ==> fat_entry(
                    final(transport).image(),
                    *vol,
                    #[trigger] fresh@[i] as int,
                ) == fresh@[i + 1]
            &&& fat_entry(final(transport).image(), *vol, fresh@[fresh@.len() - 1] as int)
                == END_OF_CHAIN
        },
        r is Err ==> fat_entry(final(transport).image(), *vol, tail as int) == fat_entry(
            old(transport).image(),
            *vol,
            tail as int,
        ),
        old(transport).reliable() ==> r is Ok && final(transport).reliable(),
{
    let ghost first = transport.image();
    let count = fresh.len();
    let mut i: usize = 0;
    while i < count
        invariant
            transport.wf(),
            first == old(transport).image(),
            vol.lies_on(first),
            vol.lies_on(transport.image()),
            transport.image().len() == first.len(),
            count == fresh@.len(),
            i <= count,
            in_volume(*vol, tail as int),
            fresh@.no_duplicates(),
            forall|k: int| 0 <= k < fresh@.len() ==> in_volume(*vol, #[trigger] fresh@[k] as int),
            forall|k: int| 0 <= k < fresh@.len() ==> #[trigger] fresh@[k] != tail,
            forall|s: int|
                0 <= s < first.len() && !(vol.fat_start <= s < vol.fat_start + vol.fat_sectors)
                    ==> #[trigger] transport.image()[s] == first[s],
            forall|c: int|
                in_volume(*vol, c) && (forall|k: int| 0 <= k < i ==> #[trigger] fresh@[k] != c)
                    ==> #[trigger] fat_entry(transport.image(), *vol, c) == fat_entry(
                    first,
                    *vol,
                    c,
                ),
            forall|k: int|
                0 <= k < i ==> fat_entry(transport.image(), *vol, #[trigger] fresh@[k] as int) == (
                if k + 1 < count {
                    fresh@[k + 1] as int
                } else {
                    END_OF_CHAIN as int
                }),
            old(transport).reliable() ==> transport.reliable(),
        decreases count - i,
    {
        let ghost before = transport.image();
        let cluster = fresh[i];
        assert(in_volume(*vol, fresh@[i as int] as int));
        let value: u16 = if i + 1 < count {
            assert(in_volume(*vol, fresh@[i + 1] as int));
            fresh[i + 1] as u16
        } else {
            END_OF_CHAIN
        };
        proof {
            lemma_with_fat_entry(before, *vol, cluster as int, value as int);
            lemma_fat_sector_in_table(*vol, cluster as int);
        }
        match write_entry(transport, vol, cluster, value) {
            Err(e) => {
                assert(fresh@[i as int] != tail);
                return Err(e);
            },
            Ok(()) => {},
        }
        proof {
            let after = transport.image();
            assert forall|c: int|
                in_volume(*vol, c) && (forall|k: int|
                    0 <= k < i + 1 ==> #[trigger] fresh@[k] != c) implies #[trigger] fat_entry(
                after,
                *vol,
                c,
            ) == fat_entry(first, *vol, c) by {
                assert(fresh@[i as int] != c);
                assert forall|k: int| 0 <= k < i implies #[trigger] fresh@[k] != c by {}
            }
            assert forall|k: int| 0 <= k < i + 1 implies fat_entry(
                after,
                *vol,
                #[trigger] fresh@[k] as int,
            ) == (if k + 1 < count {
                fresh@[k + 1] as int
            } else {
                END_OF_CHAIN as int
            }) by {
                if k < i {
                    assert(fresh@[k] != fresh@[i as int]);
                    assert(in_volume(*vol, fresh@[k] as int));
                }
            }
        }
        i = i + 1;
    }
    let ghost before = transport.image();
    assert(in_volume(*vol, fresh@[0] as int));
    proof {
        lemma_with_fat_entry(before, *vol, tail as int, fresh@[0] as int);
        lemma_fat_sector_in_table(*vol, tail as int);
        assert forall|k: int| 0 <= k < fresh@.len() implies #[trigger] fresh@[k] != tail by {}
    }
    let r = write_entry(transport, vol, tail, fresh[0] as u16);
    proof {
        let after = transport.image();
        if r is Ok {
            assert forall|k: int| 0 <= k < fresh@.len() implies fat_entry(
                after,
                *vol,
                #[trigger] fresh@[k] as int,
            ) == fat_entry(before, *vol, fresh@[k] as int) by {
                assert(fresh@[k] != tail);
                assert(in_volume(*vol, fresh@[k] as int));
            }
        }
    }
    r
}

/// Finds the `want` lowest-numbered free clusters, in rising order.
///
/// Fails with `NoFreeCluster` exactly where fewer than `want` clusters are
/// free, unless the card fails a command first. Changes no sector.
pub fn find_free<B: CardBus>(transport: &mut BlockTransport<B>, vol: &Volume, want: u32) -> (r:
    Result<Vec<u32>, FsError>)
    requires
        old(transport).wf(),
        vol.lies_on(old(transport).image()),
    ensures
        final(transport).wf(),
        final(transport).image() == old(transport).image(),
        r matches Ok(found) ==> found@.len() == want && lowest_free(
            old(transport).image(),
            *vol,
            found@,
        ) && want <= free_count(old(transport).image(), *vol),
        r matches Err(e) ==> (e matches FsError::Transport(_) && !old(transport).reliable()) || (e
            == FsError::Capacity(CapacityError::NoFreeCluster) && free_count(
            old(transport).image(),
            *vol,
        ) < want),
        old(transport).reliable() ==> final(transport).reliable(),
{
    let ghost image = transport.image();
    let mut found: Vec<u32> = Vec::new();
    let mut cluster: u32 = 2;
    let end: u32 = vol.cluster_count + 2;
    while cluster < end && found.len() < want as usize
        invariant
            transport.wf(),
            transport.image() == image,
            image == old(transport).image(),
            vol.lies_on(image),
            end == vol.cluster_count + 2,
            2 <= cluster <= end,
            found@.len() <= want,
            found@.len() == free_below(image, *vol, cluster as int),
            lowest_free(image, *vol, found@),
            old(transport).reliable() ==> transport.reliable(),
        decreases end - cluster,
    {
        let entry = match read_entry(transport, vol, cluster) {
            Err(e) => {
                return Err(FsError::Transport(e));
            },
            Ok(entry) => entry,
        };
        if entry == 0 {
            found.push(cluster);
        }
        cluster = cluster + 1;
    }
    proof {
        lemma_free_below_grows(image, *vol, cluster as int, end as int);
    }
    if found.len() < want as usize {
        Err(FsError::Capacity(CapacityError::NoFreeCluster))
    } else {
        Ok(found)
    }
}

} // verus!
