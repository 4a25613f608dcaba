//! The data region: where the bytes of a file lie, given its cluster chain.
//!
//! Cluster `c` takes the sectors from `data_start + (c - 2) * sectors_per_cluster`
//! on. The bytes of a file are those of its clusters, in chain order.
use vstd::prelude::*;
use vstd::arithmetic::div_mod::{
    lemma_div_pos_is_pos,
    lemma_fundamental_div_mod,
    lemma_mod_bound,
    lemma_multiply_divide_lt,
};
use vstd::arithmetic::mul::lemma_mul_is_commutative;
use crate::block::Block;
use crate::bus::CardBus;
use crate::error::TransportError;
use crate::fat::in_volume;
use crate::transport::BlockTransport;
use crate::volume::Volume;

verus! {

/// Sector `k` of cluster `cluster`.
pub open spec fn cluster_sector(vol: Volume, cluster: int, k: int) -> int {
    vol.data_start + (cluster - 2) * vol.sectors_per_cluster + k
}

/// Every cluster of the list lies in the volume.
pub open spec fn clusters_in_volume(vol: Volume, chain: Seq<u32>) -> bool {
    forall|i: int| 0 <= i < chain.len() ==> in_volume(vol, #[trigger] chain[i] as int)
}

/// Sectors that the clusters of a chain hold together.
pub open spec fn chain_sectors(vol: Volume, chain: Seq<u32>) -> int {
    chain.len() * vol.sectors_per_cluster
}

/// The sector that holds sector `q` of a file, counted from the file's
/// start.
pub open spec fn file_sector(vol: Volume, chain: Seq<u32>, q: int) -> int {
    cluster_sector(
        vol,
        chain[q / (vol.sectors_per_cluster as int)] as int,
        q % (vol.sectors_per_cluster as int),
    )
}

/// Whether sector `s` of the card is one of a file's sectors.
pub open spec fn is_file_sector(vol: Volume, chain: Seq<u32>, s: int) -> bool {
    exists|q: int| 0 <= q < chain_sectors(vol, chain) && #[trigger] file_sector(vol, chain, q) == s
}

/// Byte `p` of the clusters of a chain, in chain order.
pub open spec fn stream_byte(image: Seq<Seq<u8>>, vol: Volume, chain: Seq<u32>, p: int) -> u8 {
    image[file_sector(vol, chain, p / 512)][p % 512]
}

/// The first `len` bytes of the clusters of a chain, in chain order.
pub open spec fn stream(image: Seq<Seq<u8>>, vol: Volume, chain: Seq<u32>, len: int) -> Seq<u8> {
    Seq::new(len as nat, |p: int| stream_byte(image, vol, chain, p))
}

/// Clusters needed to hold `size` bytes: the least count whose sectors
/// hold them.
pub open spec fn clusters_for(vol: Volume, size: int) -> int {
    ((size + 511) / 512 + vol.sectors_per_cluster - 1) / (vol.sectors_per_cluster as int)
}

/// A sector number below `count * per` splits into a cluster index below
/// `count` and a sector below `per` within the cluster.
pub proof fn lemma_split(q: int, per: int, count: int)
    requires
        per > 0,
        0 <= q < count * per,
    ensures
        0 <= q / per < count,
        0 <= q % per < per,
        q == (q / per) * per + q % per,
{
    lemma_fundamental_div_mod(q, per);
    lemma_mod_bound(q, per);
    lemma_div_pos_is_pos(q, per);
    lemma_mul_is_commutative(count, per);
    lemma_multiply_divide_lt(q, per, count);
    lemma_mul_is_commutative(per, q / per);
}

/// Sector `k` of the cluster with index `index` comes before the end of
/// `count` clusters.
proof fn lemma_cluster_offset(index: int, per: int, k: int, count: int)
    by (nonlinear_arith)
    requires
        0 <= index < count,
        0 <= k < per,
    ensures
        0 <= index * per,
        index * per + k < count * per,
{
}

/// Two places in clusters are the same sector only if they are the same
/// cluster and the same sector within it.
proof fn lemma_same_sector(a: int, ka: int, b: int, kb: int, per: int)
    by (nonlinear_arith)
    requires
        0 <= ka < per,
        0 <= kb < per,
        a * per + ka == b * per + kb,
    ensures
        a == b,
        ka == kb,
{
}

/// The sectors of a cluster of the volume lie in its data region.
pub proof fn lemma_cluster_sector_bounds(vol: Volume, cluster: int, k: int)
    requires
        vol.wf(),
        in_volume(vol, cluster),
        0 <= k < vol.sectors_per_cluster,
    ensures
        0 <= (cluster - 2) * vol.sectors_per_cluster,
        vol.data_start <= cluster_sector(vol, cluster, k) < vol.end(),
{
    lemma_cluster_offset(
        cluster - 2,
        vol.sectors_per_cluster as int,
        k,
        vol.cluster_count as int,
    );
}

/// The sectors of a file lie in the data region.
pub proof fn lemma_file_sector_bounds(vol: Volume, chain: Seq<u32>, q: int)
    requires
        vol.wf(),
        clusters_in_volume(vol, chain),
        0 <= q < chain_sectors(vol, chain),
    ensures
        0 <= q / (vol.sectors_per_cluster as int) < chain.len(),
        0 <= q % (vol.sectors_per_cluster as int) < vol.sectors_per_cluster,
        vol.data_start <= file_sector(vol, chain, q) < vol.end(),
{
    let per = vol.sectors_per_cluster as int;
    lemma_split(q, per, chain.len() as int);
    assert(in_volume(vol, chain[q / per] as int));
    lemma_cluster_sector_bounds(vol, chain[q / per] as int, q % per);
}

/// Different sectors of a file lie in different sectors of the card.
pub proof fn lemma_file_sector_injective(vol: Volume, chain: Seq<u32>, q1: int, q2: int)
    requires
        vol.wf(),
        clusters_in_volume(vol, chain),
        chain.no_duplicates(),
        0 <= q1 < chain_sectors(vol, chain),
        0 <= q2 < chain_sectors(vol, chain),
        file_sector(vol, chain, q1) == file_sector(vol, chain, q2),
    ensures
        q1 == q2,
{
    let per = vol.sectors_per_cluster as int;
    lemma_split(q1, per, chain.len() as int);
    lemma_split(q2, per, chain.len() as int);
    lemma_same_sector(
        chain[q1 / per] as int - 2,
        q1 % per,
        chain[q2 / per] as int - 2,
        q2 % per,
        per,
    );
}

/// A file's sectors are those of its chain's beginning, as far as that
/// reaches.
pub proof fn lemma_file_sector_prefix(vol: Volume, chain: Seq<u32>, longer: Seq<u32>, q: int)
    requires
        vol.wf(),
        chain.len() <= longer.len(),
        forall|i: int| 0 <= i < chain.len() ==> chain[i] == longer[i],
        0 <= q < chain_sectors(vol, chain),
    ensures
        file_sector(vol, chain, q) == file_sector(vol, longer, q),
{
    lemma_split(q, vol.sectors_per_cluster as int, chain.len() as int);
}

/// `clusters_for` is the least count of clusters whose sectors hold `size`
/// bytes.
pub proof fn lemma_clusters_for(vol: Volume, size: int)
    requires
        vol.sectors_per_cluster > 0,
        0 <= size,
    ensures
        0 <= clusters_for(vol, size),
        size <= 512 * (clusters_for(vol, size) * vol.sectors_per_cluster),
        size > 0 ==> clusters_for(vol, size) >= 1 && 512 * ((clusters_for(vol, size) - 1)
            * vol.sectors_per_cluster) < size,
        size == 0 ==> clusters_for(vol, size) == 0,
{
    let per = vol.sectors_per_cluster as int;
    let sectors = (size + 511) / 512;
    let count = (sectors + per - 1) / per;
    lemma_fundamental_div_mod(sectors + per - 1, per);
    lemma_mod_bound(sectors + per - 1, per);
    lemma_div_pos_is_pos(sectors + per - 1, per);
    lemma_mul_is_commutative(per, count);
    assert(count * per >= sectors);
    assert((count - 1) * per == count * per - per) by (nonlinear_arith);
    if size == 0 {
        assert(count * per < per);
        assert(count == 0) by (nonlinear_arith)
            requires
                0 <= count,
                count * per < per,
                per > 0,
        ;
    } else {
        assert(count >= 1) by (nonlinear_arith)
            requires
                count * per >= sectors,
                sectors >= 1,
                per > 0,
                0 <= count,
        ;
    }
}

/// More clusters hold more sectors.
pub proof fn lemma_sectors_grow(a: int, b: int, per: int)
    by (nonlinear_arith)
    requires
        0 <= a <= b,
        0 <= per,
    ensures
        0 <= a * per <= b * per,
{
}

/// Clusters needed to hold `size` bytes.
pub fn clusters_needed(vol: &Volume, size: u32) -> (count: u32)
    requires
        vol.sectors_per_cluster > 0,
    ensures
        count == clusters_for(*vol, size as int),
{
    let per = vol.sectors_per_cluster as u64;
    let sectors: u64 = (size as u64 + 511) / 512;
    proof {
        lemma_clusters_for(*vol, size as int);
        let n = clusters_for(*vol, size as int);
        if n > 8388608 {
            lemma_sectors_grow(8388608, n - 1, per as int);
        }
    }
    ((sectors + per - 1) / per) as u32
}

/// The sectors of a cluster that a chain does not list are none of the
/// chain's file sectors.
pub proof fn lemma_foreign_cluster_sector(vol: Volume, chain: Seq<u32>, cluster: int, k: int)
    requires
        vol.wf(),
        clusters_in_volume(vol, chain),
        in_volume(vol, cluster),
        0 <= k < vol.sectors_per_cluster,
        forall|i: int| 0 <= i < chain.len() ==> #[trigger] chain[i] != cluster,
    ensures
        !is_file_sector(vol, chain, cluster_sector(vol, cluster, k)),
{
    let per = vol.sectors_per_cluster as int;
    assert forall|q: int| 0 <= q < chain_sectors(vol, chain) implies #[trigger] file_sector(
        vol,
        chain,
        q,
    ) != cluster_sector(vol, cluster, k) by {
        lemma_split(q, per, chain.len() as int);
        if file_sector(vol, chain, q) == cluster_sector(vol, cluster, k) {
            lemma_same_sector(chain[q / per] as int - 2, q % per, cluster - 2, k, per);
            assert(chain[q / per] != cluster);
        }
    }
}

/// The data regions of two images agree.
pub open spec fn same_data(a: Seq<Seq<u8>>, b: Seq<Seq<u8>>, vol: Volume) -> bool {
    forall|s: int| vol.data_start <= s < vol.end() ==> a[s] == b[s]
}

/// Images with the same data region hold the same bytes in every chain.
pub proof fn lemma_same_data_stream(
    a: Seq<Seq<u8>>,
    b: Seq<Seq<u8>>,
    vol: Volume,
    chain: Seq<u32>,
    len: int,
)
    requires
        vol.wf(),
        same_data(a, b, vol),
        clusters_in_volume(vol, chain),
        0 <= len <= 512 * chain_sectors(vol, chain),
    ensures
        stream(a, vol, chain, len) == stream(b, vol, chain, len),
{
    assert forall|p: int| 0 <= p < len implies stream_byte(a, vol, chain, p) == stream_byte(
        b,
        vol,
        chain,
        p,
    ) by {
        lemma_file_sector_bounds(vol, chain, p / 512);
    }
    assert(stream(a, vol, chain, len) =~= stream(b, vol, chain, len));
}

/// The sector of the card that holds sector `q` of a file.
pub fn locate(vol: &Volume, chain: &Vec<u32>, q: u32) -> (sector: u32)
    requires
        vol.wf(),
        clusters_in_volume(*vol, chain@),
        q < chain_sectors(*vol, chain@),
    ensures
        sector == file_sector(*vol, chain@, q as int),
        vol.data_start <= sector < vol.end(),
{
    let per = vol.sectors_per_cluster as u32;
    proof {
        lemma_file_sector_bounds(*vol, chain@, q as int);
    }
    let index = q / per;
    let k = q % per;
    let cluster = chain[index as usize];
    proof {
        assert(in_volume(*vol, chain@[index as int] as int));
        lemma_cluster_sector_bounds(*vol, cluster as int, k as int);
    }
    vol.data_start + (cluster - 2) * per + k
}

/// Stores `data` at byte `from` and onward of a chain's clusters.
///
/// Touches no sector before the data region and no byte of the chain's
/// clusters before `from`, whether it succeeds or not. On success the bytes
/// from `from` on are those of `data`.
pub fn write_stream<B: CardBus>(
    transport: &mut BlockTransport<B>,
    vol: &Volume,
    chain: &Vec<u32>,
    from: u32,
    data: &[u8],
) -> (r: Result<(), TransportError>)
    requires
        old(transport).wf(),
        vol.lies_on(old(transport).image()),
        clusters_in_volume(*vol, chain@),
        chain@.no_duplicates(),
        from + data@.len() <= 512 * chain_sectors(*vol, chain@),
        from + data@.len() <= u32::MAX,
    ensures
        final(transport).wf(),
        final(transport).image().len() == old(transport).image().len(),
        vol.lies_on(final(transport).image()),
        forall|s: int|
            0 <= s < vol.data_start ==> #[trigger] final(transport).image()[s] == old(transport).image()[s],
        forall|s: int|
            0 <= s < old(transport).image().len() && !is_file_sector(*vol, chain@, s)
                ==> #[trigger] final(transport).image()[s] == old(transport).image()[s],
        forall|p: int|
            0 <= p < from ==> #[trigger] stream_byte(final(transport).image(), *vol, chain@, p)
                == stream_byte(old(transport).image(), *vol, chain@, p),
        r is Ok ==> forall|p: int|
            from <= p < from + data@.len() ==> #[trigger] stream_byte(
                final(transport).image(),
                *vol,
                chain@,
                p,
            ) == data@[p - from],
        old(transport).reliable() ==> r is Ok && final(transport).reliable(),
{
    let ghost first = transport.image();
    let end: u32 = from + data.len() as u32;
    let mut pos: u32 = from;
    while pos < end
        invariant
            transport.wf(),
            first == old(transport).image(),
            transport.image().len() == first.len(),
            vol.lies_on(transport.image()),
            clusters_in_volume(*vol, chain@),
            chain@.no_duplicates(),
            from <= pos <= end,
            end == from + data@.len(),
            end <= 512 * chain_sectors(*vol, chain@),
            forall|s: int| 0 <= s < vol.data_start ==> #[trigger] transport.image()[s] == first[s],
            forall|s: int|
                0 <= s < first.len() && !is_file_sector(*vol, chain@, s)
                    ==> #[trigger] transport.image()[s] == first[s],
            forall|p: int|
                0 <= p < from ==> #[trigger] stream_byte(transport.image(), *vol, chain@, p)
                    == stream_byte(first, *vol, chain@, p),
            forall|p: int|
                from <= p < pos ==> #[trigger] stream_byte(transport.image(), *vol, chain@, p)
                    == data@[p - from],
            old(transport).reliable() ==> transport.reliable(),
        decreases end - pos,
    {
        let ghost before = transport.image();
        let q: u32 = pos / 512;
        let at: usize = (pos % 512) as usize;
        let room: usize = 512 - at;
        let left: usize = (end - pos) as usize;
        let n: usize = if left < room {
            left
        } else {
            room
        };
        let sector = locate(vol, chain, q);
        assert(is_file_sector(*vol, chain@, sector as int)) by {
            assert(q < chain_sectors(*vol, chain@));
            assert(file_sector(*vol, chain@, q as int) == sector);
        }
        let mut block = if n == 512 {
            Block::zeroed()
        } else {
            match transport.read_block(sector) {
                Err(e) => {
                    return Err(e);
                },
                Ok(b) => b,
            }
        };
        let ghost loaded = block@;
        let base: usize = (pos - from) as usize;
        let mut j: usize = 0;
        while j < n
            invariant
                j <= n,
                at + n <= 512,
                base + n <= data@.len() <= usize::MAX,
                block@.len() == 512,
                loaded.len() == 512,
                forall|m: int| at <= m < at + j ==> block@[m] == data@[base + m - at],
                forall|m: int| 0 <= m < 512 && !(at <= m < at + j) ==> block@[m] == loaded[m],
            decreases n - j,
        {
            block.set(at + j, data[base + j]);
            j = j + 1;
        }
        match transport.write_block(sector, &block) {
            Err(e) => {
                return Err(e);
            },
            Ok(()) => {},
        }
        proof {
            let after = transport.image();
            assert(after == before.update(sector as int, block@));
            assert forall|p: int| 0 <= p < pos + n implies #[trigger] stream_byte(
                after,
                *vol,
                chain@,
                p,
            ) == (if p < from {
                stream_byte(first, *vol, chain@, p)
            } else {
                data@[p - from]
            }) by {
                lemma_file_sector_bounds(*vol, chain@, p / 512);
                if file_sector(*vol, chain@, p / 512) == sector {
                    lemma_file_sector_injective(*vol, chain@, p / 512, q as int);
                    if p < pos {
                        assert(p % 512 < at);
                        assert(n < 512);
                        assert(block@[p % 512] == loaded[p % 512]);
                        assert(loaded == before[sector as int]);
                        assert(stream_byte(before, *vol, chain@, p) == before[sector as int][p % 512]);
                    } else {
                        assert(at <= p % 512 < at + n);
                    }
                } else {
                    assert(stream_byte(before, *vol, chain@, p) == stream_byte(after, *vol, chain@, p));
                }
            }
        }
        pos = pos + n as u32;
    }
    Ok(())
}

/// Reads the first `len` bytes of a chain's clusters. Changes no sector.
pub fn read_stream<B: CardBus>(
    transport: &mut BlockTransport<B>,
    vol: &Volume,
    chain: &Vec<u32>,
    len: u32,
) -> (r: Result<Vec<u8>, TransportError>)
    requires
        old(transport).wf(),
        vol.lies_on(old(transport).image()),
        clusters_in_volume(*vol, chain@),
        len <= 512 * chain_sectors(*vol, chain@),
    ensures
        final(transport).wf(),
        final(transport).image() == old(transport).image(),
        r matches Ok(bytes) ==> bytes@ == stream(old(transport).image(), *vol, chain@, len as int),
        old(transport).reliable() ==> r is Ok && final(transport).reliable(),
{
    let ghost image = transport.image();
    let mut out: Vec<u8> = Vec::new();
    let mut pos: u32 = 0;
    while pos < len
        invariant
            transport.wf(),
            transport.image() == image,
            image == old(transport).image(),
            vol.lies_on(image),
            clusters_in_volume(*vol, chain@),
            len <= 512 * chain_sectors(*vol, chain@),
            pos <= len,
            pos % 512 == 0 || pos == len,
            out@.len() == pos,
            forall|p: int| 0 <= p < pos ==> out@[p] == stream_byte(image, *vol, chain@, p),
            old(transport).reliable() ==> transport.reliable(),
        decreases len - pos,
    {
        let sector = locate(vol, chain, pos / 512);
        let block = match transport.read_block(sector) {
            Err(e) => {
                return Err(e);
            },
            Ok(b) => b,
        };
        let left: u32 = len - pos;
        let n: usize = if left < 512 {
            left as usize
        } else {
            512
        };
        let mut j: usize = 0;
        while j < n
            invariant
                j <= n <= 512,
                pos + n <= len,
                pos % 512 == 0,
                out@.len() == pos + j,
                block@ == image[file_sector(*vol, chain@, pos as int / 512)],
                forall|p: int| 0 <= p < pos + j ==> out@[p] == stream_byte(image, *vol, chain@, p),
            decreases n - j,
        {
            out.push(block.get(j));
            assert((pos + j) / 512 == pos as int / 512 && (pos + j) % 512 == j);
            j = j + 1;
        }
        pos = pos + n as u32;
    }
    assert(out@ =~= stream(image, *vol, chain@, len as int));
    Ok(out)
}

} // verus!
