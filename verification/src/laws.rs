//! What the operations guarantee together.
use vstd::prelude::*;
use crate::clock::Timestamp;
use crate::data::{
    cluster_sector,
    file_sector,
    lemma_clusters_for,
    lemma_file_sector_bounds,
    stream_byte,
};
use crate::dir::{lemma_same_root_found, lemma_same_root_slot, same_root};
use crate::fat::{fat_entry, in_volume, is_chain, is_free};
use crate::error::FsError;
use crate::append::{append_undone, appended, spares_others};
use crate::file::{
    closed,
    lemma_closed_file,
    lemma_stored_file,
    readable,
    stored_file,
    stored_size,
    OpenFileHandle,
};
use crate::volume::{mount_result, Volume};

verus! {

/// Appending to a file and closing it leaves, on the card, a file whose
/// recorded size is the former size plus the data's length and whose
/// content is the former content followed by the data. That is what opening
/// the file again, or reading it, finds.
pub proof fn lemma_append_then_close(
    before: Seq<Seq<u8>>,
    stored: Seq<Seq<u8>>,
    after: Seq<Seq<u8>>,
    vol: Volume,
    was: OpenFileHandle,
    data: Seq<u8>,
    now_is: OpenFileHandle,
    now: Timestamp,
)
    requires
        vol.lies_on(before),
        vol.lies_on(stored),
        was.valid_on(before, vol),
        appended(before, stored, vol, was, data, now_is),
        closed(stored, after, vol, now_is, now),
    ensures
        stored_size(after, vol, was.entry.name@) == was.entry.size + data.len(),
        readable(after, vol, was.entry.name@),
        stored_file(after, vol, was.entry.name@) == Some(was.content(before, vol) + data),
{
    lemma_closed_file(stored, after, vol, now_is, now);
}

/// Appending gives a file exactly the clusters that its new size needs,
/// unless it had more, and no cluster twice. No smaller count of clusters
/// would hold the new size.
pub proof fn lemma_append_allocates_exactly(
    before: Seq<Seq<u8>>,
    after: Seq<Seq<u8>>,
    vol: Volume,
    was: OpenFileHandle,
    data: Seq<u8>,
    now_is: OpenFileHandle,
)
    requires
        vol.lies_on(before),
        was.valid_on(before, vol),
        appended(before, after, vol, was, data, now_is),
    ensures
        now_is.chain@.no_duplicates(),
        now_is.chain@.len() >= was.chain@.len(),
        now_is.chain@.len() > was.chain@.len() ==> {
            &&& now_is.entry.size <= 512 * (now_is.chain@.len() * vol.sectors_per_cluster)
            &&& 512 * ((now_is.chain@.len() - 1) * vol.sectors_per_cluster) < now_is.entry.size
        },
{
    lemma_clusters_for(vol, now_is.entry.size as int);
}

/// An append, failed or not, spares every other file: one that shares no
/// cluster with the file appended to is found, chained and read as before.
pub proof fn lemma_append_spares_other_files(
    before: Seq<Seq<u8>>,
    after: Seq<Seq<u8>>,
    vol: Volume,
    chain: Seq<u32>,
    other: OpenFileHandle,
)
    requires
        vol.lies_on(before),
        after.len() == before.len(),
        chain.len() >= 1,
        spares_others(before, after, vol, chain),
        other.valid_on(before, vol),
        other.entry.size == other.recorded_size(before, vol),
        forall|i: int, j: int|
            0 <= i < chain.len() && 0 <= j < other.chain@.len() ==> #[trigger] chain[i]
                != #[trigger] other.chain@[j],
    ensures
        other.valid_on(after, vol),
        other.content(after, vol) == other.content(before, vol),
        stored_file(after, vol, other.entry.name@) == stored_file(before, vol, other.entry.name@),
{
    let theirs = other.chain@;
    assert(same_root(before, after, vol));
    lemma_same_root_found(before, after, vol, other.entry.name@, other.slot as int);
    lemma_same_root_slot(before, after, vol, other.slot as int);
    assert forall|j: int| 0 <= j < theirs.len() implies fat_entry(
        after,
        vol,
        #[trigger] theirs[j] as int,
    ) == fat_entry(before, vol, theirs[j] as int) by {
        assert(in_volume(vol, theirs[j] as int));
        if j < theirs.len() - 1 {
            assert(in_volume(vol, theirs[j + 1] as int));
        }
        assert(chain[chain.len() - 1] != theirs[j]);
    }
    assert(is_chain(after, vol, other.entry.first_cluster as int, theirs));
    assert(other.content(after, vol) =~= other.content(before, vol)) by {
        assert forall|p: int| 0 <= p < other.entry.size implies stream_byte(after, vol, theirs, p)
            == stream_byte(before, vol, theirs, p) by {
            let per = vol.sectors_per_cluster as int;
            let q = p / 512;
            lemma_file_sector_bounds(vol, theirs, q);
            let c = theirs[q / per] as int;
            assert(in_volume(vol, c));
            assert(!is_free(before, vol, c)) by {
                if q / per < theirs.len() - 1 {
                    assert(in_volume(vol, theirs[q / per + 1] as int));
                }
            }
            assert forall|i: int| 0 <= i < chain.len() implies #[trigger] chain[i] != c by {
                assert(chain[i] != theirs[q / per]);
            }
            assert(file_sector(vol, theirs, q) == cluster_sector(vol, c, q % per));
        }
    }
    lemma_stored_file(before, vol, other);
    lemma_stored_file(after, vol, other);
}

/// A failed append leaves the size that the directory records, and the
/// size that the handle holds, as they were.
pub proof fn lemma_failed_append_keeps_size(
    before: Seq<Seq<u8>>,
    after: Seq<Seq<u8>>,
    vol: Volume,
    was: OpenFileHandle,
    now_is: OpenFileHandle,
)
    requires
        now_is == was,
        append_undone(before, after, vol, was),
    ensures
        now_is.recorded_size(after, vol) == was.recorded_size(before, vol),
        now_is.entry.size == was.entry.size,
        now_is.content(after, vol) == was.content(before, vol),
{
}

/// Mounting the same sectors twice gives the same volume, or the same
/// volume error, unless the card fails a command.
pub proof fn lemma_mount_repeats(
    image: Seq<Seq<u8>>,
    first: Result<Volume, FsError>,
    second: Result<Volume, FsError>,
)
    requires
        mount_result(image, first),
        mount_result(image, second),
        !(first matches Err(FsError::Transport(_))),
        !(second matches Err(FsError::Transport(_))),
    ensures
        first == second,
{
}

} // verus!
