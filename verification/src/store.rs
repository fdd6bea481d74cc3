//! The persistent store: a durable map from position identity to an
//! encoded statistics record, with merge-on-write. Keys are stored as the
//! 8-byte big-endian form of the identity, so the backend's sorted order
//! is ascending identity order.

use vstd::prelude::*;
use crate::codec::{decode, decode_stats, encode, encode_stats, lemma_round_trip};
use crate::stats::{
    combine, combine_records, lemma_combine_zero, record_of, views_of_moves, wf_stats,
    zero_record, MoveView, PositionStats, RecordView, StatsView,
};

verus! {

#[verifier::external_type_specification]
#[verifier::external_body]
pub struct ExDb(sled::Db);

#[verifier::external_type_specification]
#[verifier::external_body]
pub struct ExSledError(sled::Error);

/// What the tree durably holds: the value bytes stored under the 8-byte
/// big-endian form of each identity, keyed by the identity itself.
pub uninterp spec fn db_contents(db: sled::Db) -> Map<u64, Seq<u8>>;

/// A store with no records at all.
pub open spec fn empty_contents() -> Map<u64, Seq<u8>> {
    Map::empty()
}

/// Relies on sled::Config::open with temporary(true): the tree is created
/// fresh in a temporary location, starts empty, and is removed on drop.
#[verifier::external_body]
fn open_temporary_tree() -> (r: Result<sled::Db, sled::Error>)
    ensures
        r is Ok ==> db_contents(r->Ok_0) == empty_contents(),
{
    sled::Config::new().temporary(true).open()
}

/// Relies on sled::open: it opens or creates the tree stored at `path`.
/// Nothing is known of the records already on disk there.
#[verifier::external_body]
fn open_tree(path: &str) -> (r: Result<sled::Db, sled::Error>) {
    sled::open(path)
}

/// Relies on sled::Tree::get: it returns the value stored under the key,
/// or nothing when the key is absent.
#[verifier::external_body]
fn tree_get(db: &sled::Db, key: u64) -> (r: Result<Option<Vec<u8>>, sled::Error>)
    ensures
        r matches Ok(v) ==> match v {
            Some(bytes) => db_contents(*db).contains_key(key) && bytes@ == db_contents(*db)[key],
            None => !db_contents(*db).contains_key(key),
        },
{
    match db.get(key.to_be_bytes()) {
        Ok(Some(ivec)) => Ok(Some(ivec.as_ref().to_vec())),
        Ok(None) => Ok(None),
        Err(e) => Err(e),
    }
}

/// Relies on sled::Tree::insert: it sets the value stored under the key,
/// atomically for that key. When it reports failure the write either took
/// effect or did not; no third state is left behind.
#[verifier::external_body]
fn tree_insert(db: &mut sled::Db, key: u64, value: &Vec<u8>) -> (r: Result<(), sled::Error>)
    ensures
        r is Ok ==> db_contents(*final(db)) == db_contents(*old(db)).insert(key, value@),
        r is Err ==> db_contents(*final(db)) == db_contents(*old(db)) || db_contents(*final(db))
            == db_contents(*old(db)).insert(key, value@),
{
    match db.insert(key.to_be_bytes(), value.as_slice()) {
        Ok(_) => Ok(()),
        Err(e) => Err(e),
    }
}

/// Relies on sled::Tree::flush: it forces previous writes to durable
/// storage and leaves the contents unchanged.
#[verifier::external_body]
fn tree_flush(db: &mut sled::Db) -> (r: Result<(), sled::Error>)
    ensures
        db_contents(*final(db)) == db_contents(*old(db)),
{
    match db.flush() {
        Ok(_) => Ok(()),
        Err(e) => Err(e),
    }
}

/// Why a store operation failed.
#[derive(Clone, Copy, PartialEq, Eq, Structural, Debug)]
pub enum StoreError {
    /// The backend reported an I/O or internal failure.
    Backend,
    /// The bytes stored under the key are not a well-formed record. Never
    /// read as absence: absence is an `Ok(None)` from `get_stats`.
    Corrupt,
}

/// The record a key currently denotes: the zero record when the key is
/// absent, the decoded record when it holds a well-formed encoding, and
/// nothing when it holds corrupt bytes.
pub open spec fn stored_record(m: Map<u64, Seq<u8>>, id: u64) -> Option<RecordView> {
    if m.contains_key(id) {
        match decode_stats(m[id]) {
            Some(v) => Some(record_of(v)),
            None => None,
        }
    } else {
        Some(zero_record())
    }
}

/// `merged` is the record that a merge of `delta` into `id` wrote: it is
/// well formed, decodes from its own encoding, stands under the key, and
/// its abstract view is the prior record combined with the delta's.
pub open spec fn is_merge_witness(
    pre: Map<u64, Seq<u8>>,
    post: Map<u64, Seq<u8>>,
    id: u64,
    delta: StatsView,
    merged: StatsView,
) -> bool {
    &&& wf_stats(merged)
    &&& decode_stats(encode_stats(merged)) == Some(merged)
    &&& post == pre.insert(id, encode_stats(merged))
    &&& match stored_record(pre, id) {
        Some(prior) => record_of(merged) == combine_records(prior, record_of(delta)),
        None => false,
    }
}

/// The store moved from `pre` to `post` by merging `delta` into `id`.
pub open spec fn merged_into(
    pre: Map<u64, Seq<u8>>,
    post: Map<u64, Seq<u8>>,
    id: u64,
    delta: StatsView,
) -> bool {
    exists|merged: StatsView| #[trigger] is_merge_witness(pre, post, id, delta, merged)
}

/// Law: merging `d1` then `d2` into a key leaves the key denoting the
/// same record as one merge of a delta that combines `d1` and `d2`.
pub proof fn lemma_merge_twice_equals_merge_combined(
    m0: Map<u64, Seq<u8>>,
    m1: Map<u64, Seq<u8>>,
    m2: Map<u64, Seq<u8>>,
    mc: Map<u64, Seq<u8>>,
    id: u64,
    d1: StatsView,
    d2: StatsView,
    dc: StatsView,
)
    requires
        merged_into(m0, m1, id, d1),
        merged_into(m1, m2, id, d2),
        merged_into(m0, mc, id, dc),
        record_of(dc) == combine_records(record_of(d1), record_of(d2)),
    ensures
        stored_record(m2, id) == stored_record(mc, id),
{
    let g1 = choose|g: StatsView| #[trigger] is_merge_witness(m0, m1, id, d1, g);
    assert(is_merge_witness(m0, m1, id, d1, g1));
    let g2 = choose|g: StatsView| #[trigger] is_merge_witness(m1, m2, id, d2, g);
    let gc = choose|g: StatsView| #[trigger] is_merge_witness(m0, mc, id, dc, g);
    let prior0 = stored_record(m0, id)->Some_0;
    assert(stored_record(m1, id) == Some(record_of(g1)));
    assert(record_of(g2) == combine_records(
        combine_records(prior0, record_of(d1)),
        record_of(d2),
    ));
    assert(record_of(gc) == combine_records(
        prior0,
        combine_records(record_of(d1), record_of(d2)),
    ));
    crate::stats::lemma_combine_records_assoc(prior0, record_of(d1), record_of(d2));
    assert(stored_record(m2, id) == Some(record_of(g2)));
    assert(stored_record(mc, id) == Some(record_of(gc)));
}

/// Law: after a merge into a key the store did not hold, the key denotes
/// exactly the merged delta — a read right after a first write gives the
/// delta back.
pub proof fn lemma_fresh_merge_reads_back(
    pre: Map<u64, Seq<u8>>,
    post: Map<u64, Seq<u8>>,
    id: u64,
    d: StatsView,
)
    requires
        !pre.contains_key(id),
        merged_into(pre, post, id, d),
    ensures
        stored_record(post, id) == Some(record_of(d)),
{
    let g = choose|g: StatsView| #[trigger] is_merge_witness(pre, post, id, d, g);
    lemma_combine_zero(record_of(d));
    assert(stored_record(pre, id) == Some(zero_record()));
    assert(record_of(g) == record_of(d));
    assert(stored_record(post, id) == Some(record_of(g)));
}

/// A durable keyed store of statistics records: one tree on disk, owned
/// for the life of the process and flushed on shutdown.
pub struct Database {
    tree: sled::Db,
}

impl View for Database {
    type V = Map<u64, Seq<u8>>;

    closed spec fn view(&self) -> Map<u64, Seq<u8>> {
        db_contents(self.tree)
    }
}

impl Database {
    /// Open (or create) the store at `path`. Nothing is known of the
    /// records already on disk.
    pub fn new(path: &str) -> (r: Result<Database, StoreError>) {
        match open_tree(path) {
            Ok(tree) => Ok(Database { tree }),
            Err(_) => Err(StoreError::Backend),
        }
    }

    /// A fresh, empty store in a temporary location, removed on drop.
    pub fn temporary() -> (r: Result<Database, StoreError>)
        ensures
            r matches Ok(db) ==> db@ == empty_contents(),
    {
        match open_temporary_tree() {
            Ok(tree) => Ok(Database { tree }),
            Err(_) => Err(StoreError::Backend),
        }
    }

    /// Store `stats` under `hash`, replacing whatever record was there.
    pub fn insert_stats(&mut self, hash: u64, stats: &PositionStats) -> (r: Result<
        (),
        StoreError,
    >)
        requires
            wf_stats(stats@),
        ensures
            r is Ok ==> final(self)@ == old(self)@.insert(hash, encode_stats(stats@)),
            r is Err ==> final(self)@ == old(self)@ || final(self)@ == old(self)@.insert(
                hash,
                encode_stats(stats@),
            ),
    {
        let bytes = encode(stats);
        match tree_insert(&mut self.tree, hash, &bytes) {
            Ok(_) => Ok(()),
            Err(_) => Err(StoreError::Backend),
        }
    }

    /// Read the record stored under `hash`. Absence is `Ok(None)`, never
    /// an error; corrupt bytes are reported and never read as absence.
    pub fn get_stats(&self, hash: u64) -> (r: Result<Option<PositionStats>, StoreError>)
        ensures
            r matches Ok(s) ==> match s {
                Some(stats) => self@.contains_key(hash) && decode_stats(self@[hash]) == Some(
                    stats@,
                ) && wf_stats(stats@),
                None => !self@.contains_key(hash),
            },
            r matches Err(e) ==> (e == StoreError::Corrupt ==> self@.contains_key(hash)
                && decode_stats(self@[hash]) is None),
    {
        match tree_get(&self.tree, hash) {
            Ok(Some(bytes)) => match decode(&bytes) {
                Some(stats) => Ok(Some(stats)),
                None => Err(StoreError::Corrupt),
            },
            Ok(None) => Ok(None),
            Err(_) => Err(StoreError::Backend),
        }
    }

    /// Merge `delta` into the record stored under `hash`: the prior
    /// record (zero when the key is absent) and the delta are combined,
    /// counters added elementwise, and the combined record written back.
    /// The read-modify-write holds the store exclusively, so no update is
    /// lost; on failure the prior contents are never left in a third
    /// state.
    pub fn merge_put(&mut self, hash: u64, delta: &PositionStats) -> (r: Result<(), StoreError>)
        requires
            wf_stats(delta@),
        ensures
            r is Ok ==> merged_into(old(self)@, final(self)@, hash, delta@),
            r matches Err(e) ==> (e == StoreError::Corrupt ==> final(self)@ == old(self)@
                && stored_record(old(self)@, hash) is None),
            r is Err ==> final(self)@ == old(self)@ || merged_into(old(self)@, final(self)@, hash, delta@),
    {
        let prior: PositionStats = match tree_get(&self.tree, hash) {
            Ok(Some(bytes)) => match decode(&bytes) {
                Some(stats) => stats,
                None => {
                    return Err(StoreError::Corrupt);
                },
            },
            Ok(None) => {
                let empty = PositionStats { total_games: 0, moves: Vec::new() };
                proof {
                    assert(views_of_moves(empty.moves@) =~= Seq::<MoveView>::empty());
                    assert(record_of(empty@) =~= zero_record());
                }
                empty
            },
            Err(_) => {
                return Err(StoreError::Backend);
            },
        };
        let merged = combine(&prior, delta);
        let bytes = encode(&merged);
        proof {
            lemma_round_trip(merged@);
            assert(stored_record(self@, hash) == Some(record_of(prior@)));
        }
        let ghost pre = self@;
        match tree_insert(&mut self.tree, hash, &bytes) {
            Ok(_) => {
                proof {
                    assert(is_merge_witness(pre, self@, hash, delta@, merged@));
                }
                Ok(())
            },
            Err(_) => {
                proof {
                    if self@ != pre {
                        assert(is_merge_witness(pre, self@, hash, delta@, merged@));
                    }
                }
                Err(StoreError::Backend)
            },
        }
    }

    /// Force previous writes to durable storage; the records are
    /// unchanged.
    pub fn flush(&mut self) -> (r: Result<(), StoreError>)
        ensures
            final(self)@ == old(self)@,
    {
        match tree_flush(&mut self.tree) {
            Ok(_) => Ok(()),
            Err(_) => Err(StoreError::Backend),
        }
    }

    /// Release the store at shutdown, forcing previous writes to disk
    /// first.
    pub fn close(self) -> (r: Result<(), StoreError>) {
        let mut db = self;
        db.flush()
    }
}

} // verus!
