//! The ingestion pipeline: per-game replay state fed by tokenizer events,
//! and the in-memory aggregator that accumulates per-position deltas for a
//! whole batch before one store round-trip per touched key.
//!
//! The tokenizer and the chess-rules engine are outside collaborators: the
//! caller drives them and hands this pipeline the outcome of each step — a
//! game boundary, an applied move with its resulting position and canonical
//! notation, or the rejection of an illegal token.

use vstd::prelude::*;
use vstd::pervasive::VecAdditionalExecFns;
use crate::hasher::{board_hash, hash_board, spec_starting_board, starting_board, wf_board, Board};
use crate::stats::{
    combine, combine_records, lemma_combine_zero, record_of, views_of_moves, wf_stats,
    zero_record, Counts, GameOutcome, MoveStats, MoveView, PositionStats, RecordView, StatsView,
};
use crate::store::{merged_into, Database, StoreError};

verus! {

/// The counter that one game outcome adds to the move that was played.
pub open spec fn outcome_counts(o: GameOutcome) -> Counts {
    match o {
        GameOutcome::WhiteWin => Counts { white: 1, black: 0, draws: 0 },
        GameOutcome::BlackWin => Counts { white: 0, black: 1, draws: 0 },
        GameOutcome::Draw => Counts { white: 0, black: 0, draws: 1 },
        GameOutcome::Unknown => Counts { white: 0, black: 0, draws: 0 },
    }
}

/// The delta one visited pair contributes: one game traversal, and the
/// outcome's counter on the move that was played next.
pub open spec fn observation(o: GameOutcome, mv: Seq<char>) -> RecordView {
    RecordView { total: 1, moves: Map::empty().insert(mv, outcome_counts(o)) }
}

/// The record a batch holds for a key, zero when the key is untouched.
pub open spec fn prior_in(m: Map<u64, RecordView>, id: u64) -> RecordView {
    if m.contains_key(id) {
        m[id]
    } else {
        zero_record()
    }
}

/// One visited pair merged into a batch.
pub open spec fn merge_observation(
    m: Map<u64, RecordView>,
    id: u64,
    mv: Seq<char>,
    o: GameOutcome,
) -> Map<u64, RecordView> {
    m.insert(id, combine_records(prior_in(m, id), observation(o, mv)))
}

/// A whole game's visited pairs merged into a batch, in order.
pub open spec fn merge_game_spec(
    m: Map<u64, RecordView>,
    o: GameOutcome,
    visited: Seq<(u64, Seq<char>)>,
) -> Map<u64, RecordView>
    decreases visited.len(),
{
    if visited.len() == 0 {
        m
    } else {
        merge_game_spec(
            merge_observation(m, visited[0].0, visited[0].1, o),
            o,
            visited.drop_first(),
        )
    }
}

proof fn lemma_merge_game_snoc(
    m: Map<u64, RecordView>,
    o: GameOutcome,
    v: Seq<(u64, Seq<char>)>,
    p: (u64, Seq<char>),
)
    ensures
        merge_game_spec(m, o, v.push(p)) == merge_observation(
            merge_game_spec(m, o, v),
            p.0,
            p.1,
            o,
        ),
    decreases v.len(),
{
    if v.len() == 0 {
        assert(v.push(p)[0] == p);
        assert(v.push(p).drop_first() =~= v);
        assert(merge_game_spec(m, o, v.push(p)) == merge_game_spec(
            merge_observation(m, p.0, p.1, o),
            o,
            v.push(p).drop_first(),
        ));
        assert(merge_game_spec(merge_observation(m, p.0, p.1, o), o, v)
            == merge_observation(m, p.0, p.1, o));
        assert(merge_game_spec(m, o, v) == m);
    } else {
        assert(v.push(p)[0] == v[0]);
        assert(v.push(p).drop_first() =~= v.drop_first().push(p));
        lemma_merge_game_snoc(merge_observation(m, v[0].0, v[0].1, o), o, v.drop_first(), p);
    }
}

/// The images of a sequence of batch entries, in order.
pub open spec fn views_of_entries(s: Seq<(u64, PositionStats)>) -> Seq<(u64, StatsView)> {
    s.map_values(|e: (u64, PositionStats)| (e.0, e.1@))
}

/// The map a sequence of batch entries denotes.
pub open spec fn batch_map(s: Seq<(u64, StatsView)>) -> Map<u64, RecordView>
    decreases s.len(),
{
    if s.len() == 0 {
        Map::empty()
    } else {
        batch_map(s.drop_last()).insert(s.last().0, record_of(s.last().1))
    }
}

/// Entry keys are pairwise distinct and every entry is well formed.
pub open spec fn wf_entries(s: Seq<(u64, StatsView)>) -> bool {
    &&& forall|i: int, j: int| 0 <= i < j < s.len() ==> s[i].0 != s[j].0
    &&& forall|i: int| 0 <= i < s.len() ==> wf_stats(#[trigger] s[i].1)
}

proof fn lemma_batch_map_contains(s: Seq<(u64, StatsView)>, id: u64)
    ensures
        batch_map(s).contains_key(id) <==> exists|i: int| 0 <= i < s.len() && s[i].0 == id,
    decreases s.len(),
{
    if s.len() > 0 {
        lemma_batch_map_contains(s.drop_last(), id);
        if s.last().0 == id {
            assert(s[s.len() - 1].0 == id);
        } else if batch_map(s).contains_key(id) {
            let i = choose|i: int| 0 <= i < s.drop_last().len() && s.drop_last()[i].0 == id;
            assert(s[i].0 == id);
        } else if exists|i: int| 0 <= i < s.len() && s[i].0 == id {
            let i = choose|i: int| 0 <= i < s.len() && s[i].0 == id;
            assert(s.drop_last()[i].0 == id);
        }
    }
}

proof fn lemma_batch_map_index(s: Seq<(u64, StatsView)>, i: int)
    requires
        forall|p: int, q: int| 0 <= p < q < s.len() ==> s[p].0 != s[q].0,
        0 <= i < s.len(),
    ensures
        batch_map(s).contains_key(s[i].0),
        batch_map(s)[s[i].0] == record_of(s[i].1),
    decreases s.len(),
{
    if i < s.len() - 1 {
        assert(s.drop_last()[i] == s[i]);
        lemma_batch_map_index(s.drop_last(), i);
        assert(s[i].0 != s.last().0);
    }
}

proof fn lemma_batch_map_push(s: Seq<(u64, StatsView)>, e: (u64, StatsView))
    ensures
        batch_map(s.push(e)) == batch_map(s).insert(e.0, record_of(e.1)),
{
    assert(s.push(e).drop_last() =~= s);
    assert(s.push(e).last() == e);
}

proof fn lemma_batch_map_update(s: Seq<(u64, StatsView)>, k: int, e: (u64, StatsView))
    requires
        forall|p: int, q: int| 0 <= p < q < s.len() ==> s[p].0 != s[q].0,
        0 <= k < s.len(),
        s[k].0 == e.0,
    ensures
        batch_map(s.update(k, e)) == batch_map(s).insert(e.0, record_of(e.1)),
    decreases s.len(),
{
    if k == s.len() - 1 {
        assert(s.update(k, e).drop_last() =~= s.drop_last());
        assert(s.update(k, e).last() == e);
        assert(batch_map(s).insert(e.0, record_of(e.1)) =~= batch_map(s.drop_last()).insert(
            e.0,
            record_of(e.1),
        ));
    } else {
        assert(s.update(k, e).drop_last() =~= s.drop_last().update(k, e));
        assert(s.update(k, e).last() == s.last());
        lemma_batch_map_update(s.drop_last(), k, e);
        assert(s[k].0 != s.last().0);
        assert(batch_map(s.drop_last()).insert(e.0, record_of(e.1)).insert(
            s.last().0,
            record_of(s.last().1),
        ) =~= batch_map(s.drop_last()).insert(s.last().0, record_of(s.last().1)).insert(
            e.0,
            record_of(e.1),
        ));
    }
}

/// In-memory accumulation of per-position deltas for one ingestion
/// batch; flushed to the store in one round-trip per touched key.
pub struct Aggregator {
    entries: Vec<(u64, PositionStats)>,
}

impl Aggregator {
    /// The accumulated entries, in first-touched order.
    pub closed spec fn entries_view(&self) -> Seq<(u64, StatsView)> {
        views_of_entries(self.entries@)
    }

    /// Keys unique, every delta well formed.
    pub closed spec fn wf(&self) -> bool {
        wf_entries(self.entries_view())
    }

    /// An empty batch.
    pub fn new() -> (r: Aggregator)
        ensures
            r.wf(),
            r@ == empty_batch(),
            r.entries_view() == no_entries(),
    {
        let r = Aggregator { entries: Vec::new() };
        proof {
            assert(r.entries_view() =~= no_entries());
        }
        r
    }

    /// Drop every accumulated entry.
    pub fn clear(&mut self)
        ensures
            final(self).wf(),
            final(self)@ == empty_batch(),
            final(self).entries_view() == no_entries(),
    {
        self.entries.clear();
        proof {
            assert(self.entries_view() =~= no_entries());
        }
    }

    /// Merge one finished game into the batch: for each visited pair in
    /// order, one more game traversal through that position, and the
    /// outcome's counter on the move played there. An `Unknown` outcome
    /// still counts the traversal.
    pub fn merge_game(&mut self, outcome: GameOutcome, visited: &Vec<(u64, String)>)
        requires
            old(self).wf(),
        ensures
            final(self).wf(),
            final(self)@ == merge_game_spec(old(self)@, outcome, visited_views(visited@)),
    {
        let ghost vv = visited_views(visited@);
        let ghost m0 = self@;
        let mut k: usize = 0;
        while k < visited.len()
            invariant
                k <= visited@.len(),
                vv == visited_views(visited@),
                self.wf(),
                self@ == merge_game_spec(m0, outcome, vv.take(k as int)),
            decreases visited@.len() - k,
        {
            let id = visited[k].0;
            let mv = &visited[k].1;
            self.merge_observation_exec(id, mv, outcome);
            proof {
                assert(vv.take(k + 1) =~= vv.take(k as int).push(vv[k as int]));
                lemma_merge_game_snoc(m0, outcome, vv.take(k as int), vv[k as int]);
                assert(vv[k as int] == (visited@[k as int].0, visited@[k as int].1@));
            }
            k += 1;
        }
        proof {
            assert(vv.take(visited@.len() as int) =~= vv);
        }
    }

    /// Merge a single visited pair into the batch.
    fn merge_observation_exec(&mut self, id: u64, mv: &String, outcome: GameOutcome)
        requires
            old(self).wf(),
        ensures
            final(self).wf(),
            final(self)@ == merge_observation(old(self)@, id, mv@, outcome),
    {
        let ghost ev = self.entries_view();
        let (w, b, d): (u32, u32, u32) = match outcome {
            GameOutcome::WhiteWin => (1, 0, 0),
            GameOutcome::BlackWin => (0, 1, 0),
            GameOutcome::Draw => (0, 0, 1),
            GameOutcome::Unknown => (0, 0, 0),
        };
        let mut obs_moves: Vec<MoveStats> = Vec::new();
        obs_moves.push(
            MoveStats { move_uci: mv.clone(), white_wins: w, black_wins: b, draws: d },
        );
        let obs = PositionStats { total_games: 1, moves: obs_moves };
        proof {
            let mview = MoveView { uci: mv@, white: w, black: b, draws: d };
            assert(views_of_moves(obs.moves@) =~= seq![mview]);
            assert(obs@.moves.drop_last() =~= Seq::<MoveView>::empty());
            assert(crate::stats::moves_map(obs@.moves.drop_last()) == Map::<
                Seq<char>,
                Counts,
            >::empty());
            assert(obs@.moves.last() == mview);
            assert(crate::stats::moves_map(obs@.moves) == Map::<Seq<char>, Counts>::empty().insert(
                mv@,
                crate::stats::counts_of(mview),
            ));
            assert(crate::stats::counts_of(mview) == outcome_counts(outcome));
            assert(record_of(obs@) =~= observation(outcome, mv@));
            assert(wf_stats(obs@));
        }
        let mut i: usize = 0;
        let mut found: bool = false;
        let mut at: usize = 0;
        while i < self.entries.len()
            invariant
                i <= self.entries@.len(),
                ev == self.entries_view(),
                !found ==> forall|t: int| 0 <= t < i ==> ev[t].0 != id,
                found ==> at < i && ev[at as int].0 == id,
            decreases self.entries@.len() - i,
        {
            if !found && self.entries[i].0 == id {
                found = true;
                at = i;
            }
            i += 1;
        }
        if found {
            proof {
                lemma_batch_map_index(ev, at as int);
                lemma_batch_map_contains(ev, id);
            }
            let merged = combine(&self.entries[at].1, &obs);
            self.entries.set(at, (id, merged));
            proof {
                assert(self.entries_view() =~= ev.update(at as int, (id, merged@)));
                lemma_batch_map_update(ev, at as int, (id, merged@));
                assert(batch_map(self.entries_view()) =~= merge_observation(
                    batch_map(ev),
                    id,
                    mv@,
                    outcome,
                ));
            }
        } else {
            proof {
                lemma_batch_map_contains(ev, id);
                lemma_combine_zero(record_of(obs@));
            }
            self.entries.push((id, obs));
            proof {
                assert(self.entries_view() =~= ev.push((id, obs@)));
                lemma_batch_map_push(ev, (id, obs@));
                assert(batch_map(self.entries_view()) =~= merge_observation(
                    batch_map(ev),
                    id,
                    mv@,
                    outcome,
                ));
            }
        }
    }
}

impl View for Aggregator {
    type V = Map<u64, RecordView>;

    closed spec fn view(&self) -> Map<u64, RecordView> {
        batch_map(self.entries_view())
    }
}

/// The images of a game's visited pairs.
pub open spec fn visited_views(s: Seq<(u64, String)>) -> Seq<(u64, Seq<char>)> {
    s.map_values(|e: (u64, String)| (e.0, e.1@))
}

/// A batch that holds nothing.
pub open spec fn empty_batch() -> Map<u64, RecordView> {
    Map::empty()
}

/// A batch with no entries.
pub open spec fn no_entries() -> Seq<(u64, StatsView)> {
    Seq::empty()
}

/// A game with no visited pairs yet.
pub open spec fn no_visits() -> Seq<(u64, Seq<char>)> {
    Seq::empty()
}

/// The store moved from `pre` to `post` by merging each listed delta into
/// its key, in order.
pub open spec fn flushed(
    pre: Map<u64, Seq<u8>>,
    post: Map<u64, Seq<u8>>,
    entries: Seq<(u64, StatsView)>,
) -> bool
    decreases entries.len(),
{
    if entries.len() == 0 {
        post == pre
    } else {
        exists|mid: Map<u64, Seq<u8>>|
            #[trigger] merged_into(pre, mid, entries[0].0, entries[0].1) && flushed(
                mid,
                post,
                entries.drop_first(),
            )
    }
}

proof fn lemma_flushed_snoc(
    pre: Map<u64, Seq<u8>>,
    mid: Map<u64, Seq<u8>>,
    post: Map<u64, Seq<u8>>,
    entries: Seq<(u64, StatsView)>,
    e: (u64, StatsView),
)
    requires
        flushed(pre, mid, entries),
        merged_into(mid, post, e.0, e.1),
    ensures
        flushed(pre, post, entries.push(e)),
    decreases entries.len(),
{
    if entries.len() == 0 {
        assert(entries.push(e)[0] == e);
        assert(entries.push(e).drop_first() =~= entries);
        assert(merged_into(pre, post, e.0, e.1));
        assert(flushed(post, post, entries));
        assert(merged_into(pre, post, entries.push(e)[0].0, entries.push(e)[0].1) && flushed(
            post,
            post,
            entries.push(e).drop_first(),
        ));
    } else {
        let m1 = choose|m1: Map<u64, Seq<u8>>|
            #[trigger] merged_into(pre, m1, entries[0].0, entries[0].1) && flushed(
                m1,
                mid,
                entries.drop_first(),
            );
        lemma_flushed_snoc(m1, mid, post, entries.drop_first(), e);
        assert(entries.push(e)[0] == entries[0]);
        assert(entries.push(e).drop_first() =~= entries.drop_first().push(e));
        assert(merged_into(pre, m1, entries.push(e)[0].0, entries.push(e)[0].1) && flushed(
            m1,
            post,
            entries.push(e).drop_first(),
        ));
    }
}

/// Ghost image of the pipeline state.
#[verifier::ext_equal]
pub ghost struct IngestView {
    /// The position the current game has reached.
    pub cur: crate::hasher::BoardView,
    /// The (identity, canonical notation) pairs visited so far this game.
    pub visited: Seq<(u64, Seq<char>)>,
    /// The current game hit an illegal token and is being discarded.
    pub aborted: bool,
    /// What the whole batch has accumulated.
    pub batch: Map<u64, RecordView>,
}

/// Per-game replay state plus the batch aggregator. The caller drives
/// the outside tokenizer and rules engine and reports each event here;
/// `flush` writes the batch to the store.
pub struct Ingestor {
    current: Board,
    visited: Vec<(u64, String)>,
    aborted: bool,
    batch: Aggregator,
}

impl View for Ingestor {
    type V = IngestView;

    closed spec fn view(&self) -> IngestView {
        IngestView {
            cur: self.current@,
            visited: visited_views(self.visited@),
            aborted: self.aborted,
            batch: self.batch@,
        }
    }
}

impl Ingestor {
    /// The current position and the batch are well formed.
    pub closed spec fn wf(&self) -> bool {
        &&& wf_board(self.current@)
        &&& self.batch.wf()
    }

    /// The batch entries in first-touched order, as `flush` writes them.
    pub closed spec fn batch_entries(&self) -> Seq<(u64, StatsView)> {
        self.batch.entries_view()
    }

    /// The entry list and the batch map describe the same accumulation:
    /// what `flush` writes is exactly what the batch holds.
    pub proof fn lemma_batch_entries_denote_batch(&self)
        ensures
            batch_map(self.batch_entries()) == self@.batch,
    {
    }

    /// A pipeline ready for its first game.
    pub fn new() -> (r: Ingestor)
        ensures
            r.wf(),
            r@.cur == spec_starting_board(),
            r@.visited == no_visits(),
            !r@.aborted,
            r@.batch == empty_batch(),
    {
        let r = Ingestor {
            current: starting_board(),
            visited: Vec::new(),
            aborted: false,
            batch: Aggregator::new(),
        };
        proof {
            assert(visited_views(r.visited@) =~= no_visits());
        }
        r
    }

    /// A game boundary: reset the per-game state to the standard starting
    /// position. The batch keeps what earlier games contributed.
    pub fn begin_game(&mut self)
        requires
            old(self).wf(),
        ensures
            final(self).wf(),
            final(self)@.cur == spec_starting_board(),
            final(self)@.visited == no_visits(),
            !final(self)@.aborted,
            final(self)@.batch == old(self)@.batch,
    {
        self.current = starting_board();
        self.visited.clear();
        self.aborted = false;
        proof {
            assert(visited_views(self.visited@) =~= no_visits());
        }
    }

    /// The rules engine applied a legal move token: record the identity
    /// of the position before the move with the canonical notation, and
    /// advance to the resulting position. Ignored while the current game
    /// is aborted.
    pub fn on_legal_move(&mut self, new_position: Board, canonical: String)
        requires
            old(self).wf(),
            wf_board(new_position@),
        ensures
            final(self).wf(),
            old(self)@.aborted ==> final(self)@ == old(self)@,
            !old(self)@.aborted ==> final(self)@ == (IngestView {
                cur: new_position@,
                visited: old(self)@.visited.push((board_hash(old(self)@.cur), canonical@)),
                aborted: false,
                batch: old(self)@.batch,
            }),
    {
        if self.aborted {
            return ;
        }
        let h = hash_board(&self.current);
        let ghost prev = self.visited@;
        self.visited.push((h, canonical));
        self.current = new_position;
        proof {
            assert forall|t: int| 0 <= t < self.visited@.len() implies visited_views(
                self.visited@,
            )[t] == visited_views(prev).push((h, canonical@))[t] by {
                if t < prev.len() {
                    assert(self.visited@[t] == prev[t]);
                }
            }
            assert(visited_views(self.visited@) =~= visited_views(prev).push((h, canonical@)));
        }
    }

    /// The rules engine rejected a token: discard the current game's
    /// partial data and ignore its remaining moves until the next game
    /// boundary. Later games are unaffected.
    pub fn on_illegal_move(&mut self)
        requires
            old(self).wf(),
        ensures
            final(self).wf(),
            final(self)@.cur == old(self)@.cur,
            final(self)@.visited == no_visits(),
            final(self)@.aborted,
            final(self)@.batch == old(self)@.batch,
    {
        self.visited.clear();
        self.aborted = true;
        proof {
            assert(visited_views(self.visited@) =~= no_visits());
        }
    }

    /// The game ended: unless it was aborted, its visited pairs and the
    /// outcome are merged into the batch. Leaves the pipeline ready for
    /// the next game boundary.
    pub fn end_game(&mut self, outcome: GameOutcome)
        requires
            old(self).wf(),
        ensures
            final(self).wf(),
            final(self)@.cur == old(self)@.cur,
            final(self)@.visited == no_visits(),
            !final(self)@.aborted,
            old(self)@.aborted ==> final(self)@.batch == old(self)@.batch,
            !old(self)@.aborted ==> final(self)@.batch == merge_game_spec(
                old(self)@.batch,
                outcome,
                old(self)@.visited,
            ),
    {
        if !self.aborted {
            self.batch.merge_game(outcome, &self.visited);
            self.visited.clear();
        } else {
            self.visited.clear();
            self.aborted = false;
        }
        proof {
            assert(visited_views(self.visited@) =~= no_visits());
        }
    }

    /// Write the batch out: one atomic merge per touched key, in
    /// first-touched order, then an empty batch. When the store fails,
    /// the merges of some prefix of the batch have been applied and the
    /// batch is kept unchanged.
    pub fn flush(&mut self, db: &mut Database) -> (r: Result<(), StoreError>)
        requires
            old(self).wf(),
        ensures
            final(self).wf(),
            r is Ok ==> flushed(old(db)@, final(db)@, old(self).batch_entries())
                && final(self)@.batch == empty_batch() && final(self)@.cur == old(self)@.cur
                && final(self)@.visited == old(self)@.visited
                && final(self)@.aborted == old(self)@.aborted,
            r is Err ==> final(self)@ == old(self)@
                && final(self).batch_entries() == old(self).batch_entries() && exists|k: int|
                0 <= k <= old(self).batch_entries().len() && #[trigger] flushed(
                    old(db)@,
                    final(db)@,
                    old(self).batch_entries().take(k),
                ),
    {
        let ghost es = self.batch.entries_view();
        let ghost db0 = db@;
        let ghost s0 = self@;
        let mut i: usize = 0;
        while i < self.batch.entries.len()
            invariant
                i <= self.batch.entries@.len(),
                self.wf(),
                self@ == s0,
                self.batch.entries_view() == es,
                db0 == old(db)@,
                flushed(db0, db@, es.take(i as int)),
            decreases self.batch.entries@.len() - i,
        {
            let ghost dpre = db@;
            let id = self.batch.entries[i].0;
            proof {
                assert(es[i as int] == (self.batch.entries@[i as int].0, self.batch.entries@[
                    i as int].1@));
                assert(wf_stats(es[i as int].1));
            }
            match db.merge_put(id, &self.batch.entries[i].1) {
                Ok(_) => {
                    proof {
                        assert(merged_into(dpre, db@, es[i as int].0, es[i as int].1));
                        lemma_flushed_snoc(db0, dpre, db@, es.take(i as int), es[i as int]);
                        assert(es.take(i + 1) =~= es.take(i as int).push(es[i as int]));
                    }
                },
                Err(e) => {
                    proof {
                        assert(es == old(self).batch_entries());
                        if db@ == dpre {
                            assert(0 <= i as int <= old(self).batch_entries().len() && flushed(
                                old(db)@,
                                db@,
                                old(self).batch_entries().take(i as int),
                            ));
                        } else {
                            assert(merged_into(dpre, db@, es[i as int].0, es[i as int].1));
                            lemma_flushed_snoc(db0, dpre, db@, es.take(i as int), es[i as int]);
                            assert(es.take(i + 1) =~= es.take(i as int).push(es[i as int]));
                            assert(0 <= i + 1 <= old(self).batch_entries().len() && flushed(
                                old(db)@,
                                db@,
                                old(self).batch_entries().take(i + 1),
                            ));
                        }
                    }
                    return Err(e);
                },
            }
            i += 1;
        }
        proof {
            assert(es.take(self.batch.entries@.len() as int) =~= es);
        }
        self.batch.clear();
        Ok(())
    }
}

} // verus!
