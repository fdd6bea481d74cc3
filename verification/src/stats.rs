//! The statistics data model: per-move outcome counters, per-position
//! aggregate records, and the commutative merge that combines them.

use vstd::prelude::*;
use vstd::pervasive::VecAdditionalExecFns;

verus! {

/// How a finished game ended, as recorded by the game record.
#[derive(Clone, Copy, PartialEq, Eq, Structural, Debug)]
pub enum GameOutcome {
    WhiteWin,
    BlackWin,
    Draw,
    Unknown,
}

/// One follow-up move seen in a position, with counters for how the games
/// in which it was played ended.
#[derive(Debug, Clone)]
pub struct MoveStats {
    /// Canonical long-form move notation, e.g. "e2e4"; unique within one
    /// `PositionStats`.
    pub move_uci: String,
    pub white_wins: u32,
    pub black_wins: u32,
    pub draws: u32,
}

/// The aggregate record stored for one position identity.
#[derive(Debug, Clone)]
pub struct PositionStats {
    /// Number of game traversals that reached this position.
    pub total_games: u32,
    /// One entry per distinct move played from this position.
    pub moves: Vec<MoveStats>,
}

/// Mathematical image of a `MoveStats`.
#[verifier::ext_equal]
pub ghost struct MoveView {
    pub uci: Seq<char>,
    pub white: u32,
    pub black: u32,
    pub draws: u32,
}

/// Mathematical image of a `PositionStats`: the counters and the move
/// entries in their stored order.
#[verifier::ext_equal]
pub ghost struct StatsView {
    pub total: u32,
    pub moves: Seq<MoveView>,
}

impl View for MoveStats {
    type V = MoveView;

    open spec fn view(&self) -> MoveView {
        MoveView {
            uci: self.move_uci@,
            white: self.white_wins,
            black: self.black_wins,
            draws: self.draws,
        }
    }
}

/// The images of a sequence of move entries, in order.
pub open spec fn views_of_moves(s: Seq<MoveStats>) -> Seq<MoveView> {
    s.map_values(|m: MoveStats| m@)
}

impl View for PositionStats {
    type V = StatsView;

    open spec fn view(&self) -> StatsView {
        StatsView { total: self.total_games, moves: views_of_moves(self.moves@) }
    }
}

/// The three outcome counters of one move entry.
#[verifier::ext_equal]
pub ghost struct Counts {
    pub white: u32,
    pub black: u32,
    pub draws: u32,
}

pub open spec fn counts_of(m: MoveView) -> Counts {
    Counts { white: m.white, black: m.black, draws: m.draws }
}

/// Order-insensitive image of a record: the total and a map from move
/// notation to its counters. Merge semantics is stated over this view,
/// because a record is a set of move entries keyed by notation.
#[verifier::ext_equal]
pub ghost struct RecordView {
    pub total: u32,
    pub moves: Map<Seq<char>, Counts>,
}

/// Move notations are pairwise distinct: each notation keys one entry.
pub open spec fn wf_moves(ms: Seq<MoveView>) -> bool {
    forall|i: int, j: int| 0 <= i < j < ms.len() ==> ms[i].uci != ms[j].uci
}

/// Well-formedness of a whole record.
pub open spec fn wf_stats(v: StatsView) -> bool {
    wf_moves(v.moves)
}

/// The map keyed by notation that a move sequence denotes (later entries
/// would shadow earlier ones; under `wf_moves` there is no shadowing).
pub open spec fn moves_map(ms: Seq<MoveView>) -> Map<Seq<char>, Counts>
    decreases ms.len(),
{
    if ms.len() == 0 {
        Map::empty()
    } else {
        moves_map(ms.drop_last()).insert(ms.last().uci, counts_of(ms.last()))
    }
}

pub open spec fn record_of(v: StatsView) -> RecordView {
    RecordView { total: v.total, moves: moves_map(v.moves) }
}

/// A record that has seen no games: what an absent key stands for.
pub open spec fn zero_record() -> RecordView {
    RecordView { total: 0, moves: Map::empty() }
}

/// Saturating addition on a counter: the sum, capped at `u32::MAX`.
pub open spec fn sat32(a: u32, b: u32) -> u32 {
    if a + b > u32::MAX {
        u32::MAX
    } else {
        (a + b) as u32
    }
}

pub open spec fn add_counts(a: Counts, b: Counts) -> Counts {
    Counts { white: sat32(a.white, b.white), black: sat32(a.black, b.black), draws: sat32(
        a.draws,
        b.draws,
    ) }
}

/// Union of two keyed counter maps, adding counters on common keys.
pub open spec fn combine_maps(a: Map<Seq<char>, Counts>, b: Map<Seq<char>, Counts>) -> Map<
    Seq<char>,
    Counts,
> {
    Map::new(
        |k: Seq<char>| a.contains_key(k) || b.contains_key(k),
        |k: Seq<char>|
            if a.contains_key(k) && b.contains_key(k) {
                add_counts(a[k], b[k])
            } else if a.contains_key(k) {
                a[k]
            } else {
                b[k]
            },
    )
}

/// The merge of two records: totals added (saturating), move entries
/// unioned with elementwise counter addition.
pub open spec fn combine_records(a: RecordView, b: RecordView) -> RecordView {
    RecordView { total: sat32(a.total, b.total), moves: combine_maps(a.moves, b.moves) }
}

pub proof fn lemma_moves_map_contains(ms: Seq<MoveView>, u: Seq<char>)
    ensures
        moves_map(ms).contains_key(u) <==> exists|i: int| 0 <= i < ms.len() && ms[i].uci == u,
    decreases ms.len(),
{
    if ms.len() > 0 {
        lemma_moves_map_contains(ms.drop_last(), u);
        if ms.last().uci == u {
            assert(ms[ms.len() - 1].uci == u);
        } else if moves_map(ms).contains_key(u) {
            let i = choose|i: int| 0 <= i < ms.drop_last().len() && ms.drop_last()[i].uci == u;
            assert(ms[i].uci == u);
        } else if exists|i: int| 0 <= i < ms.len() && ms[i].uci == u {
            let i = choose|i: int| 0 <= i < ms.len() && ms[i].uci == u;
            assert(ms.drop_last()[i].uci == u);
        }
    }
}

pub proof fn lemma_moves_map_index(ms: Seq<MoveView>, i: int)
    requires
        wf_moves(ms),
        0 <= i < ms.len(),
    ensures
        moves_map(ms).contains_key(ms[i].uci),
        moves_map(ms)[ms[i].uci] == counts_of(ms[i]),
    decreases ms.len(),
{
    if i < ms.len() - 1 {
        assert(ms.drop_last()[i] == ms[i]);
        lemma_moves_map_index(ms.drop_last(), i);
        assert(ms[i].uci != ms.last().uci);
    }
}

pub proof fn lemma_moves_map_push(ms: Seq<MoveView>, m: MoveView)
    ensures
        moves_map(ms.push(m)) == moves_map(ms).insert(m.uci, counts_of(m)),
{
    assert(ms.push(m).drop_last() =~= ms);
    assert(ms.push(m).last() == m);
}

pub proof fn lemma_moves_map_update(ms: Seq<MoveView>, k: int, m: MoveView)
    requires
        wf_moves(ms),
        0 <= k < ms.len(),
        ms[k].uci == m.uci,
    ensures
        moves_map(ms.update(k, m)) == moves_map(ms).insert(m.uci, counts_of(m)),
    decreases ms.len(),
{
    if k == ms.len() - 1 {
        assert(ms.update(k, m).drop_last() =~= ms.drop_last());
        assert(ms.update(k, m).last() == m);
        assert(moves_map(ms).insert(m.uci, counts_of(m)) =~= moves_map(ms.drop_last()).insert(
            m.uci,
            counts_of(m),
        ));
    } else {
        assert(ms.update(k, m).drop_last() =~= ms.drop_last().update(k, m));
        assert(ms.update(k, m).last() == ms.last());
        lemma_moves_map_update(ms.drop_last(), k, m);
        assert(ms[k].uci != ms.last().uci);
        assert(moves_map(ms.drop_last()).insert(m.uci, counts_of(m)).insert(
            ms.last().uci,
            counts_of(ms.last()),
        ) =~= moves_map(ms.drop_last()).insert(ms.last().uci, counts_of(ms.last())).insert(
            m.uci,
            counts_of(m),
        ));
    }
}

/// Law: combining records is commutative — the order in which two deltas
/// reach a key does not change the stored counters.
pub proof fn lemma_combine_records_comm(a: RecordView, b: RecordView)
    ensures
        combine_records(a, b) == combine_records(b, a),
{
    assert(combine_maps(a.moves, b.moves) =~= combine_maps(b.moves, a.moves));
    assert(combine_records(a, b) =~= combine_records(b, a));
}

/// Law: combining records is associative, so merging `d1` then `d2` into a
/// prior record stores the same record as one merge of `combine(d1, d2)`.
pub proof fn lemma_combine_records_assoc(a: RecordView, b: RecordView, c: RecordView)
    ensures
        combine_records(combine_records(a, b), c) == combine_records(
            a,
            combine_records(b, c),
        ),
{
    assert(combine_maps(combine_maps(a.moves, b.moves), c.moves) =~= combine_maps(
        a.moves,
        combine_maps(b.moves, c.moves),
    ));
    assert(combine_records(combine_records(a, b), c) =~= combine_records(
        a,
        combine_records(b, c),
    ));
}

/// Law: the zero record is the identity of the merge — merging a delta into
/// an absent record stores exactly the delta.
pub proof fn lemma_combine_zero(a: RecordView)
    ensures
        combine_records(zero_record(), a) == a,
{
    assert(combine_maps(zero_record().moves, a.moves) =~= a.moves);
    assert(combine_records(zero_record(), a) =~= a);
}

impl PartialEq for MoveStats {
    fn eq(&self, other: &Self) -> (r: bool) {
        self.move_uci == other.move_uci && self.white_wins == other.white_wins
            && self.black_wins == other.black_wins && self.draws == other.draws
    }
}

impl vstd::std_specs::cmp::PartialEqSpecImpl for MoveStats {
    open spec fn obeys_eq_spec() -> bool {
        true
    }

    open spec fn eq_spec(&self, other: &Self) -> bool {
        self@ == other@
    }
}

impl PartialEq for PositionStats {
    fn eq(&self, other: &Self) -> (r: bool) {
        if self.total_games != other.total_games {
            return false;
        }
        if self.moves.len() != other.moves.len() {
            proof {
                assert(self@.moves.len() == self.moves@.len());
                assert(other@.moves.len() == other.moves@.len());
            }
            return false;
        }
        let mut i: usize = 0;
        while i < self.moves.len()
            invariant
                i <= self.moves@.len(),
                self.moves@.len() == other.moves@.len(),
                self.total_games == other.total_games,
                forall|t: int| 0 <= t < i ==> views_of_moves(self.moves@)[t] == views_of_moves(
                    other.moves@,
                )[t],
            decreases self.moves@.len() - i,
        {
            let a = &self.moves[i];
            let b = &other.moves[i];
            if !(a.move_uci == b.move_uci) || a.white_wins != b.white_wins || a.black_wins
                != b.black_wins || a.draws != b.draws {
                proof {
                    assert(views_of_moves(self.moves@)[i as int] != views_of_moves(
                        other.moves@,
                    )[i as int]);
                    assert(views_of_moves(self.moves@) != views_of_moves(other.moves@));
                    assert(self@ != other@);
                }
                return false;
            }
            i += 1;
        }
        proof {
            assert(self@.moves =~= other@.moves);
        }
        true
    }
}

impl vstd::std_specs::cmp::PartialEqSpecImpl for PositionStats {
    open spec fn obeys_eq_spec() -> bool {
        true
    }

    open spec fn eq_spec(&self, other: &Self) -> bool {
        self@ == other@
    }
}

/// Duplicate one move entry; a clone whose image is known.
fn dup_move(m: &MoveStats) -> (r: MoveStats)
    ensures
        r@ == m@,
{
    MoveStats {
        move_uci: m.move_uci.clone(),
        white_wins: m.white_wins,
        black_wins: m.black_wins,
        draws: m.draws,
    }
}

/// Index of the entry for `uci` in `ms`, if there is one.
fn find_move(ms: &Vec<MoveStats>, uci: &String) -> (r: Option<usize>)
    ensures
        match r {
            Some(k) => k < ms@.len() && ms@[k as int]@.uci == uci@,
            None => forall|i: int| 0 <= i < ms@.len() ==> ms@[i]@.uci != uci@,
        },
{
    let mut i: usize = 0;
    while i < ms.len()
        invariant
            i <= ms@.len(),
            forall|j: int| 0 <= j < i ==> ms@[j]@.uci != uci@,
        decreases ms@.len() - i,
    {
        if ms[i].move_uci == *uci {
            return Some(i);
        }
        i += 1;
    }
    None
}

/// Merge two records: totals added (saturating), move entries unioned by
/// notation with counters added elementwise. Commutative and associative
/// on the record view.
pub fn combine(a: &PositionStats, b: &PositionStats) -> (r: PositionStats)
    requires
        wf_stats(a@),
        wf_stats(b@),
    ensures
        wf_stats(r@),
        record_of(r@) == combine_records(record_of(a@), record_of(b@)),
{
    let ghost av = views_of_moves(a.moves@);
    let ghost bv = views_of_moves(b.moves@);
    let mut moves: Vec<MoveStats> = Vec::new();
    let mut i: usize = 0;
    while i < a.moves.len()
        invariant
            i <= a.moves@.len(),
            moves@.len() == i as nat,
            av == views_of_moves(a.moves@),
            views_of_moves(moves@) == av.take(i as int),
        decreases a.moves@.len() - i,
    {
        let ghost prev = moves@;
        moves.push(dup_move(&a.moves[i]));
        proof {
            assert forall|t: int| 0 <= t < moves@.len() implies views_of_moves(moves@)[t]
                == av.take(i + 1)[t] by {
                assert(views_of_moves(moves@)[t] == moves@[t]@);
                if t < i {
                    assert(moves@[t] == prev[t]);
                    assert(prev[t]@ == views_of_moves(prev)[t]);
                    assert(views_of_moves(prev)[t] == av.take(i as int)[t]);
                }
                assert(av.take(i + 1)[t] == av[t]);
                assert(av[t] == a.moves@[t]@);
            }
            assert(views_of_moves(moves@) =~= av.take(i + 1));
        }
        i += 1;
    }
    proof {
        assert(views_of_moves(moves@) =~= av);
    }
    let mut j: usize = 0;
    while j < b.moves.len()
        invariant
            j <= b.moves@.len(),
            av == views_of_moves(a.moves@),
            bv == views_of_moves(b.moves@),
            wf_moves(av),
            wf_moves(bv),
            wf_moves(views_of_moves(moves@)),
            moves_map(views_of_moves(moves@)) == combine_maps(
                moves_map(av),
                moves_map(bv.take(j as int)),
            ),
        decreases b.moves@.len() - j,
    {
        let ghost acc = views_of_moves(moves@);
        let ghost u = bv[j as int].uci;
        let ghost c = counts_of(bv[j as int]);
        proof {
            lemma_moves_map_contains(bv.take(j as int), u);
            assert(forall|t: int| 0 <= t < j ==> bv.take(j as int)[t] == bv[t]);
            assert(!moves_map(bv.take(j as int)).contains_key(u));
            assert(bv.take(j + 1).drop_last() =~= bv.take(j as int));
            assert(bv.take(j + 1).last() == bv[j as int]);
            assert(moves_map(bv.take(j + 1)) == moves_map(bv.take(j as int)).insert(u, c));
        }
        match find_move(&moves, &b.moves[j].move_uci) {
            Some(k) => {
                proof {
                    lemma_moves_map_index(acc, k as int);
                    lemma_moves_map_contains(acc, u);
                }
                let e = &moves[k];
                let updated = MoveStats {
                    move_uci: e.move_uci.clone(),
                    white_wins: e.white_wins.saturating_add(b.moves[j].white_wins),
                    black_wins: e.black_wins.saturating_add(b.moves[j].black_wins),
                    draws: e.draws.saturating_add(b.moves[j].draws),
                };
                proof {
                    assert(updated@ == MoveView {
                        uci: u,
                        white: sat32(acc[k as int].white, c.white),
                        black: sat32(acc[k as int].black, c.black),
                        draws: sat32(acc[k as int].draws, c.draws),
                    });
                }
                moves.set(k, updated);
                proof {
                    assert(views_of_moves(moves@) =~= acc.update(
                        k as int,
                        MoveView {
                            uci: u,
                            white: sat32(acc[k as int].white, c.white),
                            black: sat32(acc[k as int].black, c.black),
                            draws: sat32(acc[k as int].draws, c.draws),
                        },
                    ));
                    lemma_moves_map_update(
                        acc,
                        k as int,
                        MoveView {
                            uci: u,
                            white: sat32(acc[k as int].white, c.white),
                            black: sat32(acc[k as int].black, c.black),
                            draws: sat32(acc[k as int].draws, c.draws),
                        },
                    );
                    lemma_moves_map_contains(av, u);
                    assert(moves_map(views_of_moves(moves@)) =~= combine_maps(
                        moves_map(av),
                        moves_map(bv.take(j + 1)),
                    ));
                }
            },
            None => {
                proof {
                    lemma_moves_map_contains(acc, u);
                    lemma_moves_map_contains(av, u);
                }
                moves.push(dup_move(&b.moves[j]));
                proof {
                    assert(views_of_moves(moves@) =~= acc.push(bv[j as int]));
                    lemma_moves_map_push(acc, bv[j as int]);
                    assert(wf_moves(acc.push(bv[j as int])));
                    assert(moves_map(views_of_moves(moves@)) =~= combine_maps(
                        moves_map(av),
                        moves_map(bv.take(j + 1)),
                    ));
                }
            },
        }
        j += 1;
    }
    proof {
        assert(bv.take(b.moves@.len() as int) =~= bv);
    }
    let r = PositionStats {
        total_games: a.total_games.saturating_add(b.total_games),
        moves,
    };
    proof {
        assert(record_of(r@) =~= combine_records(record_of(a@), record_of(b@)));
    }
    r
}

} // verus!
