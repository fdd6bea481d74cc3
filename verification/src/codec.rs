//! The codec: a versioned, round-trip exact binary form for a statistics
//! record.
//!
//! Layout: one version byte, the total-games counter (4 bytes,
//! little-endian), the number of move entries (8 bytes), then each entry as
//! the byte length of its notation (8 bytes), the notation in UTF-8, and the
//! three outcome counters (4 bytes each). A record whose bytes do not follow
//! this layout exactly, or whose move notations are not pairwise distinct,
//! is corrupt and decodes to nothing.

use vstd::prelude::*;
use vstd::bytes::*;
use vstd::utf8::*;
use vstd::slice::slice_subrange;
use vstd::string::StrSliceExecFns;
use crate::stats::{MoveStats, MoveView, PositionStats, StatsView, views_of_moves, wf_moves, wf_stats};

verus! {

/// First byte of every encoded record.
pub const FORMAT_VERSION: u8 = 1;

/// Bytes of one encoded move entry.
pub open spec fn enc_move(m: MoveView) -> Seq<u8> {
    spec_u64_to_le_bytes(encode_utf8(m.uci).len() as u64) + encode_utf8(m.uci)
        + spec_u32_to_le_bytes(m.white) + spec_u32_to_le_bytes(m.black) + spec_u32_to_le_bytes(
        m.draws,
    )
}

/// Bytes of a sequence of move entries, in order.
pub open spec fn enc_moves(ms: Seq<MoveView>) -> Seq<u8>
    decreases ms.len(),
{
    if ms.len() == 0 {
        Seq::empty()
    } else {
        enc_move(ms[0]) + enc_moves(ms.subrange(1, ms.len() as int))
    }
}

/// Bytes of a whole record.
pub open spec fn encode_stats(v: StatsView) -> Seq<u8> {
    seq![FORMAT_VERSION] + spec_u32_to_le_bytes(v.total) + spec_u64_to_le_bytes(
        v.moves.len() as u64,
    ) + enc_moves(v.moves)
}

/// Decode one move entry from the front of `b`; the entry and the rest,
/// or nothing if `b` does not start with a well-formed entry.
pub open spec fn dec_move(b: Seq<u8>) -> Option<(MoveView, Seq<u8>)> {
    if b.len() < 8 {
        None
    } else {
        let l = spec_u64_from_le_bytes(b.subrange(0, 8)) as int;
        if b.len() < 8 + l + 12 {
            None
        } else {
            let sb = b.subrange(8, 8 + l);
            if !valid_utf8(sb) {
                None
            } else {
                Some(
                    (
                        MoveView {
                            uci: decode_utf8(sb),
                            white: spec_u32_from_le_bytes(b.subrange(8 + l, 8 + l + 4)),
                            black: spec_u32_from_le_bytes(b.subrange(8 + l + 4, 8 + l + 8)),
                            draws: spec_u32_from_le_bytes(b.subrange(8 + l + 8, 8 + l + 12)),
                        },
                        b.subrange(8 + l + 12, b.len() as int),
                    ),
                )
            }
        }
    }
}

/// Decode `n` move entries from the front of `b`.
pub open spec fn dec_moves(b: Seq<u8>, n: nat) -> Option<(Seq<MoveView>, Seq<u8>)>
    decreases n,
{
    if n == 0 {
        Some((Seq::empty(), b))
    } else {
        match dec_move(b) {
            None => None,
            Some(p) => match dec_moves(p.1, (n - 1) as nat) {
                None => None,
                Some(q) => Some((seq![p.0] + q.0, q.1)),
            },
        }
    }
}

/// Decode a whole record. Nothing is returned exactly when the bytes are
/// not a well-formed encoding: wrong version, truncated or oversized data,
/// invalid UTF-8 in a notation, or duplicate move notations.
pub open spec fn decode_stats(b: Seq<u8>) -> Option<StatsView> {
    if b.len() < 13 || b[0] != FORMAT_VERSION {
        None
    } else {
        let total = spec_u32_from_le_bytes(b.subrange(1, 5));
        let n = spec_u64_from_le_bytes(b.subrange(5, 13));
        match dec_moves(b.subrange(13, b.len() as int), n as nat) {
            None => None,
            Some(p) => if p.1.len() == 0 && wf_moves(p.0) {
                Some(StatsView { total: total, moves: p.0 })
            } else {
                None
            },
        }
    }
}

/// The notation of one move entry fits the length field of the format.
pub open spec fn bounded_move(m: MoveView) -> bool {
    encode_utf8(m.uci).len() <= u64::MAX
}

/// The record fits the length fields of the format. The image of any
/// in-memory record satisfies this.
pub open spec fn encodable(v: StatsView) -> bool {
    &&& v.moves.len() <= u64::MAX
    &&& forall|i: int| 0 <= i < v.moves.len() ==> bounded_move(#[trigger] v.moves[i])
}

proof fn lemma_enc_moves_push(ms: Seq<MoveView>, m: MoveView)
    ensures
        enc_moves(ms.push(m)) == enc_moves(ms) + enc_move(m),
    decreases ms.len(),
{
    if ms.len() == 0 {
        assert(ms.push(m)[0] == m);
        assert(ms.push(m).subrange(1, 1) =~= Seq::<MoveView>::empty());
        assert(enc_moves(ms.push(m)) == enc_move(m) + enc_moves(ms.push(m).subrange(1, 1)));
        assert(enc_moves(Seq::<MoveView>::empty()) == Seq::<u8>::empty());
        assert(enc_moves(ms) == Seq::<u8>::empty());
        assert(enc_move(m) + Seq::<u8>::empty() =~= enc_moves(ms) + enc_move(m));
    } else {
        let rest = ms.subrange(1, ms.len() as int);
        assert(ms.push(m).subrange(1, ms.len() as int + 1) =~= rest.push(m));
        lemma_enc_moves_push(rest, m);
        assert(ms.push(m)[0] == ms[0]);
        assert(enc_moves(ms.push(m)) =~= enc_moves(ms) + enc_move(m));
    }
}

proof fn lemma_dec_enc_move(m: MoveView, tail: Seq<u8>)
    requires
        bounded_move(m),
    ensures
        dec_move(enc_move(m) + tail) == Some((m, tail)),
{
    lemma_auto_spec_u64_to_from_le_bytes();
    lemma_auto_spec_u32_to_from_le_bytes();
    let sb = encode_utf8(m.uci);
    let l = sb.len() as int;
    let b = enc_move(m) + tail;
    assert(b.len() == 8 + l + 12 + tail.len());
    assert(b.subrange(0, 8) =~= spec_u64_to_le_bytes(sb.len() as u64));
    assert(spec_u64_from_le_bytes(b.subrange(0, 8)) as int == l);
    assert(b.subrange(8, 8 + l) =~= sb);
    encode_utf8_valid_utf8(m.uci);
    encode_utf8_decode_utf8(m.uci);
    assert(b.subrange(8 + l, 8 + l + 4) =~= spec_u32_to_le_bytes(m.white));
    assert(b.subrange(8 + l + 4, 8 + l + 8) =~= spec_u32_to_le_bytes(m.black));
    assert(b.subrange(8 + l + 8, 8 + l + 12) =~= spec_u32_to_le_bytes(m.draws));
    assert(b.subrange(8 + l + 12, b.len() as int) =~= tail);
    assert(dec_move(b) == Some((m, tail)));
}

proof fn lemma_dec_enc_moves(ms: Seq<MoveView>, tail: Seq<u8>)
    requires
        forall|i: int| 0 <= i < ms.len() ==> bounded_move(#[trigger] ms[i]),
    ensures
        dec_moves(enc_moves(ms) + tail, ms.len()) == Some((ms, tail)),
    decreases ms.len(),
{
    if ms.len() == 0 {
        assert(enc_moves(ms) + tail =~= tail);
        assert(ms =~= Seq::<MoveView>::empty());
    } else {
        let rest = ms.subrange(1, ms.len() as int);
        assert(enc_moves(ms) + tail =~= enc_move(ms[0]) + (enc_moves(rest) + tail));
        lemma_dec_enc_move(ms[0], enc_moves(rest) + tail);
        lemma_dec_enc_moves(rest, tail);
        assert(seq![ms[0]] + rest =~= ms);
    }
}

/// Law: the codec is round-trip exact — decoding the encoding of any
/// well-formed record yields the record itself.
pub proof fn lemma_round_trip(v: StatsView)
    requires
        wf_stats(v),
        encodable(v),
    ensures
        decode_stats(encode_stats(v)) == Some(v),
{
    lemma_auto_spec_u64_to_from_le_bytes();
    lemma_auto_spec_u32_to_from_le_bytes();
    let b = encode_stats(v);
    assert(b.len() == 13 + enc_moves(v.moves).len());
    assert(b[0] == FORMAT_VERSION);
    assert(b.subrange(1, 5) =~= spec_u32_to_le_bytes(v.total));
    assert(b.subrange(5, 13) =~= spec_u64_to_le_bytes(v.moves.len() as u64));
    assert(spec_u64_from_le_bytes(b.subrange(5, 13)) as nat == v.moves.len());
    assert(b.subrange(13, b.len() as int) =~= enc_moves(v.moves) + Seq::<u8>::empty());
    lemma_dec_enc_moves(v.moves, Seq::empty());
    assert(decode_stats(b) == Some(v));
}

/// Relies on std's `str::from_utf8`: it succeeds exactly on valid UTF-8,
/// and the characters of the result re-encode to the input bytes.
#[verifier::external_body]
fn bytes_to_string(v: &[u8]) -> (r: Option<String>)
    ensures
        valid_utf8(v@) ==> r is Some,
        r matches Some(s) ==> encode_utf8(s@) == v@,
{
    match std::str::from_utf8(v) {
        Ok(s) => Some(s.to_string()),
        Err(_) => None,
    }
}

/// True when the move notations in `ms` are pairwise distinct.
fn moves_unique(ms: &Vec<MoveStats>) -> (r: bool)
    ensures
        r == wf_moves(views_of_moves(ms@)),
{
    let mut i: usize = 0;
    while i < ms.len()
        invariant
            i <= ms@.len(),
            forall|p: int, q: int|
                0 <= p < q < ms@.len() && p < i ==> views_of_moves(ms@)[p].uci != views_of_moves(
                    ms@,
                )[q].uci,
        decreases ms@.len() - i,
    {
        let mut j: usize = i + 1;
        while j < ms.len()
            invariant
                i < j <= ms@.len() || (i + 1 == j && j > ms@.len()),
                i < ms@.len(),
                forall|q: int| i < q < j ==> views_of_moves(ms@)[i as int].uci != views_of_moves(
                    ms@,
                )[q].uci,
            decreases ms@.len() - j,
        {
            if ms[i].move_uci == ms[j].move_uci {
                proof {
                    assert(views_of_moves(ms@)[i as int].uci == views_of_moves(ms@)[j as int].uci);
                }
                return false;
            }
            j += 1;
        }
        i += 1;
    }
    true
}

/// Encode a record into its binary form. Every in-memory record fits the
/// format's length fields.
pub fn encode(stats: &PositionStats) -> (r: Vec<u8>)
    ensures
        r@ == encode_stats(stats@),
        encodable(stats@),
{
    let ghost mv = stats@.moves;
    let mut out: Vec<u8> = Vec::new();
    out.push(FORMAT_VERSION);
    let mut tb = u32_to_le_bytes(stats.total_games);
    out.append(&mut tb);
    let mut nb = u64_to_le_bytes(stats.moves.len() as u64);
    out.append(&mut nb);
    let ghost header = seq![FORMAT_VERSION] + spec_u32_to_le_bytes(stats.total_games)
        + spec_u64_to_le_bytes(mv.len() as u64);
    proof {
        assert(out@ =~= header + enc_moves(mv.take(0)));
    }
    let mut i: usize = 0;
    while i < stats.moves.len()
        invariant
            i <= stats.moves@.len(),
            mv == views_of_moves(stats.moves@),
            header == seq![FORMAT_VERSION] + spec_u32_to_le_bytes(stats.total_games)
                + spec_u64_to_le_bytes(mv.len() as u64),
            out@ == header + enc_moves(mv.take(i as int)),
            forall|t: int| 0 <= t < i ==> bounded_move(#[trigger] mv[t]),
        decreases stats.moves@.len() - i,
    {
        let m = &stats.moves[i];
        let sb = m.move_uci.as_str().as_bytes_vec();
        let mut lb = u64_to_le_bytes(sb.len() as u64);
        out.append(&mut lb);
        let mut sbm = sb;
        out.append(&mut sbm);
        let mut wb = u32_to_le_bytes(m.white_wins);
        out.append(&mut wb);
        let mut bb = u32_to_le_bytes(m.black_wins);
        out.append(&mut bb);
        let mut db = u32_to_le_bytes(m.draws);
        out.append(&mut db);
        proof {
            assert(mv[i as int] == m@);
            assert(bounded_move(mv[i as int]));
            lemma_enc_moves_push(mv.take(i as int), mv[i as int]);
            assert(mv.take(i + 1) =~= mv.take(i as int).push(mv[i as int]));
            assert(out@ =~= header + enc_moves(mv.take(i + 1)));
        }
        i += 1;
    }
    proof {
        assert(mv.take(stats.moves@.len() as int) =~= mv);
        assert(mv.len() <= u64::MAX);
        assert(encodable(stats@));
    }
    out
}

/// Decode one move entry at byte offset `pos`.
fn parse_move(bytes: &Vec<u8>, pos: usize) -> (r: Option<(MoveStats, usize)>)
    requires
        pos <= bytes@.len(),
    ensures
        match r {
            Some(p) => pos < p.1 <= bytes@.len() && dec_move(
                bytes@.subrange(pos as int, bytes@.len() as int),
            ) == Some((p.0@, bytes@.subrange(p.1 as int, bytes@.len() as int))),
            None => dec_move(bytes@.subrange(pos as int, bytes@.len() as int)) is None,
        },
{
    let ghost b = bytes@.subrange(pos as int, bytes@.len() as int);
    let len = bytes.len();
    let avail = len - pos;
    if avail < 20 {
        return None;
    }
    let lslice = slice_subrange(bytes.as_slice(), pos, pos + 8);
    proof {
        assert(lslice@ =~= b.subrange(0, 8));
    }
    let l64 = u64_from_le_bytes(lslice);
    if l64 > (avail - 20) as u64 {
        return None;
    }
    let l = l64 as usize;
    let sslice = slice_subrange(bytes.as_slice(), pos + 8, pos + 8 + l);
    proof {
        assert(sslice@ =~= b.subrange(8, 8 + l as int));
    }
    match bytes_to_string(sslice) {
        None => {
            proof {
                assert(!valid_utf8(b.subrange(8, 8 + l as int)));
            }
            None
        },
        Some(s) => {
            let wslice = slice_subrange(bytes.as_slice(), pos + 8 + l, pos + 8 + l + 4);
            let bslice = slice_subrange(bytes.as_slice(), pos + 8 + l + 4, pos + 8 + l + 8);
            let dslice = slice_subrange(bytes.as_slice(), pos + 8 + l + 8, pos + 8 + l + 12);
            let white = u32_from_le_bytes(wslice);
            let black = u32_from_le_bytes(bslice);
            let draws = u32_from_le_bytes(dslice);
            let newpos = pos + 8 + l + 12;
            let m = MoveStats { move_uci: s, white_wins: white, black_wins: black, draws: draws };
            proof {
                let li = l as int;
                assert(wslice@ =~= b.subrange(8 + li, 8 + li + 4));
                assert(bslice@ =~= b.subrange(8 + li + 4, 8 + li + 8));
                assert(dslice@ =~= b.subrange(8 + li + 8, 8 + li + 12));
                encode_utf8_valid_utf8(s@);
                encode_utf8_decode_utf8(s@);
                assert(decode_utf8(b.subrange(8, 8 + li)) == s@);
                assert(b.subrange(8 + li + 12, b.len() as int) =~= bytes@.subrange(
                    newpos as int,
                    bytes@.len() as int,
                ));
                assert(dec_move(b) == Some(
                    (m@, bytes@.subrange(newpos as int, bytes@.len() as int)),
                ));
            }
            Some((m, newpos))
        },
    }
}

/// Decode a record from its binary form; nothing exactly when the bytes
/// are corrupt (not a well-formed encoding of any record).
pub fn decode(bytes: &Vec<u8>) -> (r: Option<PositionStats>)
    ensures
        match r {
            Some(s) => decode_stats(bytes@) == Some(s@) && wf_stats(s@),
            None => decode_stats(bytes@) is None,
        },
{
    let len = bytes.len();
    if len < 13 {
        return None;
    }
    if bytes[0] != FORMAT_VERSION {
        return None;
    }
    let tslice = slice_subrange(bytes.as_slice(), 1, 5);
    let nslice = slice_subrange(bytes.as_slice(), 5, 13);
    let total = u32_from_le_bytes(tslice);
    let n64 = u64_from_le_bytes(nslice);
    proof {
        assert(tslice@ =~= bytes@.subrange(1, 5));
        assert(nslice@ =~= bytes@.subrange(5, 13));
    }
    let ghost whole = bytes@.subrange(13, bytes@.len() as int);
    let mut moves: Vec<MoveStats> = Vec::new();
    let mut pos: usize = 13;
    let mut k: u64 = 0;
    proof {
        assert(bytes@.subrange(pos as int, bytes@.len() as int) =~= whole);
    }
    while k < n64
        invariant
            13 <= pos <= bytes@.len(),
            k <= n64,
            len == bytes@.len(),
            bytes@[0] == FORMAT_VERSION,
            total == spec_u32_from_le_bytes(bytes@.subrange(1, 5)),
            n64 == spec_u64_from_le_bytes(bytes@.subrange(5, 13)),
            whole == bytes@.subrange(13, bytes@.len() as int),
            (match dec_moves(
                bytes@.subrange(pos as int, bytes@.len() as int),
                (n64 - k) as nat,
            ) {
                Some(p) => dec_moves(whole, n64 as nat) == Some(
                    (views_of_moves(moves@) + p.0, p.1),
                ),
                None => dec_moves(whole, n64 as nat) is None,
            }),
        decreases n64 - k,
    {
        let ghost tail = bytes@.subrange(pos as int, bytes@.len() as int);
        let ghost accv = views_of_moves(moves@);
        match parse_move(bytes, pos) {
            None => {
                proof {
                    assert(dec_moves(tail, (n64 - k) as nat) is None);
                    assert(dec_moves(whole, n64 as nat) is None);
                    assert(n64 as nat == spec_u64_from_le_bytes(
                        bytes@.subrange(5, 13),
                    ) as nat);
                    assert(decode_stats(bytes@) is None);
                }
                return None;
            },
            Some((m, newpos)) => {
                let ghost prev = moves@;
                moves.push(m);
                proof {
                    assert(views_of_moves(moves@) =~= accv.push(m@)) by {
                        assert forall|t: int| 0 <= t < moves@.len() implies views_of_moves(
                            moves@,
                        )[t] == accv.push(m@)[t] by {
                            if t < prev.len() {
                                assert(moves@[t] == prev[t]);
                            }
                        }
                    }
                    let rest = bytes@.subrange(newpos as int, bytes@.len() as int);
                    assert(dec_move(tail) == Some((m@, rest)));
                    match dec_moves(rest, (n64 - k - 1) as nat) {
                        Some(q) => {
                            assert(dec_moves(tail, (n64 - k) as nat) == Some(
                                (seq![m@] + q.0, q.1),
                            ));
                            assert(accv + (seq![m@] + q.0) =~= accv.push(m@) + q.0);
                        },
                        None => {
                            assert(dec_moves(tail, (n64 - k) as nat) is None);
                        },
                    }
                }
                pos = newpos;
                k = k + 1;
            },
        }
    }
    proof {
        let tail = bytes@.subrange(pos as int, bytes@.len() as int);
        assert(dec_moves(tail, 0) == Some((Seq::<MoveView>::empty(), tail)));
        assert(views_of_moves(moves@) + Seq::<MoveView>::empty() =~= views_of_moves(moves@));
        assert(dec_moves(whole, n64 as nat) == Some((views_of_moves(moves@), tail)));
    }
    if pos != len {
        proof {
            assert(bytes@.subrange(pos as int, bytes@.len() as int).len() > 0);
            assert(n64 as nat == spec_u64_from_le_bytes(bytes@.subrange(5, 13)) as nat);
            assert(dec_moves(bytes@.subrange(13, bytes@.len() as int), n64 as nat) == Some(
                (
                    views_of_moves(moves@),
                    bytes@.subrange(pos as int, bytes@.len() as int),
                ),
            ));
            assert(decode_stats(bytes@) is None);
        }
        return None;
    }
    if !moves_unique(&moves) {
        return None;
    }
    let r = PositionStats { total_games: total, moves };
    proof {
        assert(bytes@.subrange(pos as int, bytes@.len() as int).len() == 0);
        assert(decode_stats(bytes@) == Some(r@));
    }
    Some(r)
}

} // verus!
