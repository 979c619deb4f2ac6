use vstd::prelude::*;

use shakmaty::{CastlingSide, Chess, Color, Position, Role};

use crate::position::{
    lemma_run_len, chess_halfmoves, chess_white_to_move, halfmoves_of, is_start_position, lemma_run_step,
    play_token, run_moves, start_chess, white_to_move_of,
};
use crate::text::{chars_of, split_tokens, string_of, tokens, views};

verus! {

/// Byte `k` (0 = least significant) of a bitboard: the squares of rank `k + 1`.
pub open spec fn rank_byte(bb: u64, k: u64) -> u64 {
    (bb >> ((8 * k) as u64)) & 0xff
}

/// The bitboard with its eight bytes (ranks) in reverse order.
pub open spec fn flipped_bits(bb: u64) -> u64 {
    ((bb & 0xff) << 56) | (((bb >> 8) & 0xff) << 48) | (((bb >> 16) & 0xff) << 40) | (((bb >> 24)
        & 0xff) << 32) | (((bb >> 32) & 0xff) << 24) | (((bb >> 40) & 0xff) << 16) | (((bb >> 48)
        & 0xff) << 8) | ((bb >> 56) & 0xff)
}

/// Flips a bitboard vertically: rank 1 trades places with rank 8, rank 2 with rank 7, and
/// so on (the byte order is reversed).
pub fn flip_vertical(bb: u64) -> (r: u64)
    ensures
        r == flipped_bits(bb),
        forall|k: u64| k < 8 ==> #[trigger] rank_byte(r, k) == rank_byte(bb, (7 - k) as u64),
{
    let r: u64 = ((bb & 0xff) << 56) | (((bb >> 8) & 0xff) << 48) | (((bb >> 16) & 0xff) << 40) | (((
    bb >> 24) & 0xff) << 32) | (((bb >> 32) & 0xff) << 24) | (((bb >> 40) & 0xff) << 16) | (((bb
        >> 48) & 0xff) << 8) | ((bb >> 56) & 0xff);
    assert(r == flipped_bits(bb));
    proof {
        lemma_flipped_ranks(bb);
    }
    r
}

/// Two bitboards with the same eight rank bytes are equal.
proof fn lemma_bytes_determine(a: u64, b: u64)
    requires
        forall|k: u64| k < 8 ==> #[trigger] rank_byte(a, k) == rank_byte(b, k),
    ensures
        a == b,
{
    assert(rank_byte(a, 0) == rank_byte(b, 0));
    assert(rank_byte(a, 1) == rank_byte(b, 1));
    assert(rank_byte(a, 2) == rank_byte(b, 2));
    assert(rank_byte(a, 3) == rank_byte(b, 3));
    assert(rank_byte(a, 4) == rank_byte(b, 4));
    assert(rank_byte(a, 5) == rank_byte(b, 5));
    assert(rank_byte(a, 6) == rank_byte(b, 6));
    assert(rank_byte(a, 7) == rank_byte(b, 7));
    assert(a == b) by (bit_vector)
        requires
            (a >> 0) & 0xff == (b >> 0) & 0xff,
            (a >> 8) & 0xff == (b >> 8) & 0xff,
            (a >> 16) & 0xff == (b >> 16) & 0xff,
            (a >> 24) & 0xff == (b >> 24) & 0xff,
            (a >> 32) & 0xff == (b >> 32) & 0xff,
            (a >> 40) & 0xff == (b >> 40) & 0xff,
            (a >> 48) & 0xff == (b >> 48) & 0xff,
            (a >> 56) & 0xff == (b >> 56) & 0xff,
    ;
}

/// Flipping a board twice gives the board back: any bitboard whose ranks are those of
/// `bb` in reverse order, reversed once more, is `bb`.
pub proof fn lemma_flip_vertical_involution(bb: u64, once: u64, twice: u64)
    requires
        forall|k: u64| k < 8 ==> #[trigger] rank_byte(once, k) == rank_byte(bb, (7 - k) as u64),
        forall|k: u64| k < 8 ==> #[trigger] rank_byte(twice, k) == rank_byte(once, (7 - k) as u64),
    ensures
        twice == bb,
{
    assert forall|k: u64| k < 8 implies #[trigger] rank_byte(twice, k) == rank_byte(bb, k) by {
        assert(rank_byte(once, (7 - k) as u64) == rank_byte(bb, (7 - (7 - k) as u64) as u64));
    }
    lemma_bytes_determine(twice, bb);
}

/// Number of positions, the current one and those before it, that the networks see.
pub const HISTORY_DEPTH: usize = 8;

/// The last `HISTORY_DEPTH` (or fewer) positions of `ps`, the last one first.
pub open spec fn history_window(ps: Seq<Chess>) -> Seq<Chess> {
    let n = if ps.len() <= HISTORY_DEPTH {
        ps.len() as int
    } else {
        HISTORY_DEPTH as int
    };
    Seq::new(n as nat, |k: int| ps[ps.len() - 1 - k])
}

/// `h` is the history that `build_history` gives for the moves `t` when the game starts
/// from `s`: the positions met while the moves are played in turn, up to the first one
/// that does not parse or is not legal, the current one first, at most `HISTORY_DEPTH`.
pub open spec fn history_from(s: Chess, t: Seq<Seq<char>>, h: Seq<Chess>) -> bool {
    &&& is_start_position(s)
    &&& h == history_window(run_moves(s, t))
}

/// The history is newest first: its first entry is the last position reached (the one
/// after every move, when all of them can be played), and entry `k` is the position `k`
/// plies before it; it holds the last `HISTORY_DEPTH` positions, or all of them when there
/// are fewer.
pub proof fn lemma_history_newest_first(s: Chess, t: Seq<Seq<char>>, h: Seq<Chess>)
    requires
        history_from(s, t, h),
    ensures
        h.len() == (if run_moves(s, t).len() < 8 {
            run_moves(s, t).len()
        } else {
            8
        }),
        forall|k: int|
            0 <= k < h.len() ==> #[trigger] h[k] == run_moves(s, t)[run_moves(s, t).len() - 1 - k],
        run_moves(s, t).len() == t.len() + 1 ==> h[0] == run_moves(s, t)[t.len() as int],
{
    lemma_run_len(s, t);
}

/// The positions of a game given by its moves from the start position, newest first: the
/// current position, then one ply back, and so on, at most `HISTORY_DEPTH` of them. The
/// moves are played in order until one does not parse or is not legal; the positions
/// reached up to there are kept.
pub fn build_history(move_sequence: &str) -> (r: Vec<Chess>)
    ensures
        1 <= r@.len() <= HISTORY_DEPTH,
        exists|s: Chess| #[trigger] history_from(s, tokens(move_sequence@), r@),
        exists|s: Chess|
            #[trigger] history_from(s, tokens(move_sequence@), r@) && forall|k: int|
                0 <= k < r@.len() ==> #[trigger] r@[k] == run_moves(s, tokens(move_sequence@))[run_moves(
                    s,
                    tokens(move_sequence@),
                ).len() - 1 - k],
{
    let chars = chars_of(move_sequence);
    let toks = split_tokens(&chars);
    let ghost t = tokens(move_sequence@);
    let start = start_chess();
    let ghost s = start;
    let mut positions: Vec<Chess> = Vec::new();
    positions.push(start);
    proof {
        assert(t.subrange(0, t.len() as int) =~= t);
    }
    let mut i: usize = 0;
    let mut stopped = false;
    while i < toks.len() && !stopped
        invariant
            views(toks@) == t,
            i <= t.len(),
            is_start_position(s),
            positions@.len() == i + 1,
            stopped ==> run_moves(s, t) == positions@,
            !stopped ==> run_moves(s, t) == positions@.drop_last() + run_moves(
                positions@.last(),
                t.subrange(i as int, t.len() as int),
            ),
        decreases t.len() - i, if stopped { 0int } else { 1int },
    {
        let token = string_of(&toks[i]);
        assert(token@ == t[i as int]);
        let cur = positions[i].clone();
        assert(cur == positions@.last());
        proof {
            lemma_run_step(cur, t, i as int);
        }
        match play_token(&cur, token.as_str()) {
            Ok(next) => {
                let ghost before = positions@;
                positions.push(next);
                proof {
                    assert(positions@.drop_last() =~= before);
                    assert(before =~= before.drop_last().push(cur));
                    assert(run_moves(s, t) =~= positions@.drop_last() + run_moves(
                        next,
                        t.subrange(i + 1, t.len() as int),
                    ));
                }
                i += 1;
            },
            Err(_) => {
                proof {
                    assert(run_moves(s, t) =~= positions@);
                }
                stopped = true;
            },
        }
    }
    proof {
        if !stopped {
            lemma_run_step(positions@.last(), t, t.len() as int);
            assert(run_moves(s, t) =~= positions@);
        }
    }
    let n = positions.len();
    let keep = if n < HISTORY_DEPTH {
        n
    } else {
        HISTORY_DEPTH
    };
    let mut history: Vec<Chess> = Vec::new();
    let mut k: usize = 0;
    while k < keep
        invariant
            n == positions@.len(),
            1 <= n,
            keep <= n,
            keep <= HISTORY_DEPTH,
            keep == (if n <= HISTORY_DEPTH {
                n
            } else {
                HISTORY_DEPTH
            }),
            k <= keep,
            history@.len() == k,
            forall|j: int| 0 <= j < k ==> #[trigger] history@[j] == positions@[n - 1 - j],
        decreases keep - k,
    {
        history.push(positions[n - 1 - k].clone());
        k += 1;
    }
    assert(history@ =~= history_window(positions@));
    assert(history_from(s, t, history@));
    proof {
        lemma_history_newest_first(s, t, history@);
    }
    history
}

/// The squares of one side's pieces in a position (bit `i` is square `i`, a1 = 0): what
/// `color_bits` returns.
pub uninterp spec fn color_bits_of(c: Chess, white: bool) -> u64;

/// The squares of one kind of piece, both sides, in a position: what `role_bits` returns.
pub uninterp spec fn role_bits_of(c: Chess, role: u8) -> u64;

/// Whether one side keeps a castling right: what `can_castle` returns.
pub uninterp spec fn can_castle_of(c: Chess, white: bool, king_side: bool) -> bool;

/// shakmaty's `Board::by_color` on the position's board, as a `u64` (`From<Bitboard>`
/// gives the bits as they are); a function of the position and the colour.
#[verifier::external_body]
fn color_bits(chess: &Chess, white: bool) -> (r: u64)
    ensures
        r == color_bits_of(*chess, white),
{
    let color = if white {
        Color::White
    } else {
        Color::Black
    };
    u64::from(chess.board().by_color(color))
}

/// shakmaty's `Board::by_role` on the position's board, as a `u64`, for the piece kind
/// `Role::ALL[role]` (pawn, knight, bishop, rook, queen, king); a function of the
/// position and the kind.
#[verifier::external_body]
fn role_bits(chess: &Chess, role: u8) -> (r: u64)
    requires
        role < 6,
    ensures
        r == role_bits_of(*chess, role),
{
    u64::from(chess.board().by_role(Role::ALL[role as usize]))
}

/// shakmaty's `Castles::has` on the position's castling rights; a function of the
/// position, the colour and the side.
#[verifier::external_body]
fn can_castle(chess: &Chess, white: bool, king_side: bool) -> (r: bool)
    ensures
        r == can_castle_of(*chess, white, king_side),
{
    let color = if white {
        Color::White
    } else {
        Color::Black
    };
    let side = if king_side {
        CastlingSide::KingSide
    } else {
        CastlingSide::QueenSide
    };
    chess.castles().has(color, side)
}

/// `flipped_bits` reverses the ranks: rank byte `k` of the result is rank byte `7 - k`.
proof fn lemma_flipped_ranks(bb: u64)
    ensures
        forall|k: u64| k < 8 ==> #[trigger] rank_byte(flipped_bits(bb), k) == rank_byte(bb, (7 - k) as u64),
{
    let r = flipped_bits(bb);
    assert(forall|k: u64| k < 8 ==> #[trigger] ((r >> ((8 * k) as u64)) & 0xff) == ((bb >> ((8 * (7 - k)) as u64))
        & 0xff)) by (bit_vector)
        requires
            r == ((bb & 0xff) << 56) | (((bb >> 8) & 0xff) << 48) | (((bb >> 16) & 0xff) << 40) | (((
            bb >> 24) & 0xff) << 32) | (((bb >> 32) & 0xff) << 24) | (((bb >> 40) & 0xff) << 16) | (((
            bb >> 48) & 0xff) << 8) | ((bb >> 56) & 0xff),
    ;
}

/// Planes per history position: the side to move's six piece kinds, the other side's six,
/// and a repetition plane, which stays empty.
pub const PLANES_PER_BOARD: usize = 13;

/// The first auxiliary plane, after the piece planes of `HISTORY_DEPTH` positions.
pub const AUX_PLANE_BASE: usize = 104;

/// Number of input planes of lc0's classical format.
pub const INPUT_PLANES: usize = 112;

/// The auxiliary plane that holds the halfmove clock, as a number in every square.
pub const RULE50_PLANE: usize = 109;

/// A bitboard seen from one side: mirrored top to bottom when that side is Black.
pub open spec fn oriented(bb: u64, white: bool) -> u64 {
    if white {
        bb
    } else {
        flipped_bits(bb)
    }
}

/// A plane with every square set, or none.
pub open spec fn full_if(b: bool) -> u64 {
    if b {
        0xffff_ffff_ffff_ffff
    } else {
        0
    }
}

/// Plane `p` of lc0's classical input for the positions `h` (current first), as a
/// bitboard. History position `i` fills planes `13 i` to `13 i + 12`, seen from the side
/// to move there (the current side to move at even `i`, the other at odd `i`): its own
/// pawns, knights, bishops, rooks, queens and king, then the other side's, then an empty
/// repetition plane. Then come our queen- and kingside castling rights, theirs, Black to
/// move, the rule-50 plane (a number, left empty here), an empty plane and a full one.
pub open spec fn input_plane(h: Seq<Chess>, p: int) -> u64 {
    let white = white_to_move_of(h[0]);
    if p < AUX_PLANE_BASE {
        let i = p / 13;
        let j = p % 13;
        if i >= h.len() || j == 12 {
            0
        } else {
            let stm = if i % 2 == 0 {
                white
            } else {
                !white
            };
            let side = if j < 6 {
                stm
            } else {
                !stm
            };
            oriented(color_bits_of(h[i], side) & role_bits_of(h[i], (j % 6) as u8), stm)
        }
    } else if p == 104 {
        full_if(can_castle_of(h[0], white, false))
    } else if p == 105 {
        full_if(can_castle_of(h[0], white, true))
    } else if p == 106 {
        full_if(can_castle_of(h[0], !white, false))
    } else if p == 107 {
        full_if(can_castle_of(h[0], !white, true))
    } else if p == 108 {
        full_if(!white)
    } else if p == 111 {
        full_if(true)
    } else {
        0
    }
}

/// What the planes hold, read off the board of each position. For history position `i`
/// (0 the current one, at most 7) the side to move there is the current side to move when
/// `i` is even and the other side when it is odd; plane `13 i + j`, for piece kind `j` in
/// the order pawn, knight, bishop, rook, queen, king (`role_bits_of`'s numbering), holds
/// that side's pieces of kind `j`, plane `13 i + 6 + j` the other side's, and plane
/// `13 i + 12` is empty. The squares are as on the board when that side is White, and with
/// the ranks reversed (rank byte `k` from rank byte `7 - k`) when it is Black. Positions
/// missing from the history leave their planes empty.
pub proof fn lemma_piece_planes(h: Seq<Chess>, i: int, j: int)
    requires
        h.len() >= 1,
        0 <= i < 8,
        0 <= j < 6,
    ensures
        ({
            let stm = (i % 2 == 0) == white_to_move_of(h[0]);
            let ours = color_bits_of(h[i], stm) & role_bits_of(h[i], j as u8);
            let theirs = color_bits_of(h[i], !stm) & role_bits_of(h[i], j as u8);
            &&& i < h.len() && stm ==> input_plane(h, 13 * i + j) == ours && input_plane(
                h,
                13 * i + 6 + j,
            ) == theirs
            &&& i < h.len() && !stm ==> forall|k: u64|
                k < 8 ==> #[trigger] rank_byte(input_plane(h, 13 * i + j), k) == rank_byte(
                    ours,
                    (7 - k) as u64,
                ) && rank_byte(input_plane(h, 13 * i + 6 + j), k) == rank_byte(theirs, (7 - k) as u64)
            &&& i >= h.len() ==> input_plane(h, 13 * i + j) == 0 && input_plane(h, 13 * i + 6 + j) == 0
            &&& input_plane(h, 13 * i + 12) == 0
        }),
{
    lemma_plane_split(i, j);
    lemma_plane_split(i, j + 6);
    lemma_plane_split(i, 12);
    let stm = (i % 2 == 0) == white_to_move_of(h[0]);
    let ours = color_bits_of(h[i], stm) & role_bits_of(h[i], j as u8);
    let theirs = color_bits_of(h[i], !stm) & role_bits_of(h[i], j as u8);
    assert(((j + 6) % 6) as u8 == j as u8);
    lemma_flipped_ranks(ours);
    lemma_flipped_ranks(theirs);
}

/// The auxiliary planes: 104 and 105 are full exactly when the side to move in the
/// current position may still castle queenside and kingside, 106 and 107 the same for the
/// other side; 108 is full exactly when Black is to move; 109 (the halfmove clock, given
/// apart) and 110 are empty and 111 is full.
pub proof fn lemma_aux_planes(h: Seq<Chess>)
    requires
        h.len() >= 1,
    ensures
        ({
            let us = white_to_move_of(h[0]);
            &&& input_plane(h, 104) == (if can_castle_of(h[0], us, false) { 0xffff_ffff_ffff_ffffu64 } else { 0u64 })
            &&& input_plane(h, 105) == (if can_castle_of(h[0], us, true) { 0xffff_ffff_ffff_ffffu64 } else { 0u64 })
            &&& input_plane(h, 106) == (if can_castle_of(h[0], !us, false) { 0xffff_ffff_ffff_ffffu64 } else { 0u64 })
            &&& input_plane(h, 107) == (if can_castle_of(h[0], !us, true) { 0xffff_ffff_ffff_ffffu64 } else { 0u64 })
            &&& input_plane(h, 108) == (if us { 0u64 } else { 0xffff_ffff_ffff_ffffu64 })
            &&& input_plane(h, 109) == 0
            &&& input_plane(h, 110) == 0
            &&& input_plane(h, 111) == 0xffff_ffff_ffff_ffffu64
        }),
{
}

/// The input of the networks for a position with its history, as bitboards, and the
/// halfmove clock that fills the rule-50 plane.
pub struct InputPlanes {
    /// The `INPUT_PLANES` planes as bitboards (see `input_plane`).
    pub planes: Vec<u64>,
    /// The halfmove clock of the current position.
    pub rule50: u32,
}

proof fn lemma_plane_split(i: int, j: int)
    requires
        0 <= i,
        0 <= j < 13,
    ensures
        (13 * i + j) / 13 == i,
        (13 * i + j) % 13 == j,
{
    assert((13 * i + j) / 13 == i) by (nonlinear_arith)
        requires
            0 <= i,
            0 <= j < 13,
    ;
    assert((13 * i + j) % 13 == j) by (nonlinear_arith)
        requires
            0 <= i,
            0 <= j < 13,
    ;
}

/// Encodes a position with its history (current position first; positions past
/// `HISTORY_DEPTH` are not read) into lc0's classical 112 planes, as bitboards.
pub fn encode_planes(history: &[Chess]) -> (r: InputPlanes)
    requires
        history@.len() >= 1,
    ensures
        r.planes@.len() == INPUT_PLANES,
        forall|p: int| 0 <= p < INPUT_PLANES ==> #[trigger] r.planes@[p] == input_plane(history@, p),
        r.rule50 == halfmoves_of(history@[0]),
{
    let h = history;
    let white = chess_white_to_move(&h[0]);
    let mut planes: Vec<u64> = Vec::new();
    let mut i: usize = 0;
    while i < HISTORY_DEPTH
        invariant
            h@.len() >= 1,
            white == white_to_move_of(h@[0]),
            i <= HISTORY_DEPTH,
            planes@.len() == 13 * i,
            forall|p: int| 0 <= p < 13 * i ==> #[trigger] planes@[p] == input_plane(h@, p),
        decreases HISTORY_DEPTH - i,
    {
        let stm = if i % 2 == 0 {
            white
        } else {
            !white
        };
        let mut j: usize = 0;
        while j < 13
            invariant
                h@.len() >= 1,
                white == white_to_move_of(h@[0]),
                i < HISTORY_DEPTH,
                stm == (if i % 2 == 0 { white } else { !white }),
                j <= 13,
                planes@.len() == 13 * i + j,
                forall|p: int| 0 <= p < 13 * i + j ==> #[trigger] planes@[p] == input_plane(h@, p),
            decreases 13 - j,
        {
            let bits = if i < h.len() && j < 12 {
                let side = if j < 6 {
                    stm
                } else {
                    !stm
                };
                let bb = color_bits(&h[i], side) & role_bits(&h[i], (j % 6) as u8);
                if stm {
                    bb
                } else {
                    flip_vertical(bb)
                }
            } else {
                0
            };
            proof {
                lemma_plane_split(i as int, j as int);
            }
            planes.push(bits);
            j += 1;
        }
        i += 1;
    }
    let first = &h[0];
    let aux = [
        can_castle(first, white, false),
        can_castle(first, white, true),
        can_castle(first, !white, false),
        can_castle(first, !white, true),
        !white,
        false,
        false,
        true,
    ];
    let mut a: usize = 0;
    while a < 8
        invariant
            h@.len() >= 1,
            white == white_to_move_of(h@[0]),
            a <= 8,
            aux@ == seq![
                can_castle_of(h@[0], white, false),
                can_castle_of(h@[0], white, true),
                can_castle_of(h@[0], !white, false),
                can_castle_of(h@[0], !white, true),
                !white,
                false,
                false,
                true,
            ],
            planes@.len() == AUX_PLANE_BASE + a,
            forall|p: int| 0 <= p < AUX_PLANE_BASE + a ==> #[trigger] planes@[p] == input_plane(h@, p),
        decreases 8 - a,
    {
        let full: u64 = if aux[a] {
            0xffff_ffff_ffff_ffff
        } else {
            0
        };
        planes.push(full);
        a += 1;
    }
    let rule50 = chess_halfmoves(&h[0]);
    InputPlanes { planes, rule50 }
}

} // verus!
