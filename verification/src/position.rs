use vstd::prelude::*;

use shakmaty::uci::{IllegalUciMoveError, ParseUciMoveError, UciMove};
use shakmaty::{Chess, Move, Position};

use crate::text::{chars_of, split_tokens, string_of, tokens, views};
use vstd::utf8::encode_utf8;

verus! {

#[verifier::external_type_specification]
#[verifier::external_body]
pub struct ExChess(Chess);

#[verifier::external_type_specification]
#[verifier::external_body]
pub struct ExUciMove(UciMove);

#[verifier::external_type_specification]
#[verifier::external_body]
pub struct ExMove(Move);

#[verifier::external_type_specification]
#[verifier::external_body]
pub struct ExParseUciMoveError(ParseUciMoveError);

#[verifier::external_type_specification]
#[verifier::external_body]
pub struct ExIllegalUciMoveError(IllegalUciMoveError);

/// A file letter `a`..`h`, as a byte.
pub open spec fn is_file_byte(b: u8) -> bool {
    97 <= b <= 104
}

/// A rank digit `1`..`8`, as a byte.
pub open spec fn is_rank_byte(b: u8) -> bool {
    49 <= b <= 56
}

/// A piece letter `PNBRQK`, in either case, as a byte.
pub open spec fn is_role_byte(b: u8) -> bool {
    b == 80 || b == 78 || b == 66 || b == 82 || b == 81 || b == 75 || b == 112 || b == 110 || b
        == 98 || b == 114 || b == 113 || b == 107
}

/// The UCI move syntax that shakmaty accepts: the null move `0000`, a drop such as `Q@f7`,
/// a move such as `e2e4`, or a move with a promotion letter such as `e7e8q`.
pub open spec fn uci_syntax_ok(b: Seq<u8>) -> bool {
    ||| b.len() == 4 && b[0] == 48 && b[1] == 48 && b[2] == 48 && b[3] == 48
    ||| b.len() == 4 && b[1] == 64 && is_role_byte(b[0]) && is_file_byte(b[2]) && is_rank_byte(b[3])
    ||| b.len() == 4 && is_file_byte(b[0]) && is_rank_byte(b[1]) && is_file_byte(b[2])
        && is_rank_byte(b[3])
    ||| b.len() == 5 && is_file_byte(b[0]) && is_rank_byte(b[1]) && is_file_byte(b[2])
        && is_rank_byte(b[3]) && is_role_byte(b[4])
}

/// The EPD text of the standard starting position, as shakmaty's `fen` module
/// documentation prints it for `Chess::default()`.
pub open spec fn start_epd() -> Seq<char> {
    "rnbqkbnr/pppppppp/8/8/8/8/PPPPPPPP/RNBQKBNR w KQkq -"@
}

/// The standard starting position, as far as the library sees it: its EPD text, White to
/// move, and a halfmove clock of 0.
pub open spec fn is_start_position(c: Chess) -> bool {
    &&& epd_of(c) == start_epd()
    &&& halfmoves_of(c) == 0
    &&& white_to_move_of(c)
}

/// The EPD text (legal en-passant squares) of a position: what `format_epd` returns.
pub uninterp spec fn epd_of(c: Chess) -> Seq<char>;

/// The move that a UCI move text (given by its bytes) parses to: what `parse_uci` returns.
pub uninterp spec fn parsed_uci(b: Seq<u8>) -> UciMove;

/// The legal move that a UCI move stands for in a position, if it stands for one: what
/// `to_legal_move` returns.
pub uninterp spec fn uci_to_move(c: Chess, u: UciMove) -> Option<Move>;

/// The position after playing a legal move: what `play_move` leaves.
pub uninterp spec fn after_move(c: Chess, m: Move) -> Chess;

/// Whether the side to move is checkmated: what `chess_is_checkmate` returns.
pub uninterp spec fn checkmate_of(c: Chess) -> bool;

/// Whether the side to move is stalemated: what `chess_is_stalemate` returns.
pub uninterp spec fn stalemate_of(c: Chess) -> bool;

/// Whether neither side has mating material: what `chess_is_insufficient_material` returns.
pub uninterp spec fn insufficient_of(c: Chess) -> bool;

/// Whether White is to move: what `chess_white_to_move` returns.
pub uninterp spec fn white_to_move_of(c: Chess) -> bool;

/// The halfmove clock of the fifty-move rule: what `chess_halfmoves` returns.
pub uninterp spec fn halfmoves_of(c: Chess) -> u32;

/// The legal moves of a position, in shakmaty's order: what `legal_moves_of` returns.
pub uninterp spec fn legal_moves_list(c: Chess) -> Seq<Move>;

/// The UCI form of a move (castling as the king's two-square move): what `uci_from_move`
/// returns.
pub uninterp spec fn uci_of(m: Move) -> UciMove;

/// The text of a UCI move: what `uci_text` returns.
pub uninterp spec fn uci_text_of(u: UciMove) -> Seq<char>;

/// shakmaty's `Chess::default()`: the standard starting position. Its EPD text is the one
/// shakmaty's `fen` module documentation shows for it; the source (`Chess::new`) sets White
/// to move and the halfmove clock to 0.
#[verifier::external_body]
pub(crate) fn start_chess() -> (r: Chess)
    ensures
        epd_of(r) == start_epd(),
        halfmoves_of(r) == 0,
        white_to_move_of(r),
{
    Chess::default()
}

/// shakmaty's `<Chess as Clone>::clone` (a derived clone of the position's fields):
/// claimed to give the same position back.
pub assume_specification[ <Chess as Clone>::clone ](c: &Chess) -> (r: Chess)
    ensures
        r == *c,
;

/// shakmaty's `UciMove::from_str` (`from_ascii` on the string's bytes): claimed to succeed
/// exactly on the syntax of `uci_syntax_ok`, as the source's `from_ascii` reads it, and to
/// give a move that depends on the bytes alone.
#[verifier::external_body]
pub(crate) fn parse_uci(token: &str) -> (r: Result<UciMove, ParseUciMoveError>)
    ensures
        r is Ok <==> uci_syntax_ok(encode_utf8(token@)),
        r matches Ok(u) ==> u == parsed_uci(encode_utf8(token@)),
{
    token.parse::<UciMove>()
}

/// shakmaty's `UciMove::to_move`: the legal move the UCI move stands for in the position,
/// if any (its source returns a move only after `is_legal` accepts it); a function of the
/// two arguments.
#[verifier::external_body]
pub(crate) fn to_legal_move(uci: UciMove, chess: &Chess) -> (r: Result<Move, IllegalUciMoveError>)
    ensures
        match r {
            Ok(m) => uci_to_move(*chess, uci) == Some(m),
            Err(_) => uci_to_move(*chess, uci) is None,
        },
{
    uci.to_move(chess)
}

/// shakmaty's `Position::play_unchecked` on `Chess`. It is only given a move that
/// `to_legal_move` returned for this very position, that is a legal move (the source
/// panics on some illegal ones); the new position is a function of the two.
#[verifier::external_body]
pub(crate) fn play_move(chess: &mut Chess, m: Move)
    requires
        exists|u: UciMove| uci_to_move(*old(chess), u) == Some(m),
    ensures
        *final(chess) == after_move(*old(chess), m),
{
    chess.play_unchecked(m)
}

/// shakmaty's `Epd::from_position` with legal en-passant squares, printed with `Display`;
/// a function of the position.
#[verifier::external_body]
fn format_epd(chess: &Chess) -> (r: String)
    ensures
        r@ == epd_of(*chess),
{
    shakmaty::fen::Epd::from_position(chess, shakmaty::EnPassantMode::Legal).to_string()
}

/// The `Display` text of shakmaty's `ParseUciMoveError`, which its source fixes.
#[verifier::external_body]
fn parse_error_text(e: &ParseUciMoveError) -> (r: String)
    ensures
        r@ == "invalid uci"@,
{
    e.to_string()
}

/// The `Display` text of shakmaty's `IllegalUciMoveError`, which its source fixes.
#[verifier::external_body]
fn illegal_error_text(e: &IllegalUciMoveError) -> (r: String)
    ensures
        r@ == "illegal uci"@,
{
    e.to_string()
}

/// shakmaty's `Position::is_checkmate`; a function of the position.
#[verifier::external_body]
fn chess_is_checkmate(chess: &Chess) -> (r: bool)
    ensures
        r == checkmate_of(*chess),
{
    chess.is_checkmate()
}

/// shakmaty's `Position::is_stalemate`; a function of the position.
#[verifier::external_body]
fn chess_is_stalemate(chess: &Chess) -> (r: bool)
    ensures
        r == stalemate_of(*chess),
{
    chess.is_stalemate()
}

/// shakmaty's `Position::is_insufficient_material`; a function of the position.
#[verifier::external_body]
fn chess_is_insufficient_material(chess: &Chess) -> (r: bool)
    ensures
        r == insufficient_of(*chess),
{
    chess.is_insufficient_material()
}

/// Whether shakmaty's `Position::turn` is White; a function of the position.
#[verifier::external_body]
pub(crate) fn chess_white_to_move(chess: &Chess) -> (r: bool)
    ensures
        r == white_to_move_of(*chess),
{
    chess.turn() == shakmaty::Color::White
}

/// shakmaty's `Position::halfmoves`: the halfmove clock; a function of the position.
#[verifier::external_body]
pub(crate) fn chess_halfmoves(chess: &Chess) -> (r: u32)
    ensures
        r == halfmoves_of(*chess),
{
    chess.halfmoves()
}

/// shakmaty's `Position::legal_moves` on `Chess`, collected into a `Vec`; a function of
/// the position.
#[verifier::external_body]
fn legal_moves_of(chess: &Chess) -> (r: Vec<Move>)
    ensures
        r@ == legal_moves_list(*chess),
{
    chess.legal_moves().into_iter().collect()
}

/// shakmaty's `UciMove::from_standard`; a function of the move.
#[verifier::external_body]
fn uci_from_move(m: &Move) -> (r: UciMove)
    ensures
        r == uci_of(*m),
{
    UciMove::from_standard(m.clone())
}

/// The `Display` text of shakmaty's `UciMove`, a function of the move: its source writes
/// two squares and a lowercase promotion letter, a piece letter, `@` and a square, or
/// `0000`; each is UCI syntax.
#[verifier::external_body]
fn uci_text(u: &UciMove) -> (r: String)
    ensures
        r@ == uci_text_of(*u),
        uci_syntax_ok(encode_utf8(r@)),
{
    u.to_string()
}


/// The texts of a sequence of strings.
pub open spec fn string_views(v: Seq<String>) -> Seq<Seq<char>> {
    v.map_values(|x: String| x@)
}

/// The legal moves of a position in UCI notation (castling as the king's two-square move),
/// in shakmaty's order.
pub fn legal_uci_moves(chess: &Chess) -> (r: Vec<String>)
    ensures
        string_views(r@) == legal_moves_list(*chess).map_values(|m: Move| uci_text_of(uci_of(m))),
        forall|k: int| 0 <= k < r@.len() ==> uci_syntax_ok(encode_utf8(#[trigger] r@[k]@)),
{
    let moves = legal_moves_of(chess);
    let ghost texts = legal_moves_list(*chess).map_values(|m: Move| uci_text_of(uci_of(m)));
    let mut out: Vec<String> = Vec::new();
    let mut k: usize = 0;
    while k < moves.len()
        invariant
            k <= moves@.len(),
            moves@ == legal_moves_list(*chess),
            texts == legal_moves_list(*chess).map_values(|m: Move| uci_text_of(uci_of(m))),
            string_views(out@) == texts.take(k as int),
            forall|j: int| 0 <= j < out@.len() ==> uci_syntax_ok(encode_utf8(#[trigger] out@[j]@)),
        decreases moves@.len() - k,
    {
        let u = uci_from_move(&moves[k]);
        let txt = uci_text(&u);
        let ghost before = out@;
        out.push(txt);
        proof {
            assert(string_views(out@) =~= string_views(before).push(texts[k as int]));
            assert(texts.take(k + 1) =~= texts.take(k as int).push(texts[k as int]));
        }
        k += 1;
    }
    assert(texts.take(moves@.len() as int) =~= texts);
    out
}

/// The words joined by single spaces.
pub open spec fn join_words(t: Seq<Seq<char>>) -> Seq<char>
    decreases t.len(),
{
    if t.len() == 0 {
        seq![]
    } else {
        let j = join_words(t.drop_last());
        if j.len() == 0 {
            t.last()
        } else {
            j + seq![' '] + t.last()
        }
    }
}

/// The move sequence after appending `m` to `seq`: `m` alone, or `seq`, a space and `m`.
pub open spec fn append_move(seq: Seq<char>, m: Seq<char>) -> Seq<char> {
    if seq.len() == 0 {
        m
    } else {
        seq + seq![' '] + m
    }
}

/// The error text for a move that is not UCI syntax.
pub open spec fn invalid_move_text(m: Seq<char>) -> Seq<char> {
    "Invalid UCI move '"@ + m + "': invalid uci"@
}

/// The error text for a move that is not legal in the position.
pub open spec fn illegal_move_text(m: Seq<char>) -> Seq<char> {
    "Illegal move '"@ + m + "': illegal uci"@
}

/// The error text for a move that cannot be played: invalid when it is not UCI syntax,
/// illegal otherwise.
pub open spec fn move_error_text(m: Seq<char>) -> Seq<char> {
    if uci_syntax_ok(encode_utf8(m)) {
        illegal_move_text(m)
    } else {
        invalid_move_text(m)
    }
}

/// The position after playing the UCI move text `tok` in `c`, when it is UCI syntax and
/// stands for a legal move there.
pub open spec fn step(c: Chess, tok: Seq<char>) -> Option<Chess> {
    let b = encode_utf8(tok);
    if uci_syntax_ok(b) {
        match uci_to_move(c, parsed_uci(b)) {
            Some(m) => Some(after_move(c, m)),
            None => None,
        }
    } else {
        None
    }
}

/// The positions met when the moves `t` are played from `c` in turn, `c` first, up to the
/// first move that cannot be played.
pub open spec fn run_moves(c: Chess, t: Seq<Seq<char>>) -> Seq<Chess>
    decreases t.len(),
{
    if t.len() == 0 {
        seq![c]
    } else {
        match step(c, t[0]) {
            Some(n) => seq![c] + run_moves(n, t.subrange(1, t.len() as int)),
            None => seq![c],
        }
    }
}

/// The EPD texts of a sequence of positions.
pub open spec fn epd_trail(ps: Seq<Chess>) -> Seq<Seq<char>> {
    ps.map_values(|c: Chess| epd_of(c))
}

pub(crate) proof fn lemma_run_step(c: Chess, t: Seq<Seq<char>>, i: int)
    requires
        0 <= i <= t.len(),
    ensures
        i == t.len() ==> run_moves(c, t.subrange(i, t.len() as int)) == seq![c],
        i < t.len() ==> run_moves(c, t.subrange(i, t.len() as int)) == match step(c, t[i]) {
            Some(n) => seq![c] + run_moves(n, t.subrange(i + 1, t.len() as int)),
            None => seq![c],
        },
{
    let r = t.subrange(i, t.len() as int);
    if i < t.len() {
        assert(r[0] == t[i]);
        assert(r.subrange(1, r.len() as int) =~= t.subrange(i + 1, t.len() as int));
    } else {
        assert(r.len() == 0);
    }
}

pub(crate) proof fn lemma_run_len(c: Chess, t: Seq<Seq<char>>)
    ensures
        1 <= run_moves(c, t).len() <= t.len() + 1,
        run_moves(c, t)[0] == c,
    decreases t.len(),
{
    if t.len() > 0 {
        match step(c, t[0]) {
            Some(n) => lemma_run_len(n, t.subrange(1, t.len() as int)),
            None => {},
        }
    }
}

/// How many of the texts `h` are `e`.
pub open spec fn count_of(h: Seq<Seq<char>>, e: Seq<char>) -> nat
    decreases h.len(),
{
    if h.len() == 0 {
        0
    } else {
        count_of(h.drop_last(), e) + if h.last() == e {
            1nat
        } else {
            0nat
        }
    }
}

/// How a finished game ended.
#[derive(Debug, Clone, Copy, PartialEq, Eq, Structural)]
pub enum GameOutcome {
    WhiteWins,
    BlackWins,
    Draw,
}

/// The end of the game, given what the position says of itself: the side to move loses
/// when checkmated; stalemate, insufficient material, a halfmove clock of 100 or more
/// (the fifty-move rule) and a position met for the third time are draws.
pub open spec fn outcome_spec(
    checkmate: bool,
    stalemate: bool,
    insufficient: bool,
    white_to_move: bool,
    halfmoves: u32,
    repetitions: nat,
) -> Option<GameOutcome> {
    if checkmate {
        if white_to_move {
            Some(GameOutcome::BlackWins)
        } else {
            Some(GameOutcome::WhiteWins)
        }
    } else if stalemate || insufficient || halfmoves >= 100 || repetitions >= 3 {
        Some(GameOutcome::Draw)
    } else {
        None
    }
}

/// The end of the game from the position's own verdicts, its halfmove clock and how often
/// it has occurred in the game (see `outcome_spec`).
pub fn outcome_from(
    checkmate: bool,
    stalemate: bool,
    insufficient: bool,
    white_to_move: bool,
    halfmoves: u32,
    repetitions: usize,
) -> (r: Option<GameOutcome>)
    ensures
        r == outcome_spec(checkmate, stalemate, insufficient, white_to_move, halfmoves, repetitions as nat),
{
    if checkmate {
        if white_to_move {
            Some(GameOutcome::BlackWins)
        } else {
            Some(GameOutcome::WhiteWins)
        }
    } else if stalemate || insufficient || halfmoves >= 100 || repetitions >= 3 {
        Some(GameOutcome::Draw)
    } else {
        None
    }
}

fn quoted_error(head: &str, m: &str, tail: &str) -> (r: String)
    ensures
        r@ == head@ + m@ + "': "@ + tail@,
{
    let mut r = String::from_str(head);
    r.append(m);
    r.append("': ");
    r.append(tail);
    r
}

/// Plays the UCI move text `tok` on a copy of `chess`: the new position, or the error text
/// when the move is not UCI syntax or not legal there.
pub(crate) fn play_token(chess: &Chess, tok: &str) -> (r: Result<Chess, String>)
    ensures
        match r {
            Ok(n) => step(*chess, tok@) == Some(n),
            Err(e) => step(*chess, tok@) is None && e@ == move_error_text(tok@),
        },
{
    let uci = match parse_uci(tok) {
        Ok(u) => u,
        Err(e) => {
            let t = parse_error_text(&e);
            let r = quoted_error("Invalid UCI move '", tok, t.as_str());
            proof {
                reveal_strlit("': ");
                reveal_strlit("invalid uci");
                reveal_strlit("': invalid uci");
                assert(r@ =~= invalid_move_text(tok@));
            }
            return Err(r);
        },
    };
    let ghost u = uci;
    let legal = match to_legal_move(uci, chess) {
        Ok(m) => m,
        Err(e) => {
            let t = illegal_error_text(&e);
            let r = quoted_error("Illegal move '", tok, t.as_str());
            proof {
                reveal_strlit("': ");
                reveal_strlit("illegal uci");
                reveal_strlit("': illegal uci");
                assert(r@ =~= illegal_move_text(tok@));
            }
            return Err(r);
        },
    };
    let mut next = chess.clone();
    assert(uci_to_move(next, u) == Some(legal));
    play_move(&mut next, legal);
    Ok(next)
}

fn copy_strings(v: &Vec<String>) -> (r: Vec<String>)
    ensures
        string_views(r@) == string_views(v@),
{
    let mut r: Vec<String> = Vec::new();
    let mut k: usize = 0;
    while k < v.len()
        invariant
            k <= v@.len(),
            string_views(r@) == string_views(v@).take(k as int),
        decreases v@.len() - k,
    {
        let ghost before = r@;
        r.push(v[k].clone());
        proof {
            assert(string_views(r@) =~= string_views(before).push(v@[k as int]@));
            assert(string_views(v@).take(k + 1) =~= string_views(v@).take(k as int).push(v@[k as int]@));
        }
        k += 1;
    }
    assert(string_views(v@).take(v@.len() as int) =~= string_views(v@));
    r
}

/// How many of the texts in `h` are `e`.
fn count_text(h: &Vec<String>, e: &String) -> (r: usize)
    ensures
        r == count_of(string_views(h@), e@),
{
    let ghost hv = string_views(h@);
    let mut r: usize = 0;
    let mut k: usize = 0;
    while k < h.len()
        invariant
            k <= h@.len(),
            hv == string_views(h@),
            r == count_of(hv.take(k as int), e@),
            r <= k,
        decreases h@.len() - k,
    {
        proof {
            assert(hv.take(k + 1).drop_last() =~= hv.take(k as int));
            assert(hv.take(k + 1).last() == h@[k as int]@);
        }
        if crate::text::str_eq(h[k].as_str(), e.as_str()) {
            r += 1;
        }
        k += 1;
    }
    assert(hv.take(h@.len() as int) =~= hv);
    r
}

/// A chess position with the moves that led to it from the start position, its EPD text
/// (the key under which evaluations of the position are cached) and the EPD texts of all
/// positions of the game so far, this one last.
#[derive(Debug, Clone)]
pub struct PositionState {
    /// The current position.
    pub chess: Chess,
    /// Space-separated UCI moves from the start position.
    pub move_sequence: String,
    /// EPD text of the current position.
    pub epd: String,
    /// EPD texts of the positions of the game, from the start position to this one.
    pub epd_history: Vec<String>,
}

/// `r` is what `from_moves` gives for the moves `t` when the game starts from `s`: the
/// position after all of them, with its EPD, the joined moves and the EPDs along the way,
/// when every move can be played in turn; otherwise the error for the first one that
/// cannot.
pub open spec fn played_from(s: Chess, t: Seq<Seq<char>>, r: Result<PositionState, String>) -> bool {
    let ps = run_moves(s, t);
    &&& is_start_position(s)
    &&& if ps.len() == t.len() + 1 {
        &&& r matches Ok(p)
        &&& p.chess == ps.last()
        &&& p.epd@ == epd_of(p.chess)
        &&& p.move_sequence@ == join_words(t)
        &&& string_views(p.epd_history@) == epd_trail(ps)
    } else {
        &&& r matches Err(e)
        &&& e@ == move_error_text(t[ps.len() - 1])
    }
}

impl PositionState {
    /// The start position, with no moves played.
    pub fn startpos() -> (p: Self)
        ensures
            p.move_sequence@.len() == 0,
            p.epd@ == epd_of(p.chess),
            p.epd@ == start_epd(),
            is_start_position(p.chess),
            string_views(p.epd_history@) == seq![p.epd@],
    {
        let chess = start_chess();
        let epd = format_epd(&chess);
        let mut epd_history: Vec<String> = Vec::new();
        epd_history.push(epd.clone());
        assert(string_views(epd_history@) =~= seq![epd@]);
        PositionState { chess, move_sequence: String::new(), epd, epd_history }
    }

    /// The position reached from the start position by a space-separated sequence of UCI
    /// moves. The first move that is not UCI syntax, or not legal where it is played,
    /// gives an error that names it.
    pub fn from_moves(moves_str: &str) -> (r: Result<Self, String>)
        ensures
            exists|s: Chess| #[trigger] played_from(s, tokens(moves_str@), r),
    {
        let chars = chars_of(moves_str);
        let toks = split_tokens(&chars);
        let ghost t = tokens(moves_str@);
        let start = Self::startpos();
        let ghost s = start.chess;
        if toks.len() == 0 {
            proof {
                assert(t.len() == 0);
                assert(run_moves(s, t) == seq![s]);
                assert(epd_trail(seq![s]) =~= seq![epd_of(s)]);
                assert(start.move_sequence@ =~= join_words(t));
                assert(seq![s].last() == s);
                assert(played_from(s, t, Ok::<Self, String>(start)));
            }
            return Ok(start);
        }
        let mut chess = start.chess;
        let mut epd_history = start.epd_history;
        let mut move_sequence = String::new();
        let ghost mut hist: Seq<Chess> = seq![s];
        proof {
            assert(t.subrange(0, t.len() as int) =~= t);
            assert(epd_trail(hist) =~= seq![epd_of(s)]);
        }
        let mut i: usize = 0;
        while i < toks.len()
            invariant
                views(toks@) == t,
                t == tokens(moves_str@),
                i <= t.len(),
                is_start_position(s),
                hist.len() == i + 1,
                hist.last() == chess,
                run_moves(s, t) == hist.drop_last() + run_moves(chess, t.subrange(i as int, t.len() as int)),
                string_views(epd_history@) == epd_trail(hist),
                move_sequence@ == join_words(t.take(i as int)),
            decreases t.len() - i,
        {
            let token = string_of(&toks[i]);
            assert(token@ == t[i as int]);
            proof {
                lemma_run_step(chess, t, i as int);
            }
            match play_token(&chess, token.as_str()) {
                Ok(next) => {
                    let e = format_epd(&next);
                    let ghost old_hist = hist;
                    let ghost old_chess = chess;
                    let ghost old_trail = epd_history@;
                    epd_history.push(e);
                    chess = next;
                    proof {
                        hist = hist.push(next);
                        assert(hist.drop_last() =~= old_hist);
                        assert(old_hist =~= old_hist.drop_last().push(old_chess));
                        assert(run_moves(s, t) =~= hist.drop_last() + run_moves(chess, t.subrange(i + 1, t.len() as int)));
                        assert(string_views(epd_history@) =~= string_views(old_trail).push(epd_of(next)));
                        assert(epd_trail(hist) =~= epd_trail(old_hist).push(epd_of(next)));
                    }
                    if !move_sequence.as_str().is_empty() {
                        move_sequence.append(" ");
                    }
                    move_sequence.append(token.as_str());
                    proof {
                        reveal_strlit(" ");
                        assert(t.take(i + 1).drop_last() =~= t.take(i as int));
                        assert(move_sequence@ =~= join_words(t.take(i + 1)));
                    }
                },
                Err(e) => {
                    proof {
                        assert(run_moves(s, t) =~= hist);
                        let r = Err::<Self, String>(e);
                        assert(played_from(s, t, r));
                    }
                    return Err(e);
                },
            }
            i += 1;
        }
        proof {
            lemma_run_step(chess, t, t.len() as int);
            assert(run_moves(s, t) =~= hist);
            assert(t.take(t.len() as int) =~= t);
        }
        let epd = format_epd(&chess);
        let p = PositionState { chess, move_sequence, epd, epd_history };
        assert(played_from(s, t, Ok::<Self, String>(p)));
        Ok(p)
    }

    /// Plays one move, given in UCI notation, on a copy of this position.
    pub fn apply_uci(&self, uci_str: &str) -> (r: Result<Self, String>)
        ensures
            match r {
                Ok(p) => {
                    &&& step(self.chess, uci_str@) == Some(p.chess)
                    &&& p.move_sequence@ == append_move(self.move_sequence@, uci_str@)
                    &&& p.epd@ == epd_of(p.chess)
                    &&& string_views(p.epd_history@) == string_views(self.epd_history@).push(p.epd@)
                },
                Err(e) => step(self.chess, uci_str@) is None && e@ == move_error_text(uci_str@),
            },
    {
        let chess = match play_token(&self.chess, uci_str) {
            Ok(c) => c,
            Err(e) => {
                return Err(e);
            },
        };
        let mut move_sequence = self.move_sequence.clone();
        if !self.move_sequence.as_str().is_empty() {
            move_sequence.append(" ");
        }
        move_sequence.append(uci_str);
        proof {
            reveal_strlit(" ");
            assert(move_sequence@ =~= append_move(self.move_sequence@, uci_str@));
        }
        let epd = format_epd(&chess);
        let mut epd_history = copy_strings(&self.epd_history);
        let ghost before = epd_history@;
        epd_history.push(epd.clone());
        assert(string_views(epd_history@) =~= string_views(before).push(epd@));
        Ok(PositionState { chess, move_sequence, epd, epd_history })
    }

    /// How the game has ended in this position, if it has: from shakmaty's verdicts on the
    /// position, its halfmove clock, and how often its EPD occurs in the game.
    pub fn terminal_outcome(&self) -> (r: Option<GameOutcome>)
        ensures
            r == outcome_spec(
                checkmate_of(self.chess),
                stalemate_of(self.chess),
                insufficient_of(self.chess),
                white_to_move_of(self.chess),
                halfmoves_of(self.chess),
                count_of(string_views(self.epd_history@), self.epd@),
            ),
    {
        let checkmate = chess_is_checkmate(&self.chess);
        let stalemate = chess_is_stalemate(&self.chess);
        let insufficient = chess_is_insufficient_material(&self.chess);
        let white = chess_white_to_move(&self.chess);
        let halfmoves = chess_halfmoves(&self.chess);
        let repetitions = count_text(&self.epd_history, &self.epd);
        outcome_from(checkmate, stalemate, insufficient, white, halfmoves, repetitions)
    }
}

/// What `apply_uci` gives for the move text `m` on `p`: the new position with its EPD, the
/// move appended and the EPD added to the history when the move can be played there;
/// otherwise the error for the move.
pub open spec fn applied(p: PositionState, m: Seq<char>, r: Result<PositionState, String>) -> bool {
    match r {
        Ok(q) => {
            &&& step(p.chess, m) == Some(q.chess)
            &&& q.move_sequence@ == append_move(p.move_sequence@, m)
            &&& q.epd@ == epd_of(q.chess)
            &&& string_views(q.epd_history@) == string_views(p.epd_history@).push(q.epd@)
        },
        Err(e) => step(p.chess, m) is None && e@ == move_error_text(m),
    }
}

proof fn lemma_run_push(c: Chess, t: Seq<Seq<char>>, m: Seq<char>)
    requires
        run_moves(c, t).len() == t.len() + 1,
    ensures
        run_moves(c, t.push(m)) == match step(run_moves(c, t).last(), m) {
            Some(n) => run_moves(c, t).push(n),
            None => run_moves(c, t),
        },
    decreases t.len(),
{
    let tm = t.push(m);
    assert(tm[0] == if t.len() == 0 { m } else { t[0] });
    if t.len() == 0 {
        assert(run_moves(c, t) == seq![c]);
        assert(tm.subrange(1, tm.len() as int) =~= Seq::<Seq<char>>::empty());
        match step(c, m) {
            Some(n) => {
                assert(run_moves(n, Seq::<Seq<char>>::empty()) == seq![n]);
                assert(seq![c] + seq![n] =~= seq![c].push(n));
            },
            None => {},
        }
    } else {
        let rest = t.subrange(1, t.len() as int);
        assert(tm.subrange(1, tm.len() as int) =~= rest.push(m));
        match step(c, t[0]) {
            Some(n) => {
                lemma_run_push(n, rest, m);
                let r = run_moves(n, rest);
                assert((seq![c] + r).last() == r.last());
                match step(r.last(), m) {
                    Some(x) => {
                        assert(seq![c] + r.push(x) =~= (seq![c] + r).push(x));
                    },
                    None => {},
                }
            },
            None => {},
        }
    }
}

/// Playing one more move with `apply_uci` on what `from_moves` gave is what `from_moves`
/// gives with that move added at the end: the same position, move sequence and EPD
/// history, or the error for that move.
pub proof fn lemma_apply_extends_moves(
    s: Chess,
    t: Seq<Seq<char>>,
    p: PositionState,
    m: Seq<char>,
    r: Result<PositionState, String>,
)
    requires
        played_from(s, t, Ok(p)),
        applied(p, m, r),
    ensures
        played_from(s, t.push(m), r),
{
    let ps = run_moves(s, t);
    lemma_run_push(s, t, m);
    lemma_join_words_push(t, m);
    match r {
        Ok(q) => {
            assert(epd_trail(ps.push(q.chess)) =~= epd_trail(ps).push(epd_of(q.chess)));
        },
        Err(e) => {},
    }
}

/// The EPD text is a key of the position alone: two games that reach the same position,
/// whatever their moves, give it the same EPD text.
pub proof fn lemma_epd_is_position_key(
    s1: Chess,
    t1: Seq<Seq<char>>,
    p1: PositionState,
    s2: Chess,
    t2: Seq<Seq<char>>,
    p2: PositionState,
)
    requires
        played_from(s1, t1, Ok(p1)),
        played_from(s2, t2, Ok(p2)),
        p1.chess == p2.chess,
    ensures
        p1.epd@ == p2.epd@,
{
}

/// Playing moves one at a time with `apply_uci` builds the move sequence that `from_moves`
/// builds from all of them: appending one more word to the joined words is joining one
/// more word.
pub proof fn lemma_join_words_push(t: Seq<Seq<char>>, m: Seq<char>)
    ensures
        join_words(t.push(m)) == append_move(join_words(t), m),
{
    assert(t.push(m).drop_last() =~= t);
}

} // verus!
