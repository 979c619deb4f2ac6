use vstd::prelude::*;

use crate::text::{
    chars_eq, chars_of, find_chars, find_from, first_index, lemma_first_index_at,
    lemma_first_index_none, parse_u32, parse_u32_spec, split_tokens, string_of, strip_pred,
    sub_chars, tokens, trim, trim_chars, trim_end_by, trim_end_matching, views,
};

verus! {

/// Builds the UCI `position` command for a space-separated move sequence from the start position.
pub fn format_position_cmd(move_sequence: &str) -> (cmd: String)
    ensures
        cmd@ == (if move_sequence@.len() == 0 {
            "position startpos"@
        } else {
            "position startpos moves "@ + move_sequence@
        }),
{
    if move_sequence.is_empty() {
        String::from_str("position startpos")
    } else {
        let mut cmd = String::from_str("position startpos moves ");
        cmd.append(move_sequence);
        cmd
    }
}

/// What `parse_wdl` reads from an engine `info` line: the three numbers after the first
/// `wdl` token, when there are three more tokens and each is a `u32`.
pub open spec fn wdl_spec(line: Seq<char>) -> Option<(u32, u32, u32)> {
    let t = tokens(line);
    match first_index(t, seq!['w', 'd', 'l']) {
        Some(i) => if i + 3 < t.len() {
            match (parse_u32_spec(t[i + 1]), parse_u32_spec(t[i + 2]), parse_u32_spec(t[i + 3])) {
                (Some(w), Some(d), Some(l)) => Some((w, d, l)),
                _ => None,
            }
        } else {
            None
        },
        None => None,
    }
}

/// Parses win/draw/loss permille from an engine `info` line such as
/// `info depth 1 score cp 30 wdl 400 500 100 pv e2e4`.
pub fn parse_wdl(line: &str) -> (r: Option<(u32, u32, u32)>)
    ensures
        r == wdl_spec(line@),
{
    let chars = chars_of(line);
    let toks = split_tokens(&chars);
    let ghost t = tokens(line@);
    let wdl: Vec<char> = vec!['w', 'd', 'l'];
    let mut idx: usize = 0;
    while idx < toks.len()
        invariant
            views(toks@) == t,
            t == tokens(line@),
            wdl@ == seq!['w', 'd', 'l'],
            idx <= toks.len(),
            forall|j: int| 0 <= j < idx ==> t[j] != seq!['w', 'd', 'l'],
        ensures
            idx <= toks.len(),
            forall|j: int| 0 <= j < idx ==> t[j] != seq!['w', 'd', 'l'],
            idx < toks.len() ==> t[idx as int] == seq!['w', 'd', 'l'],
        decreases toks.len() - idx,
    {
        if chars_eq(&toks[idx], &wdl) {
            assert(t[idx as int] == toks@[idx as int]@);
            break;
        }
        idx += 1;
    }
    if idx == toks.len() {
        proof {
            lemma_first_index_none(t, seq!['w', 'd', 'l']);
        }
        return None;
    }
    proof {
        lemma_first_index_at(t, seq!['w', 'd', 'l'], idx as int);
    }
    if toks.len() - idx > 3 {
        let w = parse_u32(&toks[idx + 1]);
        let d = parse_u32(&toks[idx + 2]);
        let l = parse_u32(&toks[idx + 3]);
        match (w, d, l) {
            (Some(w), Some(d), Some(l)) => Some((w, d, l)),
            _ => None,
        }
    } else {
        None
    }
}

/// The king-rook spelling of a castling move given in king-destination notation, as lc0's
/// verbose statistics print it: e1g1 -> e1h1, e1c1 -> e1a1, e8g8 -> e8h8, e8c8 -> e8a8.
pub open spec fn king_rook_alias(m: Seq<char>) -> Option<Seq<char>> {
    if m == seq!['e', '1', 'g', '1'] {
        Some(seq!['e', '1', 'h', '1'])
    } else if m == seq!['e', '1', 'c', '1'] {
        Some(seq!['e', '1', 'a', '1'])
    } else if m == seq!['e', '8', 'g', '8'] {
        Some(seq!['e', '8', 'h', '8'])
    } else if m == seq!['e', '8', 'c', '8'] {
        Some(seq!['e', '8', 'a', '8'])
    } else {
        None
    }
}

/// Maps king-destination castling notation to the king-rook notation used by lc0 verbose stats.
pub fn castle_to_king_rook(uci: &str) -> (r: Option<&'static str>)
    ensures
        match r {
            Some(s) => king_rook_alias(uci@) == Some(s@),
            None => king_rook_alias(uci@) is None,
        },
{
    let m = chars_of(uci);
    let e1g1: Vec<char> = vec!['e', '1', 'g', '1'];
    let e1c1: Vec<char> = vec!['e', '1', 'c', '1'];
    let e8g8: Vec<char> = vec!['e', '8', 'g', '8'];
    let e8c8: Vec<char> = vec!['e', '8', 'c', '8'];
    if chars_eq(&m, &e1g1) {
        let s = "e1h1";
        proof {
            reveal_strlit("e1h1");
            assert(s@ =~= seq!['e', '1', 'h', '1']);
        }
        Some(s)
    } else if chars_eq(&m, &e1c1) {
        let s = "e1a1";
        proof {
            reveal_strlit("e1a1");
            assert(s@ =~= seq!['e', '1', 'a', '1']);
        }
        Some(s)
    } else if chars_eq(&m, &e8g8) {
        let s = "e8h8";
        proof {
            reveal_strlit("e8h8");
            assert(s@ =~= seq!['e', '8', 'h', '8']);
        }
        Some(s)
    } else if chars_eq(&m, &e8c8) {
        let s = "e8a8";
        proof {
            reveal_strlit("e8a8");
            assert(s@ =~= seq!['e', '8', 'a', '8']);
        }
        Some(s)
    } else {
        None
    }
}

/// The value stored under key `k` in an association list: the first entry with that key.
pub open spec fn assoc_get<T>(m: Seq<(String, T)>, k: Seq<char>) -> Option<T> {
    match first_index(m.map_values(|e: (String, T)| e.0@), k) {
        Some(i) => Some(m[i].1),
        None => None,
    }
}

/// A lookup that falls back to the king-rook spelling of a castling move.
pub open spec fn castling_aware_get<T>(m: Seq<(String, T)>, k: Seq<char>) -> Option<T> {
    match assoc_get(m, k) {
        Some(v) => Some(v),
        None => match king_rook_alias(k) {
            Some(a) => assoc_get(m, a),
            None => None,
        },
    }
}

fn assoc_lookup<T: Copy>(key: &Vec<char>, map: &[(String, T)]) -> (r: Option<T>)
    ensures
        r == assoc_get(map@, key@),
{
    let ghost keys = map@.map_values(|e: (String, T)| e.0@);
    let mut i: usize = 0;
    while i < map.len()
        invariant
            i <= map@.len(),
            keys == map@.map_values(|e: (String, T)| e.0@),
            forall|j: int| 0 <= j < i ==> keys[j] != key@,
        decreases map.len() - i,
    {
        let entry_key = chars_of(map[i].0.as_str());
        if chars_eq(&entry_key, key) {
            proof {
                lemma_first_index_at(keys, key@, i as int);
            }
            return Some(map[i].1);
        }
        i += 1;
    }
    proof {
        lemma_first_index_none(keys, key@);
    }
    None
}

/// Looks a move up in a move-keyed table, trying the king-rook castling alias when the
/// move itself is absent.
pub fn lookup_castling_aware<T: Copy>(uci_move: &str, map: &[(String, T)]) -> (r: Option<T>)
    ensures
        r == castling_aware_get(map@, uci_move@),
{
    let key = chars_of(uci_move);
    match assoc_lookup(&key, map) {
        Some(v) => Some(v),
        None => match castle_to_king_rook(uci_move) {
            Some(alt) => {
                let alt_key = chars_of(alt);
                assoc_lookup(&alt_key, map)
            },
            None => None,
        },
    }
}

/// The text of a bracketed field such as `(P: 12.71%)` in `rest`: what lies between the
/// first occurrence of `tag` and the next `)` after it.
pub open spec fn field_text(rest: Seq<char>, tag: Seq<char>) -> Option<Seq<char>> {
    match find_from(rest, tag, 0) {
        Some(start) => {
            let after = rest.subrange(start + tag.len(), rest.len() as int);
            match find_from(after, seq![')'], 0) {
                Some(close) => Some(after.subrange(0, close)),
                None => None,
            }
        },
        None => None,
    }
}

/// What `split_verbose_move_stats` takes from an lc0 verbose statistics line: the move, the
/// policy text (trimmed, without its trailing percent signs) and, when there is one, the
/// trimmed Q text. Lines that do not start with `info string `, whose first word is
/// `node` or that have no `(P: ...)` field give nothing.
pub open spec fn verbose_stats_spec(line: Seq<char>) -> Option<(Seq<char>, Seq<char>, Option<Seq<char>>)> {
    let prefix = seq!['i', 'n', 'f', 'o', ' ', 's', 't', 'r', 'i', 'n', 'g', ' '];
    if line.len() >= prefix.len() && line.subrange(0, prefix.len() as int) == prefix {
        let rest = line.subrange(prefix.len() as int, line.len() as int);
        let t = tokens(rest);
        if t.len() == 0 || t[0] == seq!['n', 'o', 'd', 'e'] {
            None
        } else {
            match field_text(rest, seq!['(', 'P', ':']) {
                Some(p) => Some(
                    (
                        t[0],
                        trim(trim_end_by(trim(p), strip_pred(Some('%')))),
                        match field_text(rest, seq!['(', 'Q', ':']) {
                            Some(q) => Some(trim(q)),
                            None => None,
                        },
                    ),
                ),
                None => None,
            }
        }
    } else {
        None
    }
}

fn field_chars(rest: &Vec<char>, tag: &Vec<char>) -> (r: Option<Vec<char>>)
    ensures
        match r {
            Some(v) => field_text(rest@, tag@) == Some(v@),
            None => field_text(rest@, tag@) is None,
        },
{
    let n = rest.len();
    match find_chars(rest, tag, 0) {
        Some(start) => {
            let after = sub_chars(rest, start + tag.len(), n);
            let close_pat: Vec<char> = vec![')'];
            assert(close_pat@ =~= seq![')']);
            match find_chars(&after, &close_pat, 0) {
                Some(close) => Some(sub_chars(&after, 0, close)),
                None => None,
            }
        },
        None => None,
    }
}

/// Splits an lc0 verbose move statistics line such as
/// `info string d2d4  (293 ) N:    7934 (+18) (P: 12.71%) ... (Q:  0.05704) ...`
/// into the move, the policy percentage text and the Q text (the numbers themselves are
/// read by the caller).
pub fn split_verbose_move_stats(line: &str) -> (r: Option<(String, String, Option<String>)>)
    ensures
        match r {
            Some((m, p, q)) => verbose_stats_spec(line@) == Some(
                (
                    m@,
                    p@,
                    match q {
                        Some(qs) => Some(qs@),
                        None => None::<Seq<char>>,
                    },
                ),
            ),
            None => verbose_stats_spec(line@) is None,
        },
{
    let chars = chars_of(line);
    let prefix: Vec<char> = vec!['i', 'n', 'f', 'o', ' ', 's', 't', 'r', 'i', 'n', 'g', ' '];
    let ghost pre = seq!['i', 'n', 'f', 'o', ' ', 's', 't', 'r', 'i', 'n', 'g', ' '];
    assert(prefix@ =~= pre);
    if chars.len() < prefix.len() {
        return None;
    }
    let head = sub_chars(&chars, 0, prefix.len());
    if !chars_eq(&head, &prefix) {
        return None;
    }
    let rest = sub_chars(&chars, prefix.len(), chars.len());
    let toks = split_tokens(&rest);
    if toks.len() == 0 {
        return None;
    }
    let node: Vec<char> = vec!['n', 'o', 'd', 'e'];
    assert(node@ =~= seq!['n', 'o', 'd', 'e']);
    assert(toks@[0]@ == tokens(rest@)[0]);
    if chars_eq(&toks[0], &node) {
        return None;
    }
    let p_tag: Vec<char> = vec!['(', 'P', ':'];
    assert(p_tag@ =~= seq!['(', 'P', ':']);
    let q_tag: Vec<char> = vec!['(', 'Q', ':'];
    assert(q_tag@ =~= seq!['(', 'Q', ':']);
    match field_chars(&rest, &p_tag) {
        Some(p) => {
            let p1 = trim_chars(&p);
            let p2 = trim_end_matching(&p1, Some('%'));
            let p3 = trim_chars(&p2);
            let q = match field_chars(&rest, &q_tag) {
                Some(qv) => {
                    let qt = trim_chars(&qv);
                    Some(string_of(&qt))
                },
                None => None,
            };
            Some((string_of(&toks[0]), string_of(&p3), q))
        },
        None => None,
    }
}

/// `s` begins with `p`.
pub open spec fn starts_with(s: Seq<char>, p: Seq<char>) -> bool {
    s.len() >= p.len() && s.subrange(0, p.len() as int) == p
}

fn starts_with_chars(s: &Vec<char>, p: &Vec<char>) -> (r: bool)
    ensures
        r == starts_with(s@, p@),
{
    if s.len() < p.len() {
        return false;
    }
    let head = sub_chars(s, 0, p.len());
    chars_eq(&head, p)
}

/// What one line of lc0's answer to `go` tells the evaluation loop.
#[derive(Debug, Clone, PartialEq, Eq)]
pub enum EngineLine {
    /// `bestmove ...`: the search is over.
    BestMove,
    /// A verbose move statistics line: the move, its policy text and its Q text.
    MoveStats(String, String, Option<String>),
    /// An `info` line with win/draw/loss permille.
    Wdl(u32, u32, u32),
    /// Anything else.
    Other,
}

/// How the evaluation loop reads a line (already trimmed): `bestmove` ends it; an
/// `info string` line is verbose move statistics when it splits as such; another `info`
/// line that mentions `wdl` gives the win/draw/loss numbers when it parses.
pub open spec fn engine_line_matches(line: Seq<char>, r: EngineLine) -> bool {
    let bestmove = starts_with(line, seq!['b', 'e', 's', 't', 'm', 'o', 'v', 'e']);
    let info_string = starts_with(line, seq!['i', 'n', 'f', 'o', ' ', 's', 't', 'r', 'i', 'n', 'g']);
    let wdl_info = starts_with(line, seq!['i', 'n', 'f', 'o']) && find_from(line, seq!['w', 'd', 'l'], 0) is Some;
    match r {
        EngineLine::BestMove => bestmove,
        EngineLine::MoveStats(m, p, q) => {
            &&& !bestmove
            &&& info_string
            &&& verbose_stats_spec(line) == Some(
                (
                    m@,
                    p@,
                    match q {
                        Some(qs) => Some(qs@),
                        None => None::<Seq<char>>,
                    },
                ),
            )
        },
        EngineLine::Wdl(w, d, l) => {
            &&& !bestmove
            &&& !info_string
            &&& wdl_info
            &&& wdl_spec(line) == Some((w, d, l))
        },
        EngineLine::Other => {
            &&& !bestmove
            &&& (info_string ==> verbose_stats_spec(line) is None)
            &&& (!info_string && wdl_info ==> wdl_spec(line) is None)
        },
    }
}

/// Reads one (trimmed) line of lc0's answer to `go` (see `engine_line_matches`).
pub fn classify_engine_line(line: &str) -> (r: EngineLine)
    ensures
        engine_line_matches(line@, r),
{
    let chars = chars_of(line);
    let bestmove: Vec<char> = vec!['b', 'e', 's', 't', 'm', 'o', 'v', 'e'];
    assert(bestmove@ =~= seq!['b', 'e', 's', 't', 'm', 'o', 'v', 'e']);
    let info_string: Vec<char> = vec!['i', 'n', 'f', 'o', ' ', 's', 't', 'r', 'i', 'n', 'g'];
    assert(info_string@ =~= seq!['i', 'n', 'f', 'o', ' ', 's', 't', 'r', 'i', 'n', 'g']);
    let info: Vec<char> = vec!['i', 'n', 'f', 'o'];
    assert(info@ =~= seq!['i', 'n', 'f', 'o']);
    let wdl: Vec<char> = vec!['w', 'd', 'l'];
    assert(wdl@ =~= seq!['w', 'd', 'l']);
    if starts_with_chars(&chars, &bestmove) {
        return EngineLine::BestMove;
    }
    if starts_with_chars(&chars, &info_string) {
        return match split_verbose_move_stats(line) {
            Some((m, p, q)) => EngineLine::MoveStats(m, p, q),
            None => EngineLine::Other,
        };
    }
    if starts_with_chars(&chars, &info) && find_chars(&chars, &wdl, 0).is_some() {
        return match parse_wdl(line) {
            Some((w, d, l)) => EngineLine::Wdl(w, d, l),
            None => EngineLine::Other,
        };
    }
    EngineLine::Other
}

/// The bookkeeping before each query to a long-running lc0 process: the query counter
/// goes up by one, and every `interval`-th query first clears the engine with
/// `ucinewgame`. Returns the new count and whether to clear.
pub fn next_query(count: u32, interval: u32) -> (r: (u32, bool))
    requires
        count < u32::MAX,
        interval > 0,
    ensures
        r.0 == count + 1,
        r.1 == ((count + 1) % (interval as int) == 0),
{
    let c = count + 1;
    (c, c % interval == 0)
}

} // verus!
