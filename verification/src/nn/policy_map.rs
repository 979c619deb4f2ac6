use vstd::prelude::*;
use vstd::utf8::*;

use crate::text::push_char;

verus! {

/// Number of movement planes in lc0's policy head (56 queen-type, 8 knight, 9 underpromotion).
pub const NUM_PLANES: usize = 73;

/// Number of (plane, source square) cells walked when generating the move table.
pub const NUM_CELLS: usize = 4672;

/// The two characters naming a square, e.g. file 4, rank 1 is "e2".
pub open spec fn square_chars(file: int, rank: int) -> Seq<char> {
    seq![(97 + file) as char, (49 + rank) as char]
}

/// `k` steps along a unit direction component `u` in {-1, 0, 1}.
pub open spec fn scale(u: int, k: int) -> int {
    if u == 0 {
        0
    } else if u > 0 {
        k
    } else {
        -k
    }
}

/// Queen-type unit directions N, NE, E, SE, S, SW, W, NW as (delta_file, delta_rank).
pub open spec fn queen_dir(d: int) -> (int, int) {
    if d == 0 {
        (0, 1)
    } else if d == 1 {
        (1, 1)
    } else if d == 2 {
        (1, 0)
    } else if d == 3 {
        (1, -1)
    } else if d == 4 {
        (0, -1)
    } else if d == 5 {
        (-1, -1)
    } else if d == 6 {
        (-1, 0)
    } else {
        (-1, 1)
    }
}

/// Knight deltas, clockwise from about one o'clock.
pub open spec fn knight_delta(k: int) -> (int, int) {
    if k == 0 {
        (1, 2)
    } else if k == 1 {
        (2, 1)
    } else if k == 2 {
        (2, -1)
    } else if k == 3 {
        (1, -2)
    } else if k == 4 {
        (-1, -2)
    } else if k == 5 {
        (-2, -1)
    } else if k == 6 {
        (-2, 1)
    } else {
        (-1, 2)
    }
}

/// Underpromotion pieces: knight, bishop, rook (queen promotions are ordinary moves).
pub open spec fn underpromo_piece(i: int) -> char {
    if i == 0 {
        'n'
    } else if i == 1 {
        'b'
    } else {
        'r'
    }
}

/// Underpromotion file deltas: capture to the left, straight, capture to the right.
pub open spec fn underpromo_dx(i: int) -> int {
    if i == 0 {
        -1
    } else if i == 1 {
        0
    } else {
        1
    }
}

/// The (delta_file, delta_rank) of movement plane `p`.
#[verifier::opaque]
pub open spec fn plane_delta(p: int) -> (int, int) {
    if p < 56 {
        let d = queen_dir(p / 7);
        let k = p % 7 + 1;
        (scale(d.0, k), scale(d.1, k))
    } else if p < 64 {
        knight_delta(p - 56)
    } else {
        (underpromo_dx((p - 64) % 3), 1)
    }
}

/// Whether plane `p` from source square `sq` names a move that stays on the board.
pub open spec fn cell_valid_at(p: int, sq: int) -> bool {
    let f = sq % 8;
    let r = sq / 8;
    let d = plane_delta(p);
    if p < 64 {
        0 <= f + d.0 < 8 && 0 <= r + d.1 < 8
    } else {
        r == 6 && 0 <= f + d.0 < 8
    }
}

/// The UCI text of plane `p` from source square `sq`.
pub open spec fn cell_move_at(p: int, sq: int) -> Seq<char> {
    let f = sq % 8;
    let r = sq / 8;
    let d = plane_delta(p);
    let base = square_chars(f, r) + square_chars(f + d.0, r + d.1);
    if p < 64 {
        base
    } else {
        base.push(underpromo_piece((p - 64) / 3))
    }
}

pub open spec fn cell_valid(c: int) -> bool {
    cell_valid_at(c / 64, c % 64)
}

pub open spec fn cell_move(c: int) -> Seq<char> {
    cell_move_at(c / 64, c % 64)
}

/// The moves of the first `n` cells, in lc0's policy index order.
pub open spec fn table_prefix(n: int) -> Seq<Seq<char>>
    decreases n,
{
    if n <= 0 {
        seq![]
    } else {
        let t = table_prefix(n - 1);
        if cell_valid(n - 1) {
            t.push(cell_move(n - 1))
        } else {
            t
        }
    }
}

/// The full policy move table: NN policy index -> UCI move.
pub open spec fn move_table() -> Seq<Seq<char>> {
    table_prefix(NUM_CELLS as int)
}

proof fn lemma_cell_split(p: int, sq: int)
    requires
        0 <= p,
        0 <= sq < 64,
    ensures
        (p * 64 + sq) / 64 == p,
        (p * 64 + sq) % 64 == sq,
{
    assert((p * 64 + sq) / 64 == p) by (nonlinear_arith)
        requires
            0 <= p,
            0 <= sq < 64,
    ;
    assert((p * 64 + sq) % 64 == sq) by (nonlinear_arith)
        requires
            0 <= p,
            0 <= sq < 64,
    ;
}

/// Names a square in UCI notation.
pub fn square_to_str(file: i8, rank: i8) -> (s: String)
    requires
        0 <= file < 8,
        0 <= rank < 8,
    ensures
        s@ == square_chars(file as int, rank as int),
{
    let f = (97u8 + file as u8) as char;
    let r = (49u8 + rank as u8) as char;
    let mut s = String::new();
    push_char(&mut s, f);
    push_char(&mut s, r);
    s
}

fn scale_exec(u: i8, k: i8) -> (r: i8)
    requires
        -1 <= u <= 1,
        0 <= k <= 7,
    ensures
        r == scale(u as int, k as int),
{
    if u == 0 {
        0
    } else if u > 0 {
        k
    } else {
        -k
    }
}

fn queen_dir_exec(d: usize) -> (r: (i8, i8))
    requires
        d < 8,
    ensures
        r.0 == queen_dir(d as int).0,
        r.1 == queen_dir(d as int).1,
{
    match d {
        0 => (0, 1),
        1 => (1, 1),
        2 => (1, 0),
        3 => (1, -1),
        4 => (0, -1),
        5 => (-1, -1),
        6 => (-1, 0),
        _ => (-1, 1),
    }
}

fn knight_delta_exec(k: usize) -> (r: (i8, i8))
    requires
        k < 8,
    ensures
        r.0 == knight_delta(k as int).0,
        r.1 == knight_delta(k as int).1,
{
    match k {
        0 => (1, 2),
        1 => (2, 1),
        2 => (2, -1),
        3 => (1, -2),
        4 => (-1, -2),
        5 => (-2, -1),
        6 => (-2, 1),
        _ => (-1, 2),
    }
}

fn plane_delta_exec(p: usize) -> (r: (i8, i8))
    requires
        p < NUM_PLANES,
    ensures
        r.0 == plane_delta(p as int).0,
        r.1 == plane_delta(p as int).1,
        -7 <= r.0 <= 7,
        -7 <= r.1 <= 7,
{
    reveal(plane_delta);
    if p < 56 {
        let d = queen_dir_exec(p / 7);
        let k = (p % 7 + 1) as i8;
        (scale_exec(d.0, k), scale_exec(d.1, k))
    } else if p < 64 {
        knight_delta_exec(p - 56)
    } else {
        let i = (p - 64) % 3;
        let dx: i8 = if i == 0 {
            -1
        } else if i == 1 {
            0
        } else {
            1
        };
        (dx, 1)
    }
}

fn underpromo_piece_exec(i: usize) -> (c: char)
    requires
        i < 3,
    ensures
        c == underpromo_piece(i as int),
{
    if i == 0 {
        'n'
    } else if i == 1 {
        'b'
    } else {
        'r'
    }
}

/// Target square of plane `p` from square `sq`, when the move stays on the board.
fn cell_target(p: usize, sq: usize) -> (r: Option<(i8, i8)>)
    requires
        p < NUM_PLANES,
        sq < 64,
    ensures
        r is Some <==> cell_valid_at(p as int, sq as int),
        r matches Some(t) ==> t.0 == (sq as int % 8) + plane_delta(p as int).0 && t.1 == (sq as int
            / 8) + plane_delta(p as int).1 && 0 <= t.0 < 8 && 0 <= t.1 < 8,
{
    reveal(plane_delta);
    let f = (sq % 8) as i8;
    let r = (sq / 8) as i8;
    let d = plane_delta_exec(p);
    let nf = f + d.0;
    let nr = r + d.1;
    if p < 64 {
        if 0 <= nf && nf < 8 && 0 <= nr && nr < 8 {
            Some((nf, nr))
        } else {
            None
        }
    } else {
        if r == 6 && 0 <= nf && nf < 8 {
            Some((nf, nr))
        } else {
            None
        }
    }
}

/// Generates the full policy move table in lc0's policy index order.
///
/// Iteration order: 73 movement planes x 64 source squares, keeping only moves
/// whose destination is on the board. Planes 0-55 are queen-type moves
/// (8 directions x 7 distances), planes 56-63 knight moves, planes 64-72
/// underpromotions (3 pieces x 3 directions, from the seventh rank only).
pub fn generate_move_table() -> (moves: Vec<String>)
    ensures
        moves@.len() == move_table().len(),
        moves@.len() == 1858,
        forall|i: int| 0 <= i < moves@.len() ==> #[trigger] moves@[i]@ == move_table()[i],
{
    proof {
        lemma_move_table_len();
    }
    let mut moves: Vec<String> = Vec::with_capacity(1858);
    let mut p: usize = 0;
    while p < NUM_PLANES
        invariant
            p <= NUM_PLANES,
            moves@.len() == table_prefix(p * 64).len(),
            forall|i: int| 0 <= i < moves@.len() ==> #[trigger] moves@[i]@ == table_prefix(p * 64)[i],
        decreases NUM_PLANES - p,
    {
        let mut sq: usize = 0;
        while sq < 64
            invariant
                p < NUM_PLANES,
                sq <= 64,
                moves@.len() == table_prefix(p * 64 + sq).len(),
                forall|i: int|
                    0 <= i < moves@.len() ==> #[trigger] moves@[i]@ == table_prefix(p * 64 + sq)[i],
            decreases 64 - sq,
        {
            proof {
                lemma_cell_split(p as int, sq as int);
            }
            let ghost prev = moves@;
            match cell_target(p, sq) {
                Some((nf, nr)) => {
                    let f = (sq % 8) as i8;
                    let r = (sq / 8) as i8;
                    let mut m = square_to_str(f, r);
                    let to = square_to_str(nf, nr);
                    m.append(to.as_str());
                    if p >= 64 {
                        push_char(&mut m, underpromo_piece_exec((p - 64) / 3));
                    }
                    assert(m@ == cell_move(p * 64 + sq));
                    moves.push(m);
                    assert forall|i: int| 0 <= i < moves@.len() implies #[trigger] moves@[i]@
                        == table_prefix(p * 64 + sq + 1)[i] by {
                        if i < prev.len() {
                            assert(moves@[i] == prev[i]);
                        }
                    }
                },
                None => {},
            }
            sq += 1;
        }
        p += 1;
    }
    moves
}

/// A rank byte mirrored top to bottom: '1' <-> '8', '2' <-> '7', and so on.
pub open spec fn flip_rank_byte(b: u8) -> char {
    (105 - b) as char
}

/// Whether `flip_move` accepts these bytes: four bytes at least, rank bytes at most 'i'.
pub open spec fn flip_ok(b: Seq<u8>) -> bool {
    &&& b.len() >= 4
    &&& 49 <= b[1] <= 105
    &&& 49 <= b[3] <= 105
}

/// The UCI move mirrored top to bottom, read from its bytes: from-file, flipped
/// from-rank, to-file, flipped to-rank, and the promotion byte when there is one.
pub open spec fn flip_bytes(b: Seq<u8>) -> Seq<char> {
    let base = seq![b[0] as char, flip_rank_byte(b[1]), b[2] as char, flip_rank_byte(b[3])];
    if b.len() > 4 {
        base.push(b[4] as char)
    } else {
        base
    }
}

/// The same mirror on a move given by its characters.
pub open spec fn flip_chars(m: Seq<char>) -> Seq<char> {
    let base = seq![m[0], (105 - m[1] as int) as char, m[2], (105 - m[3] as int) as char];
    if m.len() > 4 {
        base.push(m[4])
    } else {
        base
    }
}

/// A queen promotion is looked up as the plain move: "a7a8q" -> "a7a8".
pub open spec fn strip_queen_promo(k: Seq<char>) -> Seq<char> {
    if k.len() == 5 && k[4] == 'q' {
        k.take(4)
    } else {
        k
    }
}

/// The key that `move_to_nn_index` looks up for a move with characters `m`.
pub open spec fn lookup_key(m: Seq<char>, flip: bool) -> Seq<char> {
    strip_queen_promo(if flip { flip_bytes(encode_utf8(m)) } else { m })
}

/// The first policy index whose move is `k`, if any.
pub open spec fn table_index(k: Seq<char>) -> Option<int> {
    let t = move_table();
    if t.contains(k) {
        Some(choose|i: int| 0 <= i < t.len() && t[i] == k && forall|j: int| 0 <= j < i ==> t[j] != k)
    } else {
        None
    }
}

/// The move that `nn_index_to_move` returns for a valid index.
pub open spec fn nn_move(i: int, flip: bool) -> Seq<char> {
    if flip {
        flip_chars(move_table()[i])
    } else {
        move_table()[i]
    }
}

/// Mirrors a rank character: '1' <-> '8', '2' <-> '7', and so on.
pub fn flip_rank_char(c: char) -> (r: char)
    requires
        49 <= (c as u32) % 256 <= 105,
    ensures
        r == flip_rank_byte(((c as u32) % 256) as u8),
{
    let b = ((c as u32) % 256) as u8;
    let r = b - 49;
    (56 - r) as char
}

/// Mirrors a UCI move vertically, for Black's perspective: "e7e5" -> "e2e4", "a7a8q" -> "a2a1q".
pub fn flip_move(uci: &str) -> (r: String)
    requires
        flip_ok(encode_utf8(uci@)),
    ensures
        r@ == flip_bytes(encode_utf8(uci@)),
{
    let bytes = uci.as_bytes();
    let mut result = String::new();
    push_char(&mut result, bytes[0] as char);
    push_char(&mut result, flip_rank_char(bytes[1] as char));
    push_char(&mut result, bytes[2] as char);
    push_char(&mut result, flip_rank_char(bytes[3] as char));
    if bytes.len() > 4 {
        push_char(&mut result, bytes[4] as char);
    }
    result
}

pub open spec fn sign(x: int) -> int {
    if x > 0 {
        1
    } else if x < 0 {
        -1
    } else {
        0
    }
}

pub open spec fn abs(x: int) -> int {
    if x < 0 {
        -x
    } else {
        x
    }
}

/// Index of a queen-type unit direction, inverse of `queen_dir`.
pub open spec fn dir_index(ux: int, uy: int) -> int {
    if ux == 0 && uy == 1 {
        0
    } else if ux == 1 && uy == 1 {
        1
    } else if ux == 1 && uy == 0 {
        2
    } else if ux == 1 && uy == -1 {
        3
    } else if ux == 0 && uy == -1 {
        4
    } else if ux == -1 && uy == -1 {
        5
    } else if ux == -1 && uy == 0 {
        6
    } else {
        7
    }
}

/// Index of a knight delta, inverse of `knight_delta`.
pub open spec fn knight_index(dx: int, dy: int) -> int {
    if dx == 1 && dy == 2 {
        0
    } else if dx == 2 && dy == 1 {
        1
    } else if dx == 2 && dy == -1 {
        2
    } else if dx == 1 && dy == -2 {
        3
    } else if dx == -1 && dy == -2 {
        4
    } else if dx == -2 && dy == -1 {
        5
    } else if dx == -2 && dy == 1 {
        6
    } else {
        7
    }
}

/// Index of an underpromotion piece, inverse of `underpromo_piece`.
pub open spec fn piece_index(c: char) -> int {
    if c == 'n' {
        0
    } else if c == 'b' {
        1
    } else {
        2
    }
}

/// The movement plane of a move with the given deltas and promotion.
pub open spec fn plane_of(dx: int, dy: int, promotes: bool, promo: char) -> int {
    if promotes {
        64 + piece_index(promo) * 3 + (dx + 1)
    } else if dx != 0 && dy != 0 && abs(dx) != abs(dy) {
        56 + knight_index(dx, dy)
    } else {
        dir_index(sign(dx), sign(dy)) * 7 + (if abs(dx) > abs(dy) {
            abs(dx)
        } else {
            abs(dy)
        }) - 1
    }
}

/// The cell a table move comes from: its plane and source square.
pub open spec fn decode_cell(m: Seq<char>) -> int {
    let f = m[0] as int - 97;
    let r = m[1] as int - 49;
    let dx = m[2] as int - 97 - f;
    let dy = m[3] as int - 49 - r;
    plane_of(dx, dy, m.len() == 5, m[4]) * 64 + r * 8 + f
}

proof fn lemma_plane_of(p: int)
    requires
        0 <= p < NUM_PLANES,
    ensures
        plane_of(
            plane_delta(p).0,
            plane_delta(p).1,
            p >= 64,
            underpromo_piece((p - 64) / 3),
        ) == p,
{
    reveal(plane_delta);
    if p < 56 {
        let d = p / 7;
        let k = p % 7 + 1;
        assert(p == d * 7 + k - 1);
        assert(0 <= d < 8);
        assert(1 <= k <= 7);
    } else if p < 64 {
    } else {
        let q = p - 64;
        assert(q == (q / 3) * 3 + q % 3);
    }
}

/// Shape of a table move: four or five ASCII characters, files 'a'..'h', ranks '1'..'8',
/// and a fifth character only for underpromotions.
pub open spec fn well_formed_move(m: Seq<char>) -> bool {
    &&& m.len() == 4 || m.len() == 5
    &&& 'a' <= m[0] <= 'h'
    &&& '1' <= m[1] <= '8'
    &&& 'a' <= m[2] <= 'h'
    &&& '1' <= m[3] <= '8'
    &&& m.len() == 5 ==> (m[4] == 'n' || m[4] == 'b' || m[4] == 'r')
}

proof fn lemma_cell_decode(p: int, sq: int)
    requires
        0 <= p < NUM_PLANES,
        0 <= sq < 64,
        cell_valid_at(p, sq),
    ensures
        decode_cell(cell_move_at(p, sq)) == p * 64 + sq,
        well_formed_move(cell_move_at(p, sq)),
        cell_move_at(p, sq).len() == (if p < 64 {
            4int
        } else {
            5int
        }),
{
    reveal(plane_delta);
    lemma_plane_of(p);
    let m = cell_move_at(p, sq);
    let f = sq % 8;
    let r = sq / 8;
    assert(sq == r * 8 + f);
    assert(m[0] as int == 97 + f);
    assert(m[1] as int == 49 + r);
    assert(m[2] as int == 97 + f + plane_delta(p).0);
    assert(m[3] as int == 49 + r + plane_delta(p).1);
    if p >= 64 {
        assert(m[4] == underpromo_piece((p - 64) / 3));
    }
}

proof fn lemma_cell_decode_linear(c: int)
    requires
        0 <= c < NUM_CELLS,
        cell_valid(c),
    ensures
        decode_cell(cell_move(c)) == c,
        well_formed_move(cell_move(c)),
{
    lemma_cell_decode(c / 64, c % 64);
}

/// Every prefix of the table lists valid cells' moves in strictly increasing cell order.
proof fn lemma_prefix_cells(n: int)
    requires
        0 <= n <= NUM_CELLS,
    ensures
        forall|i: int|
            0 <= i < table_prefix(n).len() ==> {
                let e = #[trigger] table_prefix(n)[i];
                &&& 0 <= decode_cell(e) < n
                &&& cell_valid(decode_cell(e))
                &&& e == cell_move(decode_cell(e))
                &&& well_formed_move(e)
            },
        forall|i: int, j: int|
            0 <= i < j < table_prefix(n).len() ==> decode_cell(#[trigger] table_prefix(n)[i])
                < decode_cell(#[trigger] table_prefix(n)[j]),
    decreases n,
{
    if n > 0 {
        lemma_prefix_cells(n - 1);
        let prev = table_prefix(n - 1);
        let cur = table_prefix(n);
        if cell_valid(n - 1) {
            lemma_cell_decode_linear(n - 1);
            assert(cur == prev.push(cell_move(n - 1)));
            assert forall|i: int| 0 <= i < prev.len() implies #[trigger] cur[i] == prev[i] by {}
            assert(cur[prev.len() as int] == cell_move(n - 1));
            assert forall|i: int, j: int|
                0 <= i < j < cur.len() implies decode_cell(#[trigger] cur[i]) < decode_cell(
                #[trigger] cur[j]) by {
                assert(cur[i] == prev[i]);
                if j < prev.len() {
                    assert(cur[j] == prev[j]);
                }
            }
        }
    }
}

/// A shorter prefix of the table is a prefix of a longer one.
proof fn lemma_table_index_at(k: Seq<char>, i: int)
    requires
        0 <= i < move_table().len(),
        move_table()[i] == k,
        forall|j: int| 0 <= j < i ==> move_table()[j] != k,
    ensures
        table_index(k) == Some(i),
{
    let t = move_table();
    assert(t.contains(k));
    let c = choose|c: int| 0 <= c < t.len() && t[c] == k && forall|j: int| 0 <= j < c ==> t[j] != k;
    assert(0 <= c < t.len() && t[c] == k && forall|j: int| 0 <= j < c ==> t[j] != k);
    if c < i {
        assert(t[c] != k);
    } else if c > i {
        assert(t[i] != k);
    }
}

proof fn lemma_prefix_len(n: int)
    requires
        0 <= n,
    ensures
        table_prefix(n).len() <= n,
    decreases n,
{
    if n > 0 {
        lemma_prefix_len(n - 1);
    }
}

/// One step of a scan over the cells: `count` moves before cell `c`, none of them `key`.
proof fn lemma_scan_step(c: int, key: Seq<char>)
    requires
        0 <= c < NUM_CELLS,
        forall|j: int| 0 <= j < table_prefix(c).len() ==> #[trigger] table_prefix(c)[j] != key,
    ensures
        table_prefix(c + 1).len() == table_prefix(c).len() + (if cell_valid(c) {
            1int
        } else {
            0int
        }),
        table_prefix(c + 1).len() <= c + 1,
        cell_valid(c) && cell_move(c) == key ==> table_index(key) == Some(
            table_prefix(c).len() as int,
        ),
        cell_valid(c) ==> table_prefix(c + 1)[table_prefix(c).len() as int] == cell_move(c),
        !(cell_valid(c) && cell_move(c) == key) ==> forall|j: int|
            0 <= j < table_prefix(c + 1).len() ==> #[trigger] table_prefix(c + 1)[j] != key,
{
    lemma_prefix_len(c + 1);
    let prev = table_prefix(c);
    let cur = table_prefix(c + 1);
    if cell_valid(c) {
        assert(cur == prev.push(cell_move(c)));
        assert forall|j: int| 0 <= j < prev.len() implies #[trigger] cur[j] == prev[j] by {}
    }
    if cell_valid(c) && cell_move(c) == key {
        lemma_prefix_extends(c + 1, NUM_CELLS as int);
        let t = move_table();
        assert(t[prev.len() as int] == key);
        assert forall|j: int| 0 <= j < prev.len() implies t[j] != key by {
            assert(t[j] == cur[j]);
            assert(cur[j] == prev[j]);
        }
        lemma_table_index_at(key, prev.len() as int);
    }
    if !(cell_valid(c) && cell_move(c) == key) {
        assert forall|j: int| 0 <= j < cur.len() implies #[trigger] cur[j] != key by {
            if j < prev.len() {
                assert(cur[j] == prev[j]);
            }
        }
    }
}

proof fn lemma_prefix_extends(m: int, n: int)
    requires
        0 <= m <= n,
    ensures
        table_prefix(m).len() <= table_prefix(n).len(),
        forall|i: int|
            0 <= i < table_prefix(m).len() ==> #[trigger] table_prefix(n)[i] == table_prefix(m)[i],
    decreases n - m,
{
    if m < n {
        lemma_prefix_extends(m, n - 1);
    }
}

/// No move occurs twice in the policy table.
pub proof fn lemma_move_table_distinct()
    ensures
        forall|i: int, j: int|
            0 <= i < move_table().len() && 0 <= j < move_table().len() && i != j
                ==> #[trigger] move_table()[i] != #[trigger] move_table()[j],
        forall|i: int| 0 <= i < move_table().len() ==> well_formed_move(#[trigger] move_table()[i]),
{
    lemma_prefix_cells(NUM_CELLS as int);
    assert forall|i: int, j: int|
        0 <= i < move_table().len() && 0 <= j < move_table().len() && i != j
            implies #[trigger] move_table()[i] != #[trigger] move_table()[j] by {
        if i < j {
            assert(decode_cell(move_table()[i]) < decode_cell(move_table()[j]));
        } else {
            assert(decode_cell(move_table()[j]) < decode_cell(move_table()[i]));
        }
    }
}

/// How many of the cells `lo..hi` name a move on the board.
pub open spec fn valid_count(lo: int, hi: int) -> nat
    decreases hi - lo,
{
    if hi <= lo {
        0
    } else {
        valid_count(lo, hi - 1) + if cell_valid(hi - 1) {
            1nat
        } else {
            0nat
        }
    }
}

/// The table holds exactly the moves of the valid cells.
proof fn lemma_prefix_count(n: int)
    requires
        0 <= n,
    ensures
        table_prefix(n).len() == valid_count(0, n),
    decreases n,
{
    if n > 0 {
        lemma_prefix_count(n - 1);
    }
}

/// The cells of the first 25 planes, counted one plane (64 cells) at a time.
#[verifier::rlimit(100)]
proof fn lemma_count_planes_low()
    ensures
        valid_count(0, 1600) == 714,
{
    reveal(plane_delta);
    reveal_with_fuel(valid_count, 65);
    assert(valid_count(0, 64) == 56);
    assert(valid_count(0, 128) == 104);
    assert(valid_count(0, 192) == 144);
    assert(valid_count(0, 256) == 176);
    assert(valid_count(0, 320) == 200);
    assert(valid_count(0, 384) == 216);
    assert(valid_count(0, 448) == 224);
    assert(valid_count(0, 512) == 273);
    assert(valid_count(0, 576) == 309);
    assert(valid_count(0, 640) == 334);
    assert(valid_count(0, 704) == 350);
    assert(valid_count(0, 768) == 359);
    assert(valid_count(0, 832) == 363);
    assert(valid_count(0, 896) == 364);
    assert(valid_count(0, 960) == 420);
    assert(valid_count(0, 1024) == 468);
    assert(valid_count(0, 1088) == 508);
    assert(valid_count(0, 1152) == 540);
    assert(valid_count(0, 1216) == 564);
    assert(valid_count(0, 1280) == 580);
    assert(valid_count(0, 1344) == 588);
    assert(valid_count(0, 1408) == 637);
    assert(valid_count(0, 1472) == 673);
    assert(valid_count(0, 1536) == 698);
    assert(valid_count(0, 1600) == 714);
}

/// The cells of planes 25 to 49, counted one plane at a time.
#[verifier::rlimit(100)]
proof fn lemma_count_planes_mid()
    requires
        valid_count(0, 1600) == 714,
    ensures
        valid_count(0, 3200) == 1365,
{
    reveal(plane_delta);
    reveal_with_fuel(valid_count, 65);
    assert(valid_count(0, 1664) == 723);
    assert(valid_count(0, 1728) == 727);
    assert(valid_count(0, 1792) == 728);
    assert(valid_count(0, 1856) == 784);
    assert(valid_count(0, 1920) == 832);
    assert(valid_count(0, 1984) == 872);
    assert(valid_count(0, 2048) == 904);
    assert(valid_count(0, 2112) == 928);
    assert(valid_count(0, 2176) == 944);
    assert(valid_count(0, 2240) == 952);
    assert(valid_count(0, 2304) == 1001);
    assert(valid_count(0, 2368) == 1037);
    assert(valid_count(0, 2432) == 1062);
    assert(valid_count(0, 2496) == 1078);
    assert(valid_count(0, 2560) == 1087);
    assert(valid_count(0, 2624) == 1091);
    assert(valid_count(0, 2688) == 1092);
    assert(valid_count(0, 2752) == 1148);
    assert(valid_count(0, 2816) == 1196);
    assert(valid_count(0, 2880) == 1236);
    assert(valid_count(0, 2944) == 1268);
    assert(valid_count(0, 3008) == 1292);
    assert(valid_count(0, 3072) == 1308);
    assert(valid_count(0, 3136) == 1316);
    assert(valid_count(0, 3200) == 1365);
}

/// The cells of the last planes, counted one plane at a time.
#[verifier::rlimit(100)]
proof fn lemma_count_planes_high()
    requires
        valid_count(0, 3200) == 1365,
    ensures
        valid_count(0, NUM_CELLS as int) == 1858,
{
    reveal(plane_delta);
    reveal_with_fuel(valid_count, 65);
    assert(valid_count(0, 3264) == 1401);
    assert(valid_count(0, 3328) == 1426);
    assert(valid_count(0, 3392) == 1442);
    assert(valid_count(0, 3456) == 1451);
    assert(valid_count(0, 3520) == 1455);
    assert(valid_count(0, 3584) == 1456);
    assert(valid_count(0, 3648) == 1498);
    assert(valid_count(0, 3712) == 1540);
    assert(valid_count(0, 3776) == 1582);
    assert(valid_count(0, 3840) == 1624);
    assert(valid_count(0, 3904) == 1666);
    assert(valid_count(0, 3968) == 1708);
    assert(valid_count(0, 4032) == 1750);
    assert(valid_count(0, 4096) == 1792);
    assert(valid_count(0, 4160) == 1799);
    assert(valid_count(0, 4224) == 1807);
    assert(valid_count(0, 4288) == 1814);
    assert(valid_count(0, 4352) == 1821);
    assert(valid_count(0, 4416) == 1829);
    assert(valid_count(0, 4480) == 1836);
    assert(valid_count(0, 4544) == 1843);
    assert(valid_count(0, 4608) == 1851);
    assert(valid_count(0, 4672) == 1858);
}

/// The policy table has 1858 entries, the size of lc0's policy head.
pub proof fn lemma_move_table_len()
    ensures
        move_table().len() == 1858,
{
    lemma_prefix_count(NUM_CELLS as int);
    lemma_count_planes_low();
    lemma_count_planes_mid();
    lemma_count_planes_high();
}

/// Whether the move of plane `p` from square `sq`, landing on (`nf`, `nr`), reads as `key`.
fn cell_matches(p: usize, sq: usize, nf: i8, nr: i8, key: &Vec<char>) -> (r: bool)
    requires
        p < NUM_PLANES,
        sq < 64,
        cell_valid_at(p as int, sq as int),
        nf == (sq as int % 8) + plane_delta(p as int).0,
        nr == (sq as int / 8) + plane_delta(p as int).1,
        0 <= nf < 8,
        0 <= nr < 8,
    ensures
        r == (cell_move_at(p as int, sq as int) == key@),
{
    let m = Ghost(cell_move_at(p as int, sq as int));
    let f = (sq % 8) as u8;
    let r = (sq / 8) as u8;
    let want_len: usize = if p < 64 {
        4
    } else {
        5
    };
    assert(m@.len() == want_len);
    if key.len() != want_len {
        return false;
    }
    let c0 = (97u8 + f) as char;
    let c1 = (49u8 + r) as char;
    let c2 = (97u8 + nf as u8) as char;
    let c3 = (49u8 + nr as u8) as char;
    assert(m@[0] == c0 && m@[1] == c1 && m@[2] == c2 && m@[3] == c3);
    if key[0] != c0 || key[1] != c1 || key[2] != c2 || key[3] != c3 {
        return false;
    }
    if p >= 64 {
        let promo = underpromo_piece_exec((p - 64) / 3);
        assert(m@[4] == promo);
        if key[4] != promo {
            return false;
        }
    }
    assert(m@ =~= key@);
    true
}

/// The characters of `s`, when it has exactly four or five of them.
fn short_chars(s: &str) -> (r: Option<Vec<char>>)
    ensures
        r matches Some(v) ==> v@ == s@,
        r is None ==> s@.len() != 4 && s@.len() != 5,
{
    let n = s.unicode_len();
    if n != 4 && n != 5 {
        return None;
    }
    let mut v: Vec<char> = Vec::with_capacity(n);
    let mut i: usize = 0;
    while i < n
        invariant
            n == s@.len(),
            i <= n,
            v@ == s@.take(i as int),
        decreases n - i,
    {
        v.push(s.get_char(i));
        assert(s@.take(i + 1) == s@.take(i as int).push(s@[i as int]));
        i += 1;
    }
    assert(s@.take(n as int) == s@);
    Some(v)
}

/// The mirrored move as characters, computed from the move's bytes.
fn flipped_chars(uci: &str) -> (v: Vec<char>)
    requires
        flip_ok(encode_utf8(uci@)),
    ensures
        v@ == flip_bytes(encode_utf8(uci@)),
{
    let bytes = uci.as_bytes();
    let mut v: Vec<char> = Vec::with_capacity(5);
    v.push(bytes[0] as char);
    v.push(flip_rank_char(bytes[1] as char));
    v.push(bytes[2] as char);
    v.push(flip_rank_char(bytes[3] as char));
    if bytes.len() > 4 {
        v.push(bytes[4] as char);
    }
    assert(v@ =~= flip_bytes(encode_utf8(uci@)));
    v
}

/// Looks up the NN policy index for a UCI move.
///
/// When `flip` is true (Black to move), the move is mirrored vertically before
/// lookup, since the network always sees moves from White's side. A trailing 'q'
/// is stripped from five-character moves: lc0 encodes queen promotions as
/// ordinary queen-type moves.
pub fn move_to_nn_index(uci: &str, flip: bool) -> (r: Option<usize>)
    requires
        flip ==> flip_ok(encode_utf8(uci@)),
    ensures
        match r {
            Some(i) => table_index(lookup_key(uci@, flip)) == Some(i as int),
            None => table_index(lookup_key(uci@, flip)) is None,
        },
{
    let ghost key_spec = lookup_key(uci@, flip);
    proof {
        lemma_move_table_distinct();
    }
    let mut key: Vec<char> = if flip {
        flipped_chars(uci)
    } else {
        match short_chars(uci) {
            Some(v) => v,
            None => {
                assert(!move_table().contains(key_spec));
                return None;
            },
        }
    };
    if key.len() == 5 && key[4] == 'q' {
        key.pop();
        assert(key@ =~= key_spec);
    }
    assert(key@ == key_spec);
    if key.len() != 4 && key.len() != 5 {
        assert(!move_table().contains(key_spec));
        return None;
    }
    let mut count: usize = 0;
    let mut p: usize = 0;
    while p < NUM_PLANES
        invariant
            p <= NUM_PLANES,
            key@ == key_spec,
            key_spec == lookup_key(uci@, flip),
            count == table_prefix(p * 64).len(),
            forall|j: int| 0 <= j < count ==> #[trigger] table_prefix(p * 64)[j] != key_spec,
        decreases NUM_PLANES - p,
    {
        let mut sq: usize = 0;
        while sq < 64
            invariant
                p < NUM_PLANES,
                sq <= 64,
                key@ == key_spec,
                key_spec == lookup_key(uci@, flip),
                count == table_prefix(p * 64 + sq).len(),
                forall|j: int| 0 <= j < count ==> #[trigger] table_prefix(p * 64 + sq)[j] != key_spec,
            decreases 64 - sq,
        {
            proof {
                lemma_cell_split(p as int, sq as int);
                lemma_scan_step(p * 64 + sq, key_spec);
            }
            match cell_target(p, sq) {
                Some((nf, nr)) => {
                    if cell_matches(p, sq, nf, nr, &key) {
                        return Some(count);
                    }
                    count += 1;
                },
                None => {},
            }
            sq += 1;
        }
        p += 1;
    }
    proof {
        lemma_prefix_extends(NUM_CELLS as int, NUM_CELLS as int);
    }
    assert(!move_table().contains(key_spec)) by {
        if move_table().contains(key_spec) {
            let j = choose|j: int| 0 <= j < move_table().len() && move_table()[j] == key_spec;
            assert(table_prefix(NUM_CELLS as int)[j] != key_spec);
        }
    }
    None
}

/// Writes the move of plane `p` from square `sq`, mirrored when `flip` is set.
fn cell_string(p: usize, sq: usize, nf: i8, nr: i8, flip: bool) -> (s: String)
    requires
        p < NUM_PLANES,
        sq < 64,
        cell_valid_at(p as int, sq as int),
        nf == (sq as int % 8) + plane_delta(p as int).0,
        nr == (sq as int / 8) + plane_delta(p as int).1,
        0 <= nf < 8,
        0 <= nr < 8,
    ensures
        s@ == (if flip {
            flip_chars(cell_move_at(p as int, sq as int))
        } else {
            cell_move_at(p as int, sq as int)
        }),
{
    let ghost m = cell_move_at(p as int, sq as int);
    let f = (sq % 8) as u8;
    let r = (sq / 8) as u8;
    let from_rank: u8 = if flip {
        56 - r
    } else {
        49 + r
    };
    let to_rank: u8 = if flip {
        56 - nr as u8
    } else {
        49 + nr as u8
    };
    let mut s = String::new();
    push_char(&mut s, (97u8 + f) as char);
    push_char(&mut s, from_rank as char);
    push_char(&mut s, (97u8 + nf as u8) as char);
    push_char(&mut s, to_rank as char);
    if p >= 64 {
        push_char(&mut s, underpromo_piece_exec((p - 64) / 3));
    }
    assert(s@ =~= (if flip {
        flip_chars(m)
    } else {
        m
    }));
    s
}

/// Converts an NN policy index back to a UCI move.
///
/// When `flip` is true (Black to move), the move is mirrored back to the
/// board's own orientation.
pub fn nn_index_to_move(idx: usize, flip: bool) -> (r: Option<String>)
    ensures
        match r {
            Some(s) => idx < move_table().len() && s@ == nn_move(idx as int, flip),
            None => idx >= move_table().len(),
        },
        r is Some <==> idx < 1858,
{
    proof {
        lemma_move_table_len();
    }
    let mut count: usize = 0;
    let mut p: usize = 0;
    while p < NUM_PLANES
        invariant
            p <= NUM_PLANES,
            count == table_prefix(p * 64).len(),
            count <= idx,
            move_table().len() == 1858,
        decreases NUM_PLANES - p,
    {
        let mut sq: usize = 0;
        while sq < 64
            invariant
                p < NUM_PLANES,
                sq <= 64,
                count == table_prefix(p * 64 + sq).len(),
                count <= idx,
                move_table().len() == 1858,
            decreases 64 - sq,
        {
            proof {
                lemma_cell_split(p as int, sq as int);
                lemma_prefix_len(p * 64 + sq + 1);
                lemma_prefix_extends(p * 64 + sq + 1, NUM_CELLS as int);
            }
            match cell_target(p, sq) {
                Some((nf, nr)) => {
                    if count == idx {
                        proof {
                            assert(table_prefix(p * 64 + sq + 1) == table_prefix(p * 64 + sq).push(
                                cell_move(p * 64 + sq),
                            ));
                            assert(move_table()[idx as int] == cell_move(p * 64 + sq));
                        }
                        return Some(cell_string(p, sq, nf, nr, flip));
                    }
                    count += 1;
                },
                None => {},
            }
            sq += 1;
        }
        p += 1;
    }
    None
}

proof fn lemma_ascii_byte(c: char)
    requires
        (c as u32) < 128,
    ensures
        (c as u8) as int == c as int,
{
    let v = c as u32;
    assert((v as u8) as u32 == v) by (bit_vector)
        requires
            v < 128,
    ;
    assert(c as u8 == v as u8);
}

/// A move `flip_move` mirrors back exactly: four or five ASCII characters with ranks '1'..'8'.
pub open spec fn mirrorable_move(m: Seq<char>) -> bool {
    &&& m.len() == 4 || m.len() == 5
    &&& is_ascii_chars(m)
    &&& '1' <= m[1] <= '8'
    &&& '1' <= m[3] <= '8'
}

proof fn lemma_mirror(m: Seq<char>)
    requires
        mirrorable_move(m),
    ensures
        flip_ok(encode_utf8(m)),
        flip_bytes(encode_utf8(m)) == flip_chars(m),
        mirrorable_move(flip_chars(m)),
        flip_chars(flip_chars(m)) == m,
{
    is_ascii_chars_encode_utf8(m);
    let b = encode_utf8(m);
    assert forall|i: int| 0 <= i < m.len() implies (b[i] as char) == m[i] && b[i] as int == m[i]
        as int by {
        lemma_ascii_byte(m[i]);
    }
    assert(flip_bytes(b) =~= flip_chars(m));
    assert(flip_chars(flip_chars(m)) =~= m);
}

proof fn lemma_well_formed_mirrorable(m: Seq<char>)
    requires
        well_formed_move(m),
    ensures
        mirrorable_move(m),
        strip_queen_promo(m) == m,
{
}

/// Reading a table index back as a move and looking that move up gives the index again,
/// in both orientations; and an index found for a key names that very key.
pub proof fn lemma_policy_index_roundtrip(i: int, flip: bool)
    requires
        0 <= i < 1858,
    ensures
        table_index(lookup_key(nn_move(i, flip), flip)) == Some(i),
{
    lemma_move_table_len();
    lemma_move_table_distinct();
    let t = move_table();
    let m = t[i];
    lemma_well_formed_mirrorable(m);
    if flip {
        lemma_mirror(m);
        lemma_mirror(flip_chars(m));
    }
    assert(lookup_key(nn_move(i, flip), flip) == m);
    lemma_table_index_at(m, i);
}

/// Black's move for a policy index is White's move for that index mirrored by
/// `flip_move`.
pub proof fn lemma_nn_move_flip(i: int)
    requires
        0 <= i < 1858,
    ensures
        flip_ok(encode_utf8(nn_move(i, false))),
        nn_move(i, true) == flip_bytes(encode_utf8(nn_move(i, false))),
{
    lemma_move_table_len();
    lemma_move_table_distinct();
    let m = move_table()[i];
    lemma_well_formed_mirrorable(m);
    lemma_mirror(m);
}

proof fn lemma_names_mirrorable(u: Seq<char>, flip: bool)
    requires
        mirrorable_move(u),
        table_index(lookup_key(u, flip)) is Some,
    ensures
        nn_move(table_index(lookup_key(u, flip))->0, flip) == strip_queen_promo(u),
{
    lemma_table_index_names_key(lookup_key(u, flip));
    if flip {
        lemma_mirror(u);
        let f = flip_chars(u);
        if u.len() == 5 && u[4] == 'q' {
            assert(strip_queen_promo(f) == f.take(4));
            assert(flip_chars(f.take(4)) =~= u.take(4));
        } else {
            assert(strip_queen_promo(f) == f);
        }
    }
}

/// The index found for a move of four or five characters reads back as that move (a
/// queen promotion without its 'q'), in both orientations.
pub proof fn lemma_index_names_move(u: Seq<char>, flip: bool)
    requires
        u.len() == 4 || u.len() == 5,
        flip ==> flip_ok(encode_utf8(u)),
    ensures
        table_index(lookup_key(u, flip)) matches Some(j) ==> 0 <= j < 1858 && nn_move(j, flip)
            == strip_queen_promo(u),
{
    lemma_move_table_len();
    lemma_move_table_distinct();
    let k = lookup_key(u, flip);
    lemma_table_index_names_key(k);
    if table_index(k) is Some {
        assert(well_formed_move(k));
        if flip {
            let b = encode_utf8(u);
            let fb = flip_bytes(b);
            assert(fb[1] == flip_rank_byte(b[1]) && fb[3] == flip_rank_byte(b[3]));
            assert(k[1] == fb[1] && k[3] == fb[3]);
            if b.len() > 4 {
                assert(k.len() == 5 ==> k[4] == fb[4]);
                assert(fb[4] == b[4] as char);
            }
            lemma_short_ascii(u);
            is_ascii_chars_encode_utf8(u);
            lemma_ascii_byte(u[1]);
            lemma_ascii_byte(u[3]);
        } else if u.len() == 5 && u[4] == 'q' {
            assert(k == u.take(4));
            assert forall|i: int| 0 <= i < u.len() implies '\0' <= #[trigger] u[i] <= '\u{7f}' by {
                lemma_char_nonneg(u[i]);
                if i < 4 {
                    assert(u[i] == k[i]);
                }
            }
        } else {
            assert(k == u);
            assert forall|i: int| 0 <= i < u.len() implies '\0' <= #[trigger] u[i] <= '\u{7f}' by {
                lemma_char_nonneg(u[i]);
            }
        }
        assert(mirrorable_move(u));
        lemma_names_mirrorable(u, flip);
    }
}

/// The index found for a key holds that key in the table.
pub proof fn lemma_table_index_names_key(k: Seq<char>)
    ensures
        table_index(k) matches Some(i) ==> 0 <= i < move_table().len() && move_table()[i] == k,
        table_index(k) is None ==> !move_table().contains(k),
{
    let t = move_table();
    if t.contains(k) {
        let w = choose|w: int| 0 <= w < t.len() && t[w] == k;
        assert(exists|j: int| 0 <= j <= w && t[j] == k && forall|l: int| 0 <= l < j ==> t[l] != k)
            by {
            lemma_first_occurrence(t, k, w);
        }
    }
}

proof fn lemma_first_occurrence(t: Seq<Seq<char>>, k: Seq<char>, w: int)
    requires
        0 <= w < t.len(),
        t[w] == k,
    ensures
        exists|j: int| 0 <= j <= w && t[j] == k && forall|l: int| 0 <= l < j ==> t[l] != k,
    decreases w,
{
    if exists|l: int| 0 <= l < w && t[l] == k {
        let l = choose|l: int| 0 <= l < w && t[l] == k;
        lemma_first_occurrence(t, k, l);
    } else {
        assert(forall|l: int| 0 <= l < w ==> t[l] != k);
    }
}

/// A queen promotion is looked up as the plain move, in both orientations.
pub proof fn lemma_queen_promotion_lookup(m: Seq<char>, flip: bool)
    requires
        m.len() == 4,
        is_ascii_chars(m),
    ensures
        lookup_key(m.push('q'), flip) == lookup_key(m, flip),
{
    let mq = m.push('q');
    assert(is_ascii_chars(mq));
    is_ascii_chars_encode_utf8(m);
    is_ascii_chars_encode_utf8(mq);
    let b = encode_utf8(m);
    let bq = encode_utf8(mq);
    assert forall|i: int| 0 <= i < 4 implies bq[i] == b[i] by {
        assert(mq[i] == m[i]);
    }
    lemma_ascii_byte('q');
    assert(bq[4] == 'q' as u8);
    assert((bq[4] as char) == 'q');
    assert(flip_bytes(bq).take(4) =~= flip_bytes(b));
    assert(mq.take(4) =~= m);
}

/// Looking a move up from Black's side is looking up its mirror image from White's side.
pub proof fn lemma_flip_lookup(m: Seq<char>)
    ensures
        lookup_key(m, true) == lookup_key(flip_bytes(encode_utf8(m)), false),
{
}

/// Mirroring a move twice gives the move back.
pub proof fn lemma_flip_move_involution(m: Seq<char>)
    requires
        mirrorable_move(m),
    ensures
        flip_ok(encode_utf8(flip_bytes(encode_utf8(m)))),
        flip_bytes(encode_utf8(flip_bytes(encode_utf8(m)))) == m,
{
    lemma_mirror(m);
    lemma_mirror(flip_chars(m));
}

/// The UTF-8 bytes of one character: an ASCII character is its own single byte; any
/// other starts with a byte of at least 0xC0, followed by continuation bytes 0x80..0xBF.
proof fn lemma_scalar_bytes(c: char)
    ensures
        c <= '\u{7f}' ==> encode_scalar(c as u32) =~= seq![(c as u32) as u8],
        !(c <= '\u{7f}') ==> {
            let e = encode_scalar(c as u32);
            &&& 2 <= e.len() <= 4
            &&& e[0] >= 0xC0
            &&& forall|k: int| 1 <= k < e.len() ==> 0x80 <= #[trigger] e[k] <= 0xBF
        },
{
    let v = c as u32;
    assert(is_scalar(v));
    if has_width_1_encoding(v) {
        assert(leading_byte_width_1(v) == v as u8) by (bit_vector)
            requires
                v <= 0x7F,
        ;
    } else {
        assert(leading_byte_width_2(v) >= 0xC0) by (bit_vector);
        assert(leading_byte_width_3(v) >= 0xC0) by (bit_vector);
        assert(leading_byte_width_4(v) >= 0xC0) by (bit_vector);
        assert(0x80 <= last_continuation_byte(v) <= 0xBF) by (bit_vector);
        assert(0x80 <= second_last_continuation_byte(v) <= 0xBF) by (bit_vector);
        assert(0x80 <= third_last_continuation_byte(v) <= 0xBF) by (bit_vector);
    }
}

/// Where the first byte of a string's encoding is ASCII, or its second is, or it is a
/// single byte, the first character is ASCII and the rest encodes to the remaining bytes.
proof fn lemma_ascii_first(m: Seq<char>)
    requires
        encode_utf8(m).len() >= 1,
        encode_utf8(m)[0] < 0x80 || (encode_utf8(m).len() >= 2 && encode_utf8(m)[1] < 0x80)
            || encode_utf8(m).len() == 1,
    ensures
        m.len() > 0,
        m[0] <= '\u{7f}',
        encode_utf8(m)[0] == (m[0] as u32) as u8,
        encode_utf8(m.drop_first()) =~= encode_utf8(m).drop_first(),
{
    let e = encode_scalar(m[0] as u32);
    lemma_scalar_bytes(m[0]);
    assert(encode_utf8(m) == e + encode_utf8(m.drop_first()));
    if !(m[0] <= '\u{7f}') {
        assert(encode_utf8(m)[0] == e[0]);
        assert(encode_utf8(m)[1] == e[1]);
    }
}

/// A string whose UTF-8 encoding has four or five bytes, with digits at bytes 1 and 3,
/// is made of ASCII characters only, one per byte.
proof fn lemma_digit_ranks_ascii(m: Seq<char>)
    requires
        encode_utf8(m).len() == 4 || encode_utf8(m).len() == 5,
        49 <= encode_utf8(m)[1] <= 56,
        49 <= encode_utf8(m)[3] <= 56,
    ensures
        is_ascii_chars(m),
        m.len() == encode_utf8(m).len(),
{
    let b = encode_utf8(m);
    lemma_ascii_first(m);
    let m1 = m.drop_first();
    lemma_ascii_first(m1);
    let m2 = m1.drop_first();
    lemma_ascii_first(m2);
    let m3 = m2.drop_first();
    lemma_ascii_first(m3);
    let m4 = m3.drop_first();
    if b.len() == 5 {
        lemma_ascii_first(m4);
        assert(encode_utf8(m4.drop_first()).len() == 0);
        if m4.drop_first().len() > 0 {
            lemma_scalar_bytes(m4.drop_first()[0]);
            assert(encode_utf8(m4.drop_first()) == encode_scalar(m4.drop_first()[0] as u32)
                + encode_utf8(m4.drop_first().drop_first()));
        }
    } else {
        assert(encode_utf8(m4).len() == 0);
        if m4.len() > 0 {
            lemma_scalar_bytes(m4[0]);
            assert(encode_utf8(m4) == encode_scalar(m4[0] as u32) + encode_utf8(m4.drop_first()));
        }
    }
    assert(m.len() == b.len());
    assert forall|i: int| 0 <= i < m.len() implies '\0' <= #[trigger] m[i] <= '\u{7f}' by {
        if i == 1 {
            assert(m[1] == m1[0]);
        } else if i == 2 {
            assert(m[2] == m2[0]);
        } else if i == 3 {
            assert(m[3] == m3[0]);
        } else if i == 4 {
            assert(m[4] == m4[0]);
        }
        lemma_char_nonneg(m[i]);
    }
}

/// Every character is at least NUL.
proof fn lemma_char_nonneg(c: char)
    ensures
        '\0' <= c,
{
}

/// A string of at most five characters whose encoding has digits at bytes 1 and 3 and
/// an ASCII byte at 4, if it has one, is made of ASCII characters only, one per byte.
proof fn lemma_short_ascii(m: Seq<char>)
    requires
        m.len() <= 5,
        encode_utf8(m).len() >= 4,
        49 <= encode_utf8(m)[1] <= 56,
        49 <= encode_utf8(m)[3] <= 56,
        encode_utf8(m).len() > 4 ==> encode_utf8(m)[4] < 0x80,
    ensures
        is_ascii_chars(m),
        m.len() == encode_utf8(m).len(),
{
    let b = encode_utf8(m);
    lemma_ascii_first(m);
    let m1 = m.drop_first();
    lemma_ascii_first(m1);
    let m2 = m1.drop_first();
    lemma_ascii_first(m2);
    let m3 = m2.drop_first();
    lemma_ascii_first(m3);
    let m4 = m3.drop_first();
    if b.len() > 4 {
        lemma_ascii_first(m4);
        assert(m4.drop_first().len() == 0);
        assert(encode_utf8(m4.drop_first()).len() == 0);
    } else {
        assert(encode_utf8(m4).len() == 0);
        if m4.len() > 0 {
            lemma_scalar_bytes(m4[0]);
            assert(encode_utf8(m4) == encode_scalar(m4[0] as u32) + encode_utf8(m4.drop_first()));
        }
    }
    assert(m.len() == b.len());
    assert forall|i: int| 0 <= i < m.len() implies '\0' <= #[trigger] m[i] <= '\u{7f}' by {
        if i == 1 {
            assert(m[1] == m1[0]);
        } else if i == 2 {
            assert(m[2] == m2[0]);
        } else if i == 3 {
            assert(m[3] == m3[0]);
        } else if i == 4 {
            assert(m[4] == m4[0]);
        }
        lemma_char_nonneg(m[i]);
    }
}

/// A move of four or five bytes whose rank bytes are the digits '1'..'8': mirroring it
/// keeps its length, its files and its promotion letter, turns each rank digit d into
/// 9 - d, and mirroring the result gives the move back.
pub proof fn lemma_flip_move_digits(m: Seq<char>)
    requires
        encode_utf8(m).len() == 4 || encode_utf8(m).len() == 5,
        49 <= encode_utf8(m)[1] <= 56,
        49 <= encode_utf8(m)[3] <= 56,
    ensures
        flip_ok(encode_utf8(m)),
        flip_bytes(encode_utf8(m)).len() == m.len(),
        m.len() == encode_utf8(m).len(),
        flip_bytes(encode_utf8(m))[0] == m[0],
        flip_bytes(encode_utf8(m))[2] == m[2],
        m.len() == 5 ==> flip_bytes(encode_utf8(m))[4] == m[4],
        flip_bytes(encode_utf8(m))[1] as int == '9' as int - m[1] as int + '0' as int,
        flip_bytes(encode_utf8(m))[3] as int == '9' as int - m[3] as int + '0' as int,
        flip_ok(encode_utf8(flip_bytes(encode_utf8(m)))),
        flip_bytes(encode_utf8(flip_bytes(encode_utf8(m)))) == m,
{
    lemma_digit_ranks_ascii(m);
    is_ascii_chars_encode_utf8(m);
    let b = encode_utf8(m);
    lemma_ascii_byte(m[1]);
    lemma_ascii_byte(m[3]);
    assert(b[1] == m[1] as u8 && b[3] == m[3] as u8);
    assert(mirrorable_move(m));
    lemma_mirror(m);
    lemma_flip_move_involution(m);
}

/// Whether a move can be mirrored by `flip_move`: at least four bytes, with the two rank
/// bytes in the range that `flip_rank_char` reads.
pub fn is_flippable(uci: &str) -> (r: bool)
    ensures
        r == flip_ok(encode_utf8(uci@)),
{
    let b = uci.as_bytes();
    b.len() >= 4 && 49 <= b[1] && b[1] <= 105 && 49 <= b[3] && b[3] <= 105
}

/// For each move that has a policy index, its position among `moves` and that index, in
/// the order of `moves`; the moves without an index are left out.
pub open spec fn gathered_indices(moves: Seq<Seq<char>>, flip: bool) -> Seq<(usize, usize)>
    decreases moves.len(),
{
    if moves.len() == 0 {
        seq![]
    } else {
        let g = gathered_indices(moves.drop_last(), flip);
        match table_index(lookup_key(moves.last(), flip)) {
            Some(i) => g.push(((moves.len() - 1) as usize, i as usize)),
            None => g,
        }
    }
}

/// The policy indices of the legal moves of a position (see `gathered_indices`), the
/// moves mirrored first when Black is to move: the entries of the policy head that the
/// softmax over legal moves reads.
pub fn policy_indices(legal_moves: &[String], flip: bool) -> (r: Vec<(usize, usize)>)
    requires
        flip ==> forall|k: int| 0 <= k < legal_moves@.len() ==> flip_ok(encode_utf8(#[trigger] legal_moves@[k]@)),
    ensures
        r@ == gathered_indices(legal_moves@.map_values(|m: String| m@), flip),
{
    let ghost views = legal_moves@.map_values(|m: String| m@);
    let mut r: Vec<(usize, usize)> = Vec::new();
    let mut k: usize = 0;
    while k < legal_moves.len()
        invariant
            k <= legal_moves@.len(),
            views == legal_moves@.map_values(|m: String| m@),
            flip ==> forall|j: int| 0 <= j < legal_moves@.len() ==> flip_ok(encode_utf8(#[trigger] legal_moves@[j]@)),
            r@ == gathered_indices(views.take(k as int), flip),
        decreases legal_moves@.len() - k,
    {
        proof {
            assert(views.take(k + 1).drop_last() =~= views.take(k as int));
            assert(views.take(k + 1).last() == legal_moves@[k as int]@);
        }
        match move_to_nn_index(legal_moves[k].as_str(), flip) {
            Some(i) => {
                r.push((k, i));
            },
            None => {},
        }
        k += 1;
    }
    assert(views.take(legal_moves@.len() as int) =~= views);
    r
}

} // verus!
