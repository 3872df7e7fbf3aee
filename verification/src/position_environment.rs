use vstd::prelude::*;
use crate::color::Color;
use crate::moves::BoardPos;
use crate::piece::Piece;
use crate::vector::Vector;

verus! {

/// The board size was rejected: a board must have an even side.
#[derive(Copy, Clone, Debug, PartialEq, Eq, Structural)]
pub struct ConfigurationError;

/// A full-board square is playable ("dark") when its row and column have the
/// parity this variant plays on.
pub open spec fn is_black_cell(size: int, i: int) -> bool {
    (i / size + i % 2) % 2 == 0
}

/// A full-board coordinate that lies on the board and is playable.
pub open spec fn on_board(size: int, b: int) -> bool {
    0 <= b < size * size && is_black_cell(size, b)
}

/// The step, in full-board coordinates, of one diagonal direction.
/// Directions: 0 up-right, 1 up-left, 2 down-left, 3 down-right.
pub open spec fn dir_offset(size: int, d: int) -> int {
    if d == 0 {
        size + 1
    } else if d == 1 {
        size - 1
    } else if d == 2 {
        -size - 1
    } else {
        -size + 1
    }
}

/// The k-th square (in full-board coordinates) reached from `b` by walking
/// direction `d`; `k == 0` is `b` itself.
pub open spec fn ray_point(size: int, b: int, d: int, k: int) -> int {
    b + k * dir_offset(size, d)
}

/// How many squares beyond `b` the ray in direction `d` reaches before it
/// leaves the board or stops being playable.
pub open spec fn ray_len(size: int, b: int, d: int) -> nat
    decreases (if d < 2 { size * size - b } else { b }) when 0 <= b < size * size
{
    if size < 2 || d < 0 || d > 3 {
        0
    } else if !on_board(size, b + dir_offset(size, d)) {
        0
    } else {
        1 + ray_len(size, b + dir_offset(size, d), d)
    }
}

/// `points` is exactly the packed ray from playable square `b` (in full-board
/// coordinates) along direction `d`, under the packing map `btp`:
/// `points[0]` is the packed index of `b` and the rest follow the ray to its
/// end.  The packed squares of a ray are pairwise distinct.
pub open spec fn is_packed_ray_at(
    size: int,
    btp: Seq<usize>,
    packed: int,
    points: Seq<usize>,
    b: int,
    d: int,
) -> bool {
    &&& points.len() == 1 + ray_len(size, b, d)
    &&& forall|k: int|
        0 <= k < points.len() ==> on_board(size, ray_point(size, b, d, k)) && #[trigger] points[k]
            == btp[ray_point(size, b, d, k)] && points[k] < packed
    &&& forall|k1: int, k2: int|
        0 <= k1 < k2 < points.len() ==> #[trigger] points[k1] != #[trigger] points[k2]
}

/// The rays stored for one packed square: at most one per direction, sorted
/// by direction, rays that do not leave the square omitted, each remaining
/// ray the true packed ray of the board.
pub open spec fn rays_ok_at(
    size: int,
    btp: Seq<usize>,
    packed: int,
    b: int,
    rs: Seq<Vector<BoardPos>>,
) -> bool {
    &&& rs.len() <= 4
    &&& forall|i: int|
        0 <= i < rs.len() ==> 0 <= (#[trigger] rs[i]).direction < 4 && is_packed_ray_at(
            size,
            btp,
            packed,
            rs[i].points@,
            b,
            rs[i].direction as int,
        ) && rs[i].points@.len() >= 2
    &&& forall|i1: int, i2: int|
        0 <= i1 < i2 < rs.len() ==> (#[trigger] rs[i1]).direction < (#[trigger] rs[i2]).direction
    &&& forall|d: int|
        0 <= d < 4 && ray_len(size, b, d) >= 1 ==> exists|i: int|
            0 <= i < rs.len() && (#[trigger] rs[i]).direction == d
}

/// The board topology: packing maps between full-board and packed (playable
/// squares only) coordinates, and the precomputed diagonal rays of every
/// playable square.  Built once per board size and never mutated.
#[derive(Clone, Debug)]
pub struct PositionEnvironment {
    pub size: usize,
    pub board_to_pack: Vec<BoardPos>,
    pub pack_to_board: Vec<BoardPos>,
    pub vectors_map: Vec<Vec<Vector<BoardPos>>>,
}

impl PositionEnvironment {
    /// Number of playable squares.
    pub open spec fn packed_count(self) -> int {
        self.size * self.size / 2
    }

    /// Everything the rest of the engine relies on: the two maps are mutual
    /// inverses over the playable squares, and every playable square carries
    /// its rays.
    pub open spec fn wf(self) -> bool {
        &&& self.size % 2 == 0
        &&& self.size <= 126
        &&& self.board_to_pack@.len() == self.size * self.size
        &&& self.pack_to_board@.len() == self.packed_count()
        &&& forall|b: int|
            0 <= b < self.size * self.size && is_black_cell(self.size as int, b) ==> (
            #[trigger] self.board_to_pack@[b]) < self.packed_count()
                && self.pack_to_board@[self.board_to_pack@[b] as int] == b
        &&& forall|p: int|
            0 <= p < self.packed_count() ==> on_board(
                self.size as int,
                (#[trigger] self.pack_to_board@[p]) as int,
            ) && self.board_to_pack@[self.pack_to_board@[p] as int] == p
        &&& (self.packed_count() >= 1 ==> self.pack_to_board@[0] == 0)
        &&& self.vectors_map@.len() == self.packed_count()
        &&& forall|p: int|
            0 <= p < self.packed_count() ==> rays_ok_at(
                self.size as int,
                self.board_to_pack@,
                self.packed_count(),
                self.pack_to_board@[p] as int,
                (#[trigger] self.vectors_map@[p])@,
            )
    }

    /// The final rank for a colour, in packed indices: the last `size/2`
    /// squares for white (which moves towards higher indices), the first
    /// `size/2` for black.
    pub open spec fn is_king_row_at(self, color: Color, pos: int) -> bool {
        match color {
            Color::White => pos >= self.packed_count() - self.size / 2,
            Color::Black => pos < self.size / 2,
        }
    }

    /// Whether a move of `piece` to packed square `to` promotes it: it is not
    /// yet a king and `to` lies on its final rank.
    pub open spec fn is_king_move_spec(self, piece: Piece, to: int) -> bool {
        !piece.is_king && self.is_king_row_at(piece.color, to)
    }

    /// Full-board coordinate of a packed square.
    pub fn to_board(&self, pack_index: BoardPos) -> (r: BoardPos)
        requires
            self.wf(),
            pack_index < self.packed_count(),
        ensures
            r == self.pack_to_board@[pack_index as int],
            on_board(self.size as int, r as int),
            self.board_to_pack@[r as int] == pack_index,
    {
        self.pack_to_board[pack_index]
    }

    /// Packed coordinate of a playable full-board square.
    pub fn to_pack(&self, board_index: BoardPos) -> (r: BoardPos)
        requires
            self.wf(),
            board_index < self.size * self.size,
        ensures
            r == self.board_to_pack@[board_index as int],
            is_black_cell(self.size as int, board_index as int) ==> r < self.packed_count()
                && self.pack_to_board@[r as int] == board_index,
    {
        self.board_to_pack[board_index]
    }

    /// Whether the piece stands on the final rank for its colour.
    pub fn is_king_row(&self, piece: &Piece) -> (r: bool)
        requires
            self.wf(),
            piece.pos < self.packed_count(),
        ensures
            r == self.is_king_row_at(piece.color, piece.pos as int),
    {
        proof {
            assert(self.size * self.size <= 126 * 126) by (nonlinear_arith)
                requires self.size <= 126;
        }
        let half = self.size / 2;
        if piece.color == Color::White {
            piece.pos + half >= self.pack_to_board.len()
        } else {
            piece.pos < half
        }
    }

    /// Whether landing on `to` would promote `piece`.
    pub fn is_king_move_for(&self, piece: &Piece, to: BoardPos) -> (r: bool)
        requires
            self.wf(),
            to < self.packed_count(),
        ensures
            r == self.is_king_move_spec(*piece, to as int),
    {
        if piece.is_king {
            return false;
        }
        proof {
            assert(self.size * self.size <= 126 * 126) by (nonlinear_arith)
                requires self.size <= 126;
        }
        let half = self.size / 2;
        if piece.color == Color::White {
            to + half >= self.pack_to_board.len()
        } else {
            to < half
        }
    }

    /// Builds the topology for an even board side.  Odd sides are rejected.
    pub fn new(size: usize) -> (r: Result<PositionEnvironment, ConfigurationError>)
        requires
            size <= 126,
        ensures
            match r {
                Ok(env) => env.size == size && size % 2 == 0 && env.wf(),
                Err(_) => size % 2 != 0,
            },
    {
        if size % 2 != 0 {
            return Err(ConfigurationError);
        }
        proof {
            assert(size * size <= 126 * 126) by (nonlinear_arith)
                requires size <= 126;
            let h = size as int / 2;
            vstd::arithmetic::div_mod::lemma_fundamental_div_mod(size as int, 2);
            assert(size * size == 2 * (2 * h * h) && (h >= 1 ==> 2 * h * h >= 2))
                by (nonlinear_arith)
                requires size == 2 * h;
        }
        let size2 = size * size;
        let packed = size2 / 2;
        assert(2 * packed == size2);
        let mut board_to_pack: Vec<BoardPos> = Vec::new();
        let mut i: usize = 0;
        while i < size2
            invariant
                i <= size2,
                board_to_pack@.len() == i,
            decreases size2 - i,
        {
            board_to_pack.push(0);
            i = i + 1;
        }
        let mut pack_to_board: Vec<BoardPos> = Vec::new();
        let mut t: usize = 0;
        while t < packed
            invariant
                t <= packed,
                pack_to_board@.len() == t,
            decreases packed - t,
        {
            pack_to_board.push(0);
            t = t + 1;
        }
        // Assign packed indices: every aligned pair of consecutive squares
        // holds exactly one playable square, so pair `t` gets packed index `t`.
        let mut t: usize = 0;
        while t < packed
            invariant
                size % 2 == 0,
                2 <= size <= 126 || packed == 0,
                size2 == size * size <= 126 * 126,
                2 * packed == size2,
                t <= packed,
                board_to_pack@.len() == size2,
                pack_to_board@.len() == packed,
                forall|b: int|
                    0 <= b < 2 * t && is_black_cell(size as int, b) ==> (
                    #[trigger] board_to_pack@[b]) < t
                        && pack_to_board@[board_to_pack@[b] as int] == b,
                forall|q: int|
                    0 <= q < t ==> pack_to_board@[q] < 2 * t && on_board(
                        size as int,
                        (#[trigger] pack_to_board@[q]) as int,
                    ) && board_to_pack@[pack_to_board@[q] as int] == q,
                t >= 1 ==> pack_to_board@[0] == 0,
            decreases packed - t,
        {
            let e = 2 * t;
            proof {
                lemma_black_pair(size as int, e as int);
            }
            if is_black_cell_x(size, e) {
                board_to_pack[e] = t;
                pack_to_board[t] = e;
            } else {
                board_to_pack[e + 1] = t;
                pack_to_board[t] = e + 1;
            }
            t = t + 1;
        }
        // Precompute the rays of every packed square.
        let mut vectors_map: Vec<Vec<Vector<BoardPos>>> = Vec::new();
        let mut p: usize = 0;
        while p < packed
            invariant
                size % 2 == 0,
                2 <= size <= 126 || packed == 0,
                size2 == size * size <= 126 * 126,
                2 * packed == size2,
                p <= packed,
                board_to_pack@.len() == size2,
                pack_to_board@.len() == packed,
                forall|b: int|
                    0 <= b < size2 && is_black_cell(size as int, b) ==> (
                    #[trigger] board_to_pack@[b]) < packed
                        && pack_to_board@[board_to_pack@[b] as int] == b,
                forall|q: int|
                    0 <= q < packed ==> on_board(size as int, (#[trigger] pack_to_board@[q]) as int)
                        && board_to_pack@[pack_to_board@[q] as int] == q,
                vectors_map@.len() == p,
                forall|q: int|
                    0 <= q < p ==> rays_ok_at(
                        size as int,
                        board_to_pack@,
                        packed as int,
                        pack_to_board@[q] as int,
                        (#[trigger] vectors_map@[q])@,
                    ),
            decreases packed - p,
        {
            let b = pack_to_board[p];
            let mut rs: Vec<Vector<BoardPos>> = Vec::new();
            let mut d: usize = 0;
            while d < 4
                invariant
                    size % 2 == 0,
                    2 <= size <= 126,
                    size2 == size * size <= 126 * 126,
                    2 * packed == size2,
                    d <= 4,
                    board_to_pack@.len() == size2,
                    pack_to_board@.len() == packed,
                    forall|x: int|
                        0 <= x < size2 && is_black_cell(size as int, x) ==> (
                        #[trigger] board_to_pack@[x]) < packed
                            && pack_to_board@[board_to_pack@[x] as int] == x,
                    on_board(size as int, b as int),
                    rs@.len() <= d,
                    forall|i: int|
                        0 <= i < rs@.len() ==> 0 <= (#[trigger] rs@[i]).direction < d
                            && is_packed_ray_at(
                            size as int,
                            board_to_pack@,
                            packed as int,
                            rs@[i].points@,
                            b as int,
                            rs@[i].direction as int,
                        ) && rs@[i].points@.len() >= 2,
                    forall|i1: int, i2: int|
                        0 <= i1 < i2 < rs@.len() ==> (#[trigger] rs@[i1]).direction < (
                        #[trigger] rs@[i2]).direction,
                    forall|dd: int|
                        0 <= dd < d && ray_len(size as int, b as int, dd) >= 1 ==> exists|i: int|
                            0 <= i < rs@.len() && (#[trigger] rs@[i]).direction == dd,
                decreases 4 - d,
            {
                let points = build_ray(size, size2, packed, b, d, &board_to_pack);
                let ghost old_rs = rs@;
                if points.len() >= 2 {
                    rs.push(Vector::new(d as i8, points));
                }
                proof {
                    assert forall|dd: int|
                        0 <= dd < d + 1 && ray_len(size as int, b as int, dd) >= 1
                        implies exists|i: int|
                        0 <= i < rs@.len() && (#[trigger] rs@[i]).direction == dd by {
                        if dd < d {
                            let oi = choose|i: int|
                                0 <= i < old_rs.len() && (#[trigger] old_rs[i]).direction == dd;
                            assert(rs@[oi].direction == dd);
                        } else {
                            assert(points@.len() >= 2);
                            assert(rs@[rs@.len() - 1].direction == dd);
                        }
                    }
                }
                d = d + 1;
            }
            vectors_map.push(rs);
            p = p + 1;
        }
        Ok(PositionEnvironment { size, board_to_pack, pack_to_board, vectors_map })
    }

    /// The non-trivial rays of one packed square.
    pub fn get_vectors(&self, pos: usize) -> (r: &Vec<Vector<BoardPos>>)
        requires
            self.wf(),
            pos < self.packed_count(),
        ensures
            r == self.vectors_map@[pos as int],
            rays_ok_at(
                self.size as int,
                self.board_to_pack@,
                self.packed_count(),
                self.pack_to_board@[pos as int] as int,
                r@,
            ),
    {
        &self.vectors_map[pos]
    }
}

/// Whether full-board square `i` is playable.
fn is_black_cell_x(size: usize, i: usize) -> (r: bool)
    requires
        1 <= size,
        i < size * size,
        i <= 126 * 126,
    ensures
        r == is_black_cell(size as int, i as int),
{
    proof {
        assert(i / size <= i) by (nonlinear_arith)
            requires 1 <= size, 0 <= i;
    }
    (i / size + i % 2) % 2 == 0
}

/// In every aligned pair of consecutive full-board squares, exactly one
/// square is playable: the even one on even rows, the odd one on odd rows.
proof fn lemma_black_pair(size: int, e: int)
    requires
        2 <= size,
        size % 2 == 0,
        e % 2 == 0,
        0 <= e,
        e + 1 < size * size,
    ensures
        is_black_cell(size, e) <==> (e / size) % 2 == 0,
        is_black_cell(size, e + 1) <==> (e / size) % 2 == 1,
        (e + 1) / size == e / size,
{
    let q = e / size;
    let r = e % size;
    vstd::arithmetic::div_mod::lemma_fundamental_div_mod(e, size);
    let h = size / 2;
    assert(size == 2 * h);
    assert(q * size == 2 * (q * h)) by (nonlinear_arith)
        requires size == 2 * h;
    let m = q * h;
    assert(e == 2 * m + r);
    assert(r % 2 == 0);
    assert(r <= size - 2);
    vstd::arithmetic::div_mod::lemma_fundamental_div_mod_converse(e + 1, size, q, r + 1);
    assert((e + 1) % 2 == 1);
    assert(is_black_cell(size, e) == ((q + 0) % 2 == 0));
    assert(is_black_cell(size, e + 1) == ((q + 1) % 2 == 0));
    assert((q + 1) % 2 == 0 <==> q % 2 == 1);
}

/// A ray never has more points than the board has squares.
pub proof fn lemma_ray_len_bound(size: int, b: int, d: int)
    requires
        0 <= b < size * size,
    ensures
        ray_len(size, b, d) <= (if d < 2 {
            size * size - b
        } else {
            b
        }),
    decreases (if d < 2 { size * size - b } else { b }),
{
    if size < 2 || d < 0 || d > 3 {
    } else if !on_board(size, b + dir_offset(size, d)) {
    } else {
        lemma_ray_len_bound(size, b + dir_offset(size, d), d);
    }
}

/// On a non-empty board, packed square 0 is the corner of the long diagonal,
/// and its first stored ray runs along that diagonal.
pub proof fn lemma_main_road(env: PositionEnvironment)
    requires
        env.wf(),
        env.packed_count() >= 1,
    ensures
        env.vectors_map@[0]@.len() >= 1,
        is_packed_ray_at(
            env.size as int,
            env.board_to_pack@,
            env.packed_count(),
            env.vectors_map@[0]@[0].points@,
            0,
            env.vectors_map@[0]@[0].direction as int,
        ),
        env.vectors_map@[0]@[0].points@.len() >= 2,
{
    let size = env.size as int;
    assert(size >= 2) by (nonlinear_arith)
        requires size * size / 2 >= 1, size >= 0, size % 2 == 0;
    assert(env.pack_to_board@[0] == 0);
    let rs = env.vectors_map@[0]@;
    assert(rays_ok_at(size, env.board_to_pack@, env.packed_count(), 0, rs));
    // the first diagonal step from the corner stays on the board
    let nb = size + 1;
    assert(nb < size * size) by (nonlinear_arith)
        requires size >= 2, nb == size + 1;
    vstd::arithmetic::div_mod::lemma_fundamental_div_mod_converse(nb, size, 1, 1);
    assert(nb / size == 1);
    assert(nb % 2 == 1);
    assert(is_black_cell(size, nb));
    assert(on_board(size, nb));
    assert(dir_offset(size, 0) == nb);
    assert(ray_len(size, 0, 0) >= 1);
    let wi = choose|i: int| 0 <= i < rs.len() && (#[trigger] rs[i]).direction == 0;
    assert(0 <= wi < rs.len());
    if wi != 0 {
        assert(rs[0].direction < rs[wi].direction);
        assert(false);
    }
}

/// Topology law: a board of side `n` packs into exactly `n * n / 2` playable
/// squares, and packing then unpacking returns every playable square
/// unchanged.
pub proof fn lemma_pack_board_roundtrip(env: PositionEnvironment)
    requires
        env.wf(),
    ensures
        env.board_to_pack@.len() == env.size * env.size,
        2 * env.pack_to_board@.len() == env.size * env.size,
        forall|x: int|
            on_board(env.size as int, x) ==> (#[trigger] env.board_to_pack@[x]) < env.pack_to_board@.len()
                && env.pack_to_board@[env.board_to_pack@[x] as int] == x,
{
    let size = env.size as int;
    let h = size / 2;
    vstd::arithmetic::div_mod::lemma_fundamental_div_mod(size, 2);
    assert(size * size == 2 * (2 * h * h)) by (nonlinear_arith)
        requires size == 2 * h;
    assert(size * size / 2 == 2 * h * h) by {
        vstd::arithmetic::div_mod::lemma_fundamental_div_mod_converse(
            size * size,
            2,
            2 * h * h,
            0,
        );
    }
}

/// Walking one more step along a ray adds one direction offset.
proof fn lemma_ray_point_step(size: int, b: int, d: int, k: int)
    ensures
        ray_point(size, b, d, k + 1) == ray_point(size, b, d, k) + dir_offset(size, d),
{
    assert((k + 1) * dir_offset(size, d) == k * dir_offset(size, d) + dir_offset(size, d))
        by (nonlinear_arith);
}

/// Distinct steps along one ray land on distinct full-board squares.
proof fn lemma_ray_point_distinct(size: int, b: int, d: int, k1: int, k2: int)
    requires
        2 <= size,
        0 <= d < 4,
        k1 != k2,
    ensures
        ray_point(size, b, d, k1) != ray_point(size, b, d, k2),
{
    let off = dir_offset(size, d);
    assert(off != 0);
    assert(k1 * off != k2 * off) by (nonlinear_arith)
        requires off != 0, k1 != k2;
}

/// Collects the packed ray from playable square `b` along direction `d`:
/// the packed index of `b` first, then every further playable square until
/// the ray leaves the board.
fn build_ray(
    size: usize,
    size2: usize,
    packed: usize,
    b: usize,
    d: usize,
    btp: &Vec<BoardPos>,
) -> (points: Vec<BoardPos>)
    requires
        2 <= size <= 126,
        size % 2 == 0,
        size2 == size * size <= 126 * 126,
        2 * packed == size2,
        d < 4,
        on_board(size as int, b as int),
        btp@.len() == size2,
        forall|x: int|
            0 <= x < size2 && is_black_cell(size as int, x) ==> (#[trigger] btp@[x]) < packed,
        forall|x1: int, x2: int|
            0 <= x1 < size2 && 0 <= x2 < size2 && is_black_cell(size as int, x1) && is_black_cell(
                size as int,
                x2,
            ) && #[trigger] btp@[x1] == #[trigger] btp@[x2] ==> x1 == x2,
    ensures
        is_packed_ray_at(size as int, btp@, packed as int, points@, b as int, d as int),
{
    let ghost gsize = size as int;
    let ghost gb = b as int;
    let ghost gd = d as int;
    let off: i64 = if d == 0 {
        size as i64 + 1
    } else if d == 1 {
        size as i64 - 1
    } else if d == 2 {
        -(size as i64) - 1
    } else {
        -(size as i64) + 1
    };
    assert(off as int == dir_offset(gsize, gd));
    let mut points: Vec<BoardPos> = Vec::new();
    points.push(btp[b]);
    let mut cur: i64 = b as i64;
    assert(ray_point(gsize, gb, gd, 0) == gb) by (nonlinear_arith);
    loop
        invariant
            2 <= size <= 126,
            size2 == size * size <= 126 * 126,
            2 * packed == size2,
            0 <= gd < 4,
            gsize == size as int,
            gb == b as int,
            off as int == dir_offset(gsize, gd),
            btp@.len() == size2,
            forall|x: int|
                0 <= x < size2 && is_black_cell(gsize, x) ==> (#[trigger] btp@[x]) < packed,
            forall|x1: int, x2: int|
                0 <= x1 < size2 && 0 <= x2 < size2 && is_black_cell(gsize, x1) && is_black_cell(
                    gsize,
                    x2,
                ) && #[trigger] btp@[x1] == #[trigger] btp@[x2] ==> x1 == x2,
            points@.len() >= 1,
            cur as int == ray_point(gsize, gb, gd, points@.len() - 1),
            on_board(gsize, cur as int),
            ray_len(gsize, gb, gd) == points@.len() - 1 + ray_len(gsize, cur as int, gd),
            forall|k: int|
                0 <= k < points@.len() ==> on_board(gsize, #[trigger] ray_point(gsize, gb, gd, k)),
            forall|k: int|
                0 <= k < points@.len() ==> #[trigger] points@[k] == btp@[ray_point(
                    gsize,
                    gb,
                    gd,
                    k,
                )],
            forall|k: int| 0 <= k < points@.len() ==> #[trigger] points@[k] < packed,
            forall|k1: int, k2: int|
                0 <= k1 < k2 < points@.len() ==> #[trigger] points@[k1] != #[trigger] points@[k2],
        ensures
            points@.len() - 1 == ray_len(gsize, gb, gd),
        decreases ray_len(gsize, cur as int, gd),
    {
        let next = cur + off;
        proof {
            lemma_ray_point_step(gsize, gb, gd, points@.len() - 1);
        }
        if next < 0 || next >= size2 as i64 {
            assert(!on_board(gsize, next as int));
            assert(ray_len(gsize, cur as int, gd) == 0);
            break;
        }
        if !is_black_cell_x(size, next as usize) {
            assert(!on_board(gsize, next as int));
            assert(ray_len(gsize, cur as int, gd) == 0);
            break;
        }
        assert(on_board(gsize, next as int));
        assert(ray_len(gsize, cur as int, gd) == 1 + ray_len(gsize, next as int, gd));
        let ghost n = points@.len() as int;
        proof {
            assert forall|k: int| 0 <= k < n implies ray_point(gsize, gb, gd, k) != next as int by {
                lemma_ray_point_distinct(gsize, gb, gd, k, n);
            }
        }
        points.push(btp[next as usize]);
        cur = next;
        proof {
            assert(ray_point(gsize, gb, gd, n) == next as int);
            assert(points@[n] == btp@[next as int]);
        }
    }
    points
}

} // verus!
