//! The sliding-tile puzzle on a square board.
use crate::problem::{
    admissible, closed_space, closed_under_edges, consistent, is_solution,
    lemma_consistent_is_admissible, lemma_simple_walk_numbered, lemma_unit_cost_is_length,
    lemma_walk_concat, scores_fit, simple_walk, state_laws, unit_costs, walk_cost, walk_end,
    walk_ok, walks_fit, well_formed, Problem,
};
use crate::random::choose_move;
use crate::utils::heuristics::{distance, gap};
use crate::utils::text::{decimal, padded, push_number};
use vstd::arithmetic::div_mod::lemma_fundamental_div_mod_converse;
use vstd::prelude::*;
use vstd::slice::slice_to_vec;
use vstd::std_specs::cmp::PartialEqSpec;
use vstd::string::StringExecFns;

verus! {

/// Which estimate a puzzle uses.
#[derive(Clone, Copy, Debug)]
pub enum HeuristicType {
    /// The sum over the tiles of the Manhattan distance to their place.
    Manhattan,
    /// The number of tiles out of place.
    Hamming,
    /// No estimate: always 0.
    Zero,
}

/// A sliding-tile puzzle: a board of `size` by `size` places, given row by
/// row, with the tiles 1, 2, ... and the blank, written 0. In the goal the
/// blank comes first and the tiles follow in order. A move slides a tile
/// next to the blank into it, which swaps the two.
#[derive(Clone)]
pub struct Taquin {
    size: usize,
    initial_state: Vec<u8>,
    goal_state: Vec<u8>,
    heuristic_type: HeuristicType,
}

/// The board with the blank first and the tiles 1 to `n - 1` in order.
pub open spec fn solved_board(n: nat) -> Seq<u8> {
    Seq::new(n, |i: int| i as u8)
}

/// The place of the first blank on the board.
pub open spec fn first_blank(board: Seq<u8>) -> int {
    choose|i: int|
        0 <= i < board.len() && board[i] == 0 && forall|j: int| 0 <= j < i ==> board[j] != 0
}

/// The board with what lies at places `a` and `b` exchanged.
pub open spec fn swapped(board: Seq<u8>, a: int, b: int) -> Seq<u8> {
    board.update(a, board[b]).update(b, board[a])
}

/// The moves from a board with sides of `size`: the blank exchanged with
/// what lies above it, below it, to its left and to its right, in this
/// order and as far as the board goes, each at cost 1.
pub open spec fn moves(size: int, board: Seq<u8>) -> Seq<(Seq<u8>, usize)> {
    let blank = first_blank(board);
    let row = blank / size;
    let col = blank % size;
    let up = if row > 0 {
        seq![(swapped(board, blank, blank - size), 1usize)]
    } else {
        seq![]
    };
    let down = if row < size - 1 {
        seq![(swapped(board, blank, blank + size), 1usize)]
    } else {
        seq![]
    };
    let left = if col > 0 {
        seq![(swapped(board, blank, blank - 1), 1usize)]
    } else {
        seq![]
    };
    let right = if col < size - 1 {
        seq![(swapped(board, blank, blank + 1), 1usize)]
    } else {
        seq![]
    };
    up + down + left + right
}

/// How far the tile at place `i` is from the place that bears its number,
/// in rows plus columns; 0 for the blank.
pub open spec fn tile_distance(size: int, board: Seq<u8>, i: int) -> int {
    if board[i] == 0 {
        0
    } else {
        gap(i / size, board[i] as int / size) + gap(i % size, board[i] as int % size)
    }
}

/// The sum of the distances of the tiles at the first `n` places.
pub open spec fn manhattan_upto(size: int, board: Seq<u8>, n: int) -> int
    decreases n,
{
    if n <= 0 {
        0
    } else {
        manhattan_upto(size, board, n - 1) + tile_distance(size, board, n - 1)
    }
}

/// The sum of the distances of all tiles from their places.
pub open spec fn manhattan_sum(size: int, board: Seq<u8>) -> int {
    manhattan_upto(size, board, board.len() as int)
}

/// The number of tiles among the first `n` places that are not at the
/// place that bears their number. The blank does not count.
pub open spec fn hamming_upto(board: Seq<u8>, n: int) -> int
    decreases n,
{
    if n <= 0 {
        0
    } else {
        hamming_upto(board, n - 1) + if board[n - 1] != 0 && board[n - 1] as int != n - 1 {
            1int
        } else {
            0int
        }
    }
}

/// The number of tiles that are not at their place.
pub open spec fn hamming_count(board: Seq<u8>) -> int {
    hamming_upto(board, board.len() as int)
}

/// The boards and costs that a list of successors holds.
pub open spec fn listed(found: Seq<(Vec<u8>, usize)>) -> Seq<(Seq<u8>, usize)> {
    found.map_values(|e: (Vec<u8>, usize)| (e.0@, e.1))
}

/// Where the neighbours of a place lie on a board with sides of `size`.
proof fn lemma_places(size: int, place: int)
    requires
        size > 0,
        0 <= place < size * size,
    ensures
        0 <= place / size < size,
        0 <= place % size < size,
        place == size * (place / size) + place % size,
        place / size > 0 ==> 0 <= (place / size - 1) * size && (place / size - 1) * size + place
            % size == place - size,
        place / size < size - 1 ==> 0 <= (place / size + 1) * size && (place / size + 1) * size
            + place % size == place + size && place + size < size * size,
        0 <= (place / size) * size,
        (place / size) * size + (place % size - 1) == place - 1,
        (place / size) * size + (place % size + 1) == place + 1,
        place % size < size - 1 ==> place + 1 < size * size,
{
    let row = place / size;
    let col = place % size;
    vstd::arithmetic::div_mod::lemma_fundamental_div_mod(place, size);
    assert(0 <= col < size);
    assert(0 <= row < size) by (nonlinear_arith)
        requires
            0 <= place < size * size,
            place == size * row + col,
            0 <= col < size,
            size > 0,
    ;
    assert((row - 1) * size + col == place - size && (row + 1) * size + col == place + size && row
        * size + col == place) by (nonlinear_arith)
        requires
            place == size * row + col,
    ;
    assert(row > 0 ==> 0 <= (row - 1) * size) by (nonlinear_arith)
        requires
            size > 0,
    ;
    assert(0 <= (row + 1) * size && 0 <= row * size) by (nonlinear_arith)
        requires
            size > 0,
            row >= 0,
    ;
    assert(row < size - 1 ==> place + size < size * size) by (nonlinear_arith)
        requires
            place == size * row + col,
            col < size,
            size > 0,
    ;
    assert(col < size - 1 ==> place + 1 < size * size) by (nonlinear_arith)
        requires
            place == size * row + col,
            row < size,
            col >= 0,
            size > 0,
    ;
}

/// The first place of `board` that holds the blank is `i`.
proof fn lemma_first_blank(board: Seq<u8>, i: int)
    requires
        0 <= i < board.len(),
        board[i] == 0,
        forall|j: int| 0 <= j < i ==> board[j] != 0,
    ensures
        first_blank(board) == i,
{
    let k = first_blank(board);
    assert(0 <= k < board.len() && board[k] == 0 && forall|j: int| 0 <= j < k ==> board[j] != 0);
}

/// A board that holds a blank has a first one.
proof fn lemma_blank_exists(board: Seq<u8>)
    requires
        board.contains(0u8),
    ensures
        0 <= first_blank(board) < board.len(),
        board[first_blank(board)] == 0,
    decreases board.len(),
{
    let k = choose|k: int| 0 <= k < board.len() && board[k] == 0u8;
    lemma_least_blank(board, k);
}

/// Below any blank there is a least one.
proof fn lemma_least_blank(board: Seq<u8>, k: int)
    requires
        0 <= k < board.len(),
        board[k] == 0,
    ensures
        0 <= first_blank(board) <= k,
        board[first_blank(board)] == 0,
    decreases k,
{
    if forall|j: int| 0 <= j < k ==> board[j] != 0 {
        lemma_first_blank(board, k);
    } else {
        let j = choose|j: int| 0 <= j < k && board[j] == 0;
        lemma_least_blank(board, j);
    }
}

impl Taquin {
    /// The length of a side of the board.
    pub closed spec fn side(&self) -> usize {
        self.size
    }

    /// The board from which a search starts.
    pub closed spec fn initial(&self) -> Seq<u8> {
        self.initial_state@
    }

    /// The board to be reached.
    pub closed spec fn target(&self) -> Seq<u8> {
        self.goal_state@
    }

    /// The estimate in use.
    pub closed spec fn kind(&self) -> HeuristicType {
        self.heuristic_type
    }

    /// The puzzle is one that can be searched: its board has at most 255
    /// places, the goal is the solved board, and the initial board has as
    /// many places as the goal and, unless it has none, holds a blank.
    pub open spec fn valid(&self) -> bool {
        &&& self.has_goal()
        &&& self.initial().len() == self.side() * self.side()
        &&& self.side() >= 1 ==> self.initial().contains(0u8)
    }

    /// The goal of the puzzle is one to search for: the board has at most
    /// 255 places, and the goal is the solved board.
    pub open spec fn has_goal(&self) -> bool {
        &&& self.side() * self.side() <= 255
        &&& self.target() == solved_board((self.side() * self.side()) as nat)
    }

    /// The goal for a board with sides of `size`: the numbers from 0 up to,
    /// but not including, the number of places taken modulo 256.
    fn goal_for(size: usize) -> (goal: Vec<u8>)
        requires
            size * size <= usize::MAX,
        ensures
            goal@ == solved_board(((size * size) % 256) as nat),
    {
        let count: usize = (size * size) % 256;
        let mut goal: Vec<u8> = Vec::new();
        let mut i: usize = 0;
        while i < count
            invariant
                i <= count,
                count < 256,
                goal@ == solved_board(i as nat),
            decreases count - i,
        {
            goal.push(i as u8);
            assert(goal@ =~= solved_board((i + 1) as nat));
            i = i + 1;
        }
        goal
    }

    /// The puzzle with sides of `size` in its solved position. For up to 15
    /// by 15 places the goal is the solved board; beyond that the count of
    /// its places is taken modulo 256.
    pub fn new(size: usize, heuristic: HeuristicType) -> (r: Self)
        requires
            size * size <= usize::MAX,
        ensures
            r.side() == size,
            r.kind() == heuristic,
            r.target() == solved_board(((size * size) % 256) as nat),
            r.initial() == r.target(),
            size <= 15 ==> r.valid(),
    {
        let goal_state = Self::goal_for(size);
        let initial_state = goal_state.clone();
        proof {
            assert(initial_state@ =~= goal_state@);
            if size <= 15 {
                assert(size * size <= 225) by (nonlinear_arith)
                    requires
                        size <= 15,
                ;
                if size >= 1 {
                    assert(size * size >= 1) by (nonlinear_arith)
                        requires
                            1 <= size,
                    ;
                    assert(goal_state@[0] == 0u8);
                }
            }
        }
        Taquin { size, initial_state, goal_state, heuristic_type: heuristic }
    }

    /// The puzzle with sides of `size` that starts from `state`.
    pub fn from_state(size: usize, state: Vec<u8>, heuristic: HeuristicType) -> (r: Self)
        requires
            size * size <= usize::MAX,
        ensures
            r.side() == size,
            r.kind() == heuristic,
            r.target() == solved_board(((size * size) % 256) as nat),
            r.initial() == state@,
            size <= 15 && state.len() == size * size && (size >= 1 ==> state@.contains(0u8))
                ==> r.valid(),
    {
        let goal_state = Self::goal_for(size);
        proof {
            if size <= 15 {
                assert(size * size <= 225) by (nonlinear_arith)
                    requires
                        size <= 15,
                ;
            }
        }
        Taquin { size, initial_state: state, goal_state, heuristic_type: heuristic }
    }

    /// The board to be reached.
    pub fn goal_state(&self) -> (r: &Vec<u8>)
        ensures
            r@ == self.target(),
    {
        &self.goal_state
    }

    /// The length of a side of the board.
    pub fn size(&self) -> (r: usize)
        ensures
            r == self.side(),
    {
        self.size
    }

    /// The place of the first blank of `state`.
    pub fn find_blank(&self, state: &[u8]) -> (r: usize)
        requires
            state@.contains(0u8),
        ensures
            r == first_blank(state@),
            r < state.len(),
            state[r as int] == 0,
    {
        proof {
            lemma_blank_exists(state@);
        }
        let mut i: usize = 0;
        while state[i] != 0
            invariant
                0 <= first_blank(state@) < state.len(),
                state@[first_blank(state@)] == 0,
                i <= first_blank(state@),
                forall|j: int| 0 <= j < i ==> state@[j] != 0,
            decreases state.len() - i,
        {
            i = i + 1;
        }
        proof {
            lemma_first_blank(state@, i as int);
        }
        i
    }

    /// `state` with what lies at `a` and `b` exchanged.
    fn exchanged(state: &[u8], a: usize, b: usize) -> (r: Vec<u8>)
        requires
            a < state.len(),
            b < state.len(),
        ensures
            r@ == swapped(state@, a as int, b as int),
    {
        let mut board = slice_to_vec(state);
        board.set(a, state[b]);
        board.set(b, state[a]);
        board
    }

    /// Adds to `found` the board reached from `state` by exchanging the
    /// blank at `blank` with what lies at `place`, if there is such a place.
    fn add_move(found: &mut Vec<(Vec<u8>, usize)>, state: &[u8], blank: usize, place: Option<usize>)
        requires
            blank < state.len(),
            place matches Some(at) ==> at < state.len(),
        ensures
            listed(final(found)@) == listed(old(found)@) + match place {
                Some(at) => seq![(swapped(state@, blank as int, at as int), 1usize)],
                None => seq![],
            },
    {
        match place {
            Some(at) => {
                found.push((Self::exchanged(state, blank, at), 1));
                assert(listed(found@) =~= listed(old(found)@) + seq![
                    (swapped(state@, blank as int, at as int), 1usize),
                ]);
            },
            None => {
                assert(listed(found@) =~= listed(old(found)@) + seq![]);
            },
        }
    }

    /// The boards one move away from `state`, each with the cost 1: the
    /// blank exchanged with what lies above it, below it, to its left and
    /// to its right, as far as the board goes.
    pub fn get_successors(&self, state: &[u8]) -> (r: Vec<(Vec<u8>, usize)>)
        requires
            1 <= self.side(),
            state.len() == self.side() * self.side(),
            state@.contains(0u8),
        ensures
            listed(r@) == moves(self.side() as int, state@),
    {
        let blank = self.find_blank(state);
        let row = blank / self.size;
        let col = blank % self.size;
        proof {
            lemma_places(self.size as int, blank as int);
        }
        let up = if row > 0 {
            Some((row - 1) * self.size + col)
        } else {
            None
        };
        let down = if row < self.size - 1 {
            Some((row + 1) * self.size + col)
        } else {
            None
        };
        let left = if col > 0 {
            Some(row * self.size + (col - 1))
        } else {
            None
        };
        let right = if col < self.size - 1 {
            Some(row * self.size + (col + 1))
        } else {
            None
        };
        let mut successors: Vec<(Vec<u8>, usize)> = Vec::new();
        assert(listed(successors@) =~= seq![]);
        Self::add_move(&mut successors, state, blank, up);
        Self::add_move(&mut successors, state, blank, down);
        Self::add_move(&mut successors, state, blank, left);
        Self::add_move(&mut successors, state, blank, right);
        assert(listed(successors@) =~= moves(self.size as int, state@));
        successors
    }

    /// The sum over the tiles of `state` of the Manhattan distance between
    /// the place where a tile lies and the place that bears its number.
    pub fn manhattan_distance(&self, state: &[u8]) -> (r: usize)
        requires
            state.len() > 0 ==> self.side() > 0,
            manhattan_sum(self.side() as int, state@) <= usize::MAX,
        ensures
            r == manhattan_sum(self.side() as int, state@),
    {
        let mut total: usize = 0;
        let mut i: usize = 0;
        let ghost size = self.size as int;
        while i < state.len()
            invariant
                i <= state.len(),
                size == self.size,
                state.len() > 0 ==> self.size > 0,
                total == manhattan_upto(size, state@, i as int),
                manhattan_sum(size, state@) <= usize::MAX,
            decreases state.len() - i,
        {
            proof {
                lemma_manhattan_grows(size, state@, (i + 1) as int, state.len() as int);
            }
            let tile = state[i];
            if tile != 0 {
                let current_row = i / self.size;
                let current_col = i % self.size;
                let goal_pos = tile as usize;
                let goal_row = goal_pos / self.size;
                let goal_col = goal_pos % self.size;
                let rows = distance(current_row, goal_row);
                let cols = distance(current_col, goal_col);
                total = total + (rows + cols);
            }
            i = i + 1;
        }
        total
    }

    /// The number of tiles of `state` that do not lie at the place that
    /// bears their number.
    pub fn hamming_distance(&self, state: &[u8]) -> (r: usize)
        ensures
            r == hamming_count(state@),
    {
        let mut count: usize = 0;
        let mut i: usize = 0;
        while i < state.len()
            invariant
                i <= state.len(),
                count <= i,
                count == hamming_upto(state@, i as int),
            decreases state.len() - i,
        {
            let tile = state[i];
            if tile != 0 && tile as usize != i {
                count = count + 1;
            }
            i = i + 1;
        }
        count
    }
}

/// The sum of the distances over more places is no less.
proof fn lemma_manhattan_grows(size: int, board: Seq<u8>, n: int, m: int)
    requires
        0 <= n <= m,
    ensures
        0 <= manhattan_upto(size, board, n) <= manhattan_upto(size, board, m),
    decreases m,
{
    if n < m {
        lemma_manhattan_grows(size, board, n, m - 1);
    } else if n > 0 {
        lemma_manhattan_grows(size, board, n - 1, m - 1);
    }
}

/// The boards with `places` places that, unless they have none, hold a
/// blank.
pub open spec fn boards(places: nat) -> Set<Seq<u8>> {
    Set::new(|board: Seq<u8>| board.len() == places && (places > 0 ==> board.contains(0u8)))
}

/// All sequences of `n` bytes.
pub open spec fn byte_strings(n: nat) -> Set<Seq<u8>> {
    Set::new(|s: Seq<u8>| s.len() == n)
}

/// There are finitely many sequences of `n` bytes.
proof fn lemma_byte_strings_finite(n: nat)
    ensures
        byte_strings(n).finite(),
    decreases n,
{
    if n == 0 {
        assert(byte_strings(0) =~= set![Seq::<u8>::empty()]) by {
            assert forall|s: Seq<u8>| byte_strings(0).contains(s) implies s
                == Seq::<u8>::empty() by {
                assert(s =~= Seq::<u8>::empty());
            }
        }
    } else {
        let shorter = byte_strings((n - 1) as nat);
        lemma_byte_strings_finite((n - 1) as nat);
        let extend = |b: u8| shorter.map(|s: Seq<u8>| s.push(b));
        let family = Set::<u8>::full().map(extend);
        broadcast use vstd::set_lib::full_set_properties;

        Set::<u8>::full().lemma_map_finite(extend);
        assert forall|member: Set<Seq<u8>>| family.contains(member) implies #[trigger] member.finite(
        ) by {
            let b = choose|b: u8| Set::<u8>::full().contains(b) && extend(b) == member;
            shorter.lemma_map_finite(|s: Seq<u8>| s.push(b));
        }
        family.lemma_flatten_finite();
        assert forall|s: Seq<u8>| byte_strings(n).contains(s) implies family.flatten().contains(
            s,
        ) by {
            let b = s.last();
            let head = s.drop_last();
            assert(shorter.contains(head));
            assert(head.push(b) =~= s);
            assert(extend(b).contains(s));
            assert(Set::<u8>::full().contains(b));
            assert(family.contains(extend(b)));
        }
        vstd::set_lib::lemma_set_subset_finite(family.flatten(), byte_strings(n));
    }
}

/// Exchanging the blank with what lies at another place gives a board with
/// as many places that still holds a blank.
proof fn lemma_swap_keeps_blank(board: Seq<u8>, blank: int, place: int)
    requires
        0 <= blank < board.len(),
        0 <= place < board.len(),
        board[blank] == 0,
    ensures
        swapped(board, blank, place).len() == board.len(),
        swapped(board, blank, place).contains(0u8),
{
    assert(swapped(board, blank, place)[place] == 0u8);
}

/// A move leads to a board with as many places that still holds a blank.
proof fn lemma_move_stays(size: int, board: Seq<u8>, i: int)
    requires
        size > 0,
        board.len() == size * size,
        board.contains(0u8),
        0 <= i < moves(size, board).len(),
    ensures
        moves(size, board)[i].0.len() == board.len(),
        moves(size, board)[i].0.contains(0u8),
        moves(size, board)[i].1 == 1,
{
    lemma_blank_exists(board);
    let blank = first_blank(board);
    lemma_places(size, blank);
    let row = blank / size;
    let col = blank % size;
    let up: Seq<(Seq<u8>, usize)> = if row > 0 {
        seq![(swapped(board, blank, blank - size), 1usize)]
    } else {
        seq![]
    };
    let down: Seq<(Seq<u8>, usize)> = if row < size - 1 {
        seq![(swapped(board, blank, blank + size), 1usize)]
    } else {
        seq![]
    };
    let left: Seq<(Seq<u8>, usize)> = if col > 0 {
        seq![(swapped(board, blank, blank - 1), 1usize)]
    } else {
        seq![]
    };
    let right: Seq<(Seq<u8>, usize)> = if col < size - 1 {
        seq![(swapped(board, blank, blank + 1), 1usize)]
    } else {
        seq![]
    };
    assert(moves(size, board) == up + down + left + right);
    let next = (up + down + left + right)[i];
    if i < up.len() {
        assert(next == up[i]);
        lemma_swap_keeps_blank(board, blank, blank - size);
    } else if i < up.len() + down.len() {
        assert(next == down[i - up.len()]);
        lemma_swap_keeps_blank(board, blank, blank + size);
    } else if i < up.len() + down.len() + left.len() {
        assert(next == left[i - up.len() - down.len()]);
        lemma_swap_keeps_blank(board, blank, blank - 1);
    } else {
        assert(next == right[i - up.len() - down.len() - left.len()]);
        lemma_swap_keeps_blank(board, blank, blank + 1);
    }
}

/// On a board with sides of 2 or more some move is possible: the blank has
/// a row above it or one below it.
proof fn lemma_some_move(size: int, board: Seq<u8>)
    requires
        size >= 2,
        board.len() == size * size,
        board.contains(0u8),
    ensures
        moves(size, board).len() >= 1,
{
    lemma_blank_exists(board);
    let blank = first_blank(board);
    lemma_places(size, blank);
    let row = blank / size;
    assert(row > 0 || row < size - 1);
}

/// On a board of one place no move is possible.
proof fn lemma_no_move(board: Seq<u8>)
    requires
        board.len() == 1,
        board.contains(0u8),
    ensures
        moves(1, board).len() == 0,
{
    lemma_blank_exists(board);
}

/// The sum of the distances of the first `n` tiles of a board with at most
/// 255 places is at most 510 for each.
proof fn lemma_manhattan_bounded(size: int, board: Seq<u8>, n: int)
    requires
        1 <= size <= 255,
        0 <= n <= board.len() <= 255,
    ensures
        0 <= manhattan_upto(size, board, n) <= 510 * n,
    decreases n,
{
    if n > 0 {
        lemma_manhattan_bounded(size, board, n - 1);
        let i = n - 1;
        let tile = board[i] as int;
        assert(0 <= i / size <= 255 && 0 <= tile / size <= 255 && 0 <= i % size < size && 0 <= tile
            % size < size) by (nonlinear_arith)
            requires
                1 <= size <= 255,
                0 <= i <= 255,
                0 <= tile <= 255,
        ;
    }
}

/// The text of the first `n` cells of a board with sides of `size`, each
/// number in three characters and each row on a line of its own.
pub open spec fn board_text(size: int, board: Seq<u8>, n: int) -> Seq<char>
    decreases n,
{
    if n <= 0 {
        Seq::empty()
    } else {
        board_text(size, board, n - 1) + (if n - 1 > 0 && (n - 1) % size == 0 {
            seq!['\n']
        } else {
            seq![]
        }) + padded(board[n - 1] as nat, 3)
    }
}

/// The text of one cell of a drawn board: three spaces for the blank, else
/// the tile in two characters and a space.
pub open spec fn cell_text(tile: u8) -> Seq<char> {
    if tile == 0 {
        seq![' ', ' ', ' ']
    } else {
        padded(tile as nat, 2) + seq![' ']
    }
}

/// The text of the first `n` cells of a drawn board with sides of `size`;
/// each row ends its line.
pub open spec fn drawn_cells(size: int, board: Seq<u8>, n: int) -> Seq<char>
    decreases n,
{
    if n <= 0 {
        Seq::empty()
    } else {
        drawn_cells(size, board, n - 1) + cell_text(board[n - 1]) + (if n % size == 0 {
            seq!['\n']
        } else {
            seq![]
        })
    }
}

/// The name of an estimate.
pub open spec fn kind_text(kind: HeuristicType) -> Seq<char> {
    match kind {
        HeuristicType::Manhattan => "Manhattan"@,
        HeuristicType::Hamming => "Hamming"@,
        HeuristicType::Zero => "None"@,
    }
}

impl Taquin {
    /// The initial board, each number in three characters and each row on a
    /// line of its own.
    pub fn initial_state_string(&self) -> (r: String)
        requires
            self.initial().len() >= 2 ==> self.side() >= 1,
        ensures
            r@ == board_text(self.side() as int, self.initial(), self.initial().len() as int),
    {
        let mut out = String::new();
        let mut i: usize = 0;
        while i < self.initial_state.len()
            invariant
                i <= self.initial_state.len(),
                self.initial_state.len() >= 2 ==> self.size >= 1,
                out@ == board_text(self.size as int, self.initial_state@, i as int),
            decreases self.initial_state.len() - i,
        {
            let ghost before = out@;
            if i > 0 && i % self.size == 0 {
                proof {
                    reveal_strlit("\n");
                    assert("\n"@ =~= seq!['\n']);
                }
                out.append("\n");
            }
            push_number(&mut out, self.initial_state[i] as u128, 3);
            proof {
                assert(out@ =~= board_text(self.size as int, self.initial_state@, i + 1));
            }
            i = i + 1;
        }
        out
    }

    /// The puzzle drawn as text: its size, then the initial board row by
    /// row, with the blank left empty.
    pub fn render(&self) -> (r: String)
        requires
            self.side() * self.side() <= self.initial().len(),
        ensures
            r@ == "Taquin "@ + decimal(self.side() as nat) + "x"@ + decimal(self.side() as nat)
                + "\nÉtat initial:\n"@ + drawn_cells(
                self.side() as int,
                self.initial(),
                self.side() * self.side(),
            ),
    {
        let mut out = String::from_str("Taquin ");
        push_number(&mut out, self.size as u128, 0);
        out.append("x");
        push_number(&mut out, self.size as u128, 0);
        out.append("\nÉtat initial:\n");
        let ghost head = out@;
        let places: usize = self.initial_state.len();
        let total: usize = self.size * self.size;
        let mut n: usize = 0;
        let mut col: usize = 0;
        assert(total > 0 ==> self.size > 0) by (nonlinear_arith)
            requires
                total == self.size * self.size,
        ;
        while n < total
            invariant
                total == self.size * self.size,
                places == self.initial_state.len(),
                total <= places,
                n <= total,
                n < total ==> col < self.size,
                self.size > 0 ==> col == (n as int) % (self.size as int),
                out@ == head + drawn_cells(self.size as int, self.initial_state@, n as int),
            decreases total - n,
        {
            assert(self.size > 0) by (nonlinear_arith)
                requires
                    n < self.size * self.size,
            ;
            let tile = self.initial_state[n];
            if tile == 0 {
                proof {
                    reveal_strlit("   ");
                    assert("   "@ =~= seq![' ', ' ', ' ']);
                }
                out.append("   ");
            } else {
                push_number(&mut out, tile as u128, 2);
                proof {
                    reveal_strlit(" ");
                    assert(" "@ =~= seq![' ']);
                }
                out.append(" ");
            }
            col = col + 1;
            proof {
                let size = self.size as int;
                let q = (n as int) / size;
                vstd::arithmetic::div_mod::lemma_fundamental_div_mod(n as int, size);
                if col == self.size {
                    assert(n + 1 == (q + 1) * size + 0) by (nonlinear_arith)
                        requires
                            n == size * q + (size - 1),
                    ;
                    lemma_fundamental_div_mod_converse(n + 1, size, q + 1, 0);
                } else {
                    assert(n + 1 == q * size + col) by (nonlinear_arith)
                        requires
                            n == size * q + (col - 1),
                    ;
                    lemma_fundamental_div_mod_converse(n + 1, size, q, col as int);
                }
            }
            if col == self.size {
                proof {
                    reveal_strlit("\n");
                    assert("\n"@ =~= seq!['\n']);
                }
                out.append("\n");
                col = 0;
            }
            proof {
                assert(out@ =~= head + drawn_cells(self.size as int, self.initial_state@, n + 1));
            }
            n = n + 1;
        }
        out
    }

    /// Some board is reached from `from` by at most `limit` moves: `to`.
    pub open spec fn scrambled(&self, from: Seq<u8>, to: Seq<u8>, limit: nat) -> bool {
        exists|actions: Seq<usize>|
            actions.len() <= limit && #[trigger] walk_ok(self, from, actions) && walk_end(
                self,
                from,
                actions,
            ) == to
    }

    /// `to` is reached from `from` by exactly `count` moves.
    pub open spec fn moved(&self, from: Seq<u8>, to: Seq<u8>, count: nat) -> bool {
        exists|actions: Seq<usize>|
            actions.len() == count && #[trigger] walk_ok(self, from, actions) && walk_end(
                self,
                from,
                actions,
            ) == to
    }

    /// Replaces the initial board by one that `moves` moves from the goal
    /// lead to, each chosen at random among the moves possible. On a board
    /// with sides of 2 or more a move is always possible, and exactly
    /// `moves` are made; on a board of one place none is, and the board
    /// stays.
    pub fn generate_random(&mut self, moves: usize)
        requires
            old(self).has_goal(),
            moves > 0 ==> old(self).side() >= 1,
        ensures
            final(self).valid(),
            final(self).side() == old(self).side(),
            final(self).target() == old(self).target(),
            final(self).kind() == old(self).kind(),
            final(self).scrambled(final(self).target(), final(self).initial(), moves as nat),
            final(self).side() >= 2 ==> final(self).moved(
                final(self).target(),
                final(self).initial(),
                moves as nat,
            ),
            moves == 0 || final(self).side() <= 1 ==> final(self).initial() == final(self).target(),
    {
        let ghost puzzle = *self;
        let ghost size = self.size as int;
        let mut current = self.goal_state.clone();
        let ghost mut actions: Seq<usize> = Seq::empty();
        let mut done: usize = 0;
        proof {
            assert(current@ =~= self.goal_state@);
            if size >= 1 {
                assert(size * size >= 1) by (nonlinear_arith)
                    requires
                        size >= 1,
                ;
                assert(current@[0] == 0u8);
            }
        }
        while done < moves
            invariant
                *self == puzzle,
                size == self.size,
                puzzle.has_goal(),
                moves > 0 ==> size >= 1,
                current@.len() == size * size,
                size >= 1 ==> current@.contains(0u8),
                actions.len() <= done <= moves,
                size >= 2 ==> actions.len() == done,
                size <= 1 ==> actions.len() == 0,
                walk_ok(&puzzle, puzzle.target(), actions),
                walk_end(&puzzle, puzzle.target(), actions) == current@,
            decreases moves - done,
        {
            let successors = self.get_successors(current.as_slice());
            proof {
                if size >= 2 {
                    lemma_some_move(size, current@);
                } else {
                    assert(size * size == 1) by (nonlinear_arith)
                        requires
                            size == 1,
                    ;
                    lemma_no_move(current@);
                }
                assert(listed(successors@).len() == successors@.len());
            }
            match choose_move(&successors) {
                Some(next) => {
                    let ghost i = choose|i: int| 0 <= i < successors.len() && successors[i] == *next;
                    proof {
                        assert(listed(successors@)[i] == (successors[i].0@, successors[i].1));
                        lemma_move_stays(size, current@, i);
                        crate::problem::lemma_walk_push(
                            &puzzle,
                            puzzle.target(),
                            actions,
                            i as usize,
                        );
                        actions = actions.push(i as usize);
                    }
                    let chosen = next.0.clone();
                    assert(chosen@ =~= next.0@);
                    current = chosen;
                },
                None => {},
            }
            done = done + 1;
        }
        self.initial_state = current;
        proof {
            lemma_moves_go_by_side(&puzzle, &*self, puzzle.target(), actions);
        }
    }
}

impl Problem for Taquin {
    type State = Vec<u8>;

    open spec fn inv(&self) -> bool {
        self.valid()
    }

    open spec fn space(&self) -> Set<Seq<u8>> {
        boards((self.side() * self.side()) as nat)
    }

    open spec fn start(&self) -> Seq<u8> {
        self.initial()
    }

    open spec fn goal(&self, s: Seq<u8>) -> bool {
        s == self.target()
    }

    open spec fn edges(&self, s: Seq<u8>) -> Seq<(Seq<u8>, usize)> {
        if self.side() >= 1 {
            moves(self.side() as int, s)
        } else {
            seq![]
        }
    }

    open spec fn estimate(&self, s: Seq<u8>) -> usize {
        match self.kind() {
            HeuristicType::Manhattan => manhattan_sum(self.side() as int, s) as usize,
            HeuristicType::Hamming => hamming_count(s) as usize,
            HeuristicType::Zero => 0,
        }
    }

    fn initial_state(&self) -> (s: Vec<u8>) {
        let s = self.initial_state.clone();
        assert(s@ =~= self.initial_state@);
        s
    }

    fn is_goal(&self, state: &Vec<u8>) -> (r: bool) {
        let r = *state == self.goal_state;
        assert(r == (state@ =~= self.goal_state@));
        r
    }

    /// The boards one move away from `state`. A board without places has
    /// none.
    fn successors(&self, state: &Vec<u8>) -> (r: Vec<(Vec<u8>, usize)>) {
        if self.size == 0 {
            return Vec::new();
        }
        proof {
            assert(self.size * self.size >= 1) by (nonlinear_arith)
                requires
                    self.size >= 1,
            ;
        }
        let r = self.get_successors(state.as_slice());
        proof {
            let expected = moves(self.side() as int, state@);
            assert(r@.len() == listed(r@).len());
            assert forall|i: int| 0 <= i < r@.len() implies (#[trigger] r@[i]).0@ == expected[i].0
                && r@[i].1 == expected[i].1 by {
                assert(listed(r@)[i] == (r@[i].0@, r@[i].1));
            }
        }
        r
    }

    fn heuristic(&self, state: &Vec<u8>) -> (h: usize) {
        match self.heuristic_type {
            HeuristicType::Manhattan => {
                proof {
                    assert(self.size <= 255 && (self.size == 0 ==> self.size * self.size == 0))
                        by (nonlinear_arith)
                        requires
                            self.size * self.size <= 255,
                    ;
                    if self.size >= 1 {
                        lemma_manhattan_bounded(self.size as int, state@, state@.len() as int);
                    }
                }
                self.manhattan_distance(state.as_slice())
            },
            HeuristicType::Hamming => self.hamming_distance(state.as_slice()),
            HeuristicType::Zero => 0,
        }
    }

    /// "Taquin", the size of the board and the name of the estimate.
    fn description(&self) -> (r: String)
        ensures
            r@ == "Taquin "@ + decimal(self.side() as nat) + "x"@ + decimal(self.side() as nat)
                + " - Heuristique: "@ + kind_text(self.kind()),
    {
        let mut out = String::from_str("Taquin ");
        push_number(&mut out, self.size as u128, 0);
        out.append("x");
        push_number(&mut out, self.size as u128, 0);
        out.append(" - Heuristique: ");
        match self.heuristic_type {
            HeuristicType::Manhattan => out.append("Manhattan"),
            HeuristicType::Hamming => out.append("Hamming"),
            HeuristicType::Zero => out.append("None"),
        }
        out
    }
}

/// Where a move takes the blank: to a place next to it in its row or in its
/// column, with which it changes places.
proof fn lemma_move_is_a_swap(size: int, board: Seq<u8>, i: int) -> (place: int)
    requires
        size > 0,
        board.len() == size * size,
        board.contains(0u8),
        0 <= i < moves(size, board).len(),
    ensures
        0 <= place < board.len(),
        0 <= first_blank(board) < board.len(),
        board[first_blank(board)] == 0,
        place != first_blank(board),
        moves(size, board)[i].0 == swapped(board, first_blank(board), place),
        moves(size, board)[i].1 == 1,
        gap(place / size, first_blank(board) / size) + gap(
            place % size,
            first_blank(board) % size,
        ) == 1,
{
    lemma_blank_exists(board);
    let blank = first_blank(board);
    lemma_places(size, blank);
    let row = blank / size;
    let col = blank % size;
    let up: Seq<(Seq<u8>, usize)> = if row > 0 {
        seq![(swapped(board, blank, blank - size), 1usize)]
    } else {
        seq![]
    };
    let down: Seq<(Seq<u8>, usize)> = if row < size - 1 {
        seq![(swapped(board, blank, blank + size), 1usize)]
    } else {
        seq![]
    };
    let left: Seq<(Seq<u8>, usize)> = if col > 0 {
        seq![(swapped(board, blank, blank - 1), 1usize)]
    } else {
        seq![]
    };
    let right: Seq<(Seq<u8>, usize)> = if col < size - 1 {
        seq![(swapped(board, blank, blank + 1), 1usize)]
    } else {
        seq![]
    };
    assert(moves(size, board) == up + down + left + right);
    let next = (up + down + left + right)[i];
    if i < up.len() {
        assert(next == up[i]);
        lemma_fundamental_div_mod_converse(blank - size, size, row - 1, col);
        blank - size
    } else if i < up.len() + down.len() {
        assert(next == down[i - up.len()]);
        lemma_fundamental_div_mod_converse(blank + size, size, row + 1, col);
        blank + size
    } else if i < up.len() + down.len() + left.len() {
        assert(next == left[i - up.len() - down.len()]);
        lemma_fundamental_div_mod_converse(blank - 1, size, row, col - 1);
        blank - 1
    } else {
        assert(next == right[i - up.len() - down.len() - left.len()]);
        lemma_fundamental_div_mod_converse(blank + 1, size, row, col + 1);
        blank + 1
    }
}

/// Two boards that differ at two places only differ in the sum of the
/// distances by what the tiles at these places make.
proof fn lemma_manhattan_differs(size: int, a: Seq<u8>, b: Seq<u8>, p: int, q: int, n: int)
    requires
        a.len() == b.len(),
        0 <= n <= a.len(),
        p != q,
        forall|i: int| 0 <= i < n && i != p && i != q ==> a[i] == b[i],
    ensures
        manhattan_upto(size, a, n) - manhattan_upto(size, b, n) == (if 0 <= p < n {
            tile_distance(size, a, p) - tile_distance(size, b, p)
        } else {
            0
        }) + (if 0 <= q < n {
            tile_distance(size, a, q) - tile_distance(size, b, q)
        } else {
            0
        }),
    decreases n,
{
    if n > 0 {
        lemma_manhattan_differs(size, a, b, p, q, n - 1);
    }
}

/// Whether the tile at place `i` is out of place: 1 if so, else 0.
pub open spec fn misplaced(board: Seq<u8>, i: int) -> int {
    if board[i] != 0 && board[i] as int != i {
        1
    } else {
        0
    }
}

/// Two boards that differ at two places only differ in the number of tiles
/// out of place by what the tiles at these places make.
proof fn lemma_hamming_differs(a: Seq<u8>, b: Seq<u8>, p: int, q: int, n: int)
    requires
        a.len() == b.len(),
        0 <= n <= a.len(),
        p != q,
        forall|i: int| 0 <= i < n && i != p && i != q ==> a[i] == b[i],
    ensures
        hamming_upto(a, n) - hamming_upto(b, n) == (if 0 <= p < n {
            misplaced(a, p) - misplaced(b, p)
        } else {
            0
        }) + (if 0 <= q < n {
            misplaced(a, q) - misplaced(b, q)
        } else {
            0
        }),
        0 <= hamming_upto(a, n) <= n,
    decreases n,
{
    if n > 0 {
        lemma_hamming_differs(a, b, p, q, n - 1);
    }
}

/// On the solved board every tile is at its place.
proof fn lemma_solved_board_is_at_rest(size: int, places: nat, n: int)
    requires
        size > 0,
        0 <= n <= places <= 255,
    ensures
        manhattan_upto(size, solved_board(places), n) == 0,
        hamming_upto(solved_board(places), n) == 0,
    decreases n,
{
    if n > 0 {
        lemma_solved_board_is_at_rest(size, places, n - 1);
    }
}

/// A move lowers no estimate by more than it costs: it changes the
/// distance of one tile by one, and the place of one tile.
proof fn lemma_move_keeps_estimate(t: &Taquin, s: Seq<u8>, a: int)
    requires
        t.valid(),
        t.space().contains(s),
        0 <= a < t.edges(s).len(),
    ensures
        t.edges(s)[a].1 == 1,
        t.estimate(s) <= 1 + t.estimate(t.edges(s)[a].0),
{
    let size = t.side() as int;
    let places = (t.side() * t.side()) as nat;
    assert(1 <= size <= 255) by (nonlinear_arith)
        requires
            places == size * size,
            places <= 255,
            size >= 1,
    ;
    let place = lemma_move_is_a_swap(size, s, a);
    let blank = first_blank(s);
    let next = t.edges(s)[a].0;
    let tile = s[place];
    assert(next[blank] == tile && next[place] == 0);
    match t.kind() {
        HeuristicType::Manhattan => {
            lemma_manhattan_differs(size, next, s, blank, place, places as int);
            lemma_manhattan_bounded(size, s, places as int);
            lemma_manhattan_bounded(size, next, places as int);
            if tile != 0 {
                let home_row = tile as int / size;
                let home_col = tile as int % size;
                assert(tile_distance(size, next, blank) == gap(blank / size, home_row) + gap(
                    blank % size,
                    home_col,
                ));
                assert(tile_distance(size, s, place) == gap(place / size, home_row) + gap(
                    place % size,
                    home_col,
                ));
            }
        },
        HeuristicType::Hamming => {
            lemma_hamming_differs(next, s, blank, place, places as int);
            lemma_hamming_differs(s, next, blank, place, places as int);
        },
        HeuristicType::Zero => {},
    }
}

/// The estimates of a valid puzzle are consistent and admissible.
pub proof fn lemma_taquin_estimates_hold(t: &Taquin)
    requires
        t.valid(),
    ensures
        consistent(t),
        admissible(t),
{
    lemma_taquin_well_formed(t);
    let size = t.side() as int;
    let places = (t.side() * t.side()) as nat;
    assert forall|s: Seq<u8>, a: int| t.space().contains(s) && 0 <= a < t.edges(s).len() implies t.estimate(
        s,
    ) <= (#[trigger] t.edges(s)[a]).1 + t.estimate(t.edges(s)[a].0) by {
        lemma_move_keeps_estimate(t, s, a);
    }
    assert forall|s: Seq<u8>| t.space().contains(s) && t.goal(s) implies #[trigger] t.estimate(s)
        == 0 by {
        if size >= 1 {
            lemma_solved_board_is_at_rest(size, places, places as int);
        } else {
            assert(places == 0) by (nonlinear_arith)
                requires
                    places == size * size,
                    size == 0,
            ;
            assert(s.len() == 0);
        }
    }
    lemma_consistent_is_admissible(t);
}

/// Which moves are possible depends on the size of the board alone: on two
/// puzzles of one size the same walks can be taken, to the same end.
pub proof fn lemma_moves_go_by_side(a: &Taquin, b: &Taquin, from: Seq<u8>, actions: Seq<usize>)
    requires
        a.side() == b.side(),
    ensures
        walk_ok(a, from, actions) == walk_ok(b, from, actions),
        walk_end(a, from, actions) == walk_end(b, from, actions),
    decreases actions.len(),
{
    if actions.len() > 0 {
        lemma_moves_go_by_side(a, b, from, actions.drop_last());
    }
}

/// A valid puzzle is a well-formed problem: its states are the boards of
/// its size that hold a blank.
pub proof fn lemma_taquin_well_formed(t: &Taquin)
    requires
        t.valid(),
    ensures
        well_formed(t),
{
    let places = (t.side() * t.side()) as nat;
    lemma_byte_strings_finite(places);
    vstd::set_lib::lemma_set_subset_finite(byte_strings(places), boards(places));
    assert forall|s: Seq<u8>, i: int|
        t.space().contains(s) && 0 <= i < t.edges(s).len() implies t.space().contains(
        #[trigger] t.edges(s)[i].0,
    ) by {
        assert(t.side() * t.side() >= 1) by (nonlinear_arith)
            requires
                t.side() >= 1,
        ;
        lemma_move_stays(t.side() as int, s, i);
    }
    assert(closed_space(t));
    lemma_boards_compare_by_view();
}

/// The boards with as many places as `from` that are made of tiles of
/// `from` and, unless they have no place, hold a blank. The boards that
/// moves lead to from `from` are among them.
pub open spec fn rearranged(from: Seq<u8>) -> Set<Seq<u8>> {
    Set::new(
        |board: Seq<u8>|
            board.len() == from.len() && (from.len() > 0 ==> board.contains(0u8)) && forall|i: int|
                0 <= i < board.len() ==> from.contains(#[trigger] board[i]),
    )
}

/// A place of `from` that holds `tile`.
pub open spec fn tile_place(from: Seq<u8>, tile: u8) -> int {
    choose|j: int| 0 <= j < from.len() && from[j] == tile
}

/// The number that the first `m` tiles of `board` spell: each tile stands
/// for a place of `from` that holds it, read as a digit to the base of the
/// number of places.
pub open spec fn board_number(from: Seq<u8>, board: Seq<u8>, m: int) -> int
    decreases m,
{
    if m <= 0 {
        0
    } else {
        board_number(from, board, m - 1) * from.len() + tile_place(from, board[m - 1])
    }
}

/// `base` multiplied with itself `m` times.
pub open spec fn power(base: int, m: int) -> int
    decreases m,
{
    if m <= 0 {
        1
    } else {
        power(base, m - 1) * base
    }
}

/// The number that `m` tiles spell has `m` digits.
proof fn lemma_board_number_is_small(from: Seq<u8>, board: Seq<u8>, m: int)
    requires
        rearranged(from).contains(board),
        0 <= m <= board.len(),
    ensures
        0 <= board_number(from, board, m) < power(from.len() as int, m),
    decreases m,
{
    if m > 0 {
        lemma_board_number_is_small(from, board, m - 1);
        let digit = tile_place(from, board[m - 1]);
        assert(from.contains(board[m - 1]));
        assert(0 <= digit < from.len());
        let head = board_number(from, board, m - 1);
        let below = power(from.len() as int, m - 1);
        let base = from.len() as int;
        assert(0 <= head * base + digit < below * base) by (nonlinear_arith)
            requires
                0 <= head < below,
                0 <= digit < base,
        ;
    }
}

/// Boards made of the tiles of `from` whose first `m` tiles spell the same
/// number have the same first `m` tiles.
proof fn lemma_board_number_tells(from: Seq<u8>, a: Seq<u8>, b: Seq<u8>, m: int)
    requires
        rearranged(from).contains(a),
        rearranged(from).contains(b),
        0 <= m <= from.len(),
        board_number(from, a, m) == board_number(from, b, m),
    ensures
        forall|i: int| 0 <= i < m ==> a[i] == b[i],
    decreases m,
{
    if m > 0 {
        let base = from.len() as int;
        let digit_a = tile_place(from, a[m - 1]);
        let digit_b = tile_place(from, b[m - 1]);
        assert(from.contains(a[m - 1]));
        assert(from.contains(b[m - 1]));
        let whole = board_number(from, a, m);
        lemma_fundamental_div_mod_converse(whole, base, board_number(from, a, m - 1), digit_a);
        lemma_fundamental_div_mod_converse(whole, base, board_number(from, b, m - 1), digit_b);
        lemma_board_number_tells(from, a, b, m - 1);
    }
}

/// No move leads out of the boards made of the tiles of a board of the
/// puzzle's size.
proof fn lemma_moves_rearrange(t: &Taquin, from: Seq<u8>)
    requires
        t.valid(),
        from.len() == t.side() * t.side(),
    ensures
        closed_under_edges(t, rearranged(from)),
{
    let size = t.side() as int;
    assert forall|s: Seq<u8>, a: int|
        rearranged(from).contains(s) && 0 <= a < t.edges(s).len() implies rearranged(from).contains(
        (#[trigger] t.edges(s)[a]).0,
    ) by {
        assert(size * size >= 1) by (nonlinear_arith)
            requires
                size >= 1,
        ;
        let place = lemma_move_is_a_swap(size, s, a);
        let blank = first_blank(s);
        let next = swapped(s, blank, place);
        lemma_swap_keeps_blank(s, blank, place);
        assert forall|i: int| 0 <= i < next.len() implies from.contains(#[trigger] next[i]) by {
            if i == blank {
                assert(next[i] == s[place]);
            } else if i == place {
                assert(next[i] == s[blank]);
            } else {
                assert(next[i] == s[i]);
            }
        }
    }
}

/// The number of hamming mismatches among the first `n` places is at most
/// `n`.
proof fn lemma_hamming_bounded(board: Seq<u8>, n: int)
    requires
        0 <= n,
    ensures
        0 <= hamming_upto(board, n) <= n,
    decreases n,
{
    if n > 0 {
        lemma_hamming_bounded(board, n - 1);
    }
}

/// Every move of a valid puzzle costs 1.
pub proof fn lemma_moves_cost_one(t: &Taquin)
    requires
        t.valid(),
    ensures
        unit_costs(t),
{
    let size = t.side() as int;
    assert forall|s: Seq<u8>, a: int|
        t.space().contains(s) && 0 <= a < t.edges(s).len() implies (#[trigger] t.edges(s)[a]).1
        == 1 by {
        assert(size * size >= 1) by (nonlinear_arith)
            requires
                size >= 1,
        ;
        lemma_move_stays(size, s, a);
    }
}

/// A walk through a valid puzzle that visits no state twice passes through
/// boards made of the tiles of the initial board. With `places` places
/// there are no more of them than `places` to the power of `places`, so the
/// walk has fewer actions; it costs as much as it has actions, and the
/// estimate at its end is at most 510 for each place.
pub proof fn lemma_puzzle_walks_are_short(t: &Taquin, actions: Seq<usize>)
    requires
        t.valid(),
        simple_walk(t, actions),
    ensures
        actions.len() < power(t.initial().len() as int, t.initial().len() as int),
        walk_cost(t, t.start(), actions) == actions.len(),
        t.estimate(walk_end(t, t.start(), actions)) <= 510 * t.initial().len(),
{
    lemma_taquin_well_formed(t);
    let size = t.side() as int;
    let from = t.initial();
    let places = from.len() as int;
    let region = rearranged(from);
    let number = |board: Seq<u8>| board_number(from, board, places);
    let count = power(places, places);
    assert(region.contains(from)) by {
        assert forall|i: int| 0 <= i < from.len() implies from.contains(#[trigger] from[i]) by {}
    }
    lemma_moves_rearrange(t, from);
    assert forall|s: Seq<u8>| region.contains(s) implies 0 <= #[trigger] number(s) < count by {
        lemma_board_number_is_small(from, s, places);
    }
    assert forall|a: Seq<u8>, b: Seq<u8>|
        region.contains(a) && region.contains(b) && #[trigger] number(a) == #[trigger] number(
            b,
        ) implies a == b by {
        lemma_board_number_tells(from, a, b, places);
        assert(a =~= b);
    }
    lemma_moves_cost_one(t);
    lemma_simple_walk_numbered(t, region, number, count, actions);
    lemma_unit_cost_is_length(t, actions);
    let end = walk_end(t, t.start(), actions);
    assert(end.len() == places);
    lemma_hamming_bounded(end, places);
    assert(size <= 255 && (size == 0 ==> places == 0)) by (nonlinear_arith)
        requires
            places == size * size,
            places <= 255,
            size >= 0,
    ;
    if size >= 1 {
        lemma_manhattan_bounded(size, end, places);
    }
}

/// On a puzzle with sides of 3 or less, every walk that visits no state
/// twice fits in machine words, and so does its cost with the estimate at
/// its end added: there are fewer such walks' boards than 9 to the power
/// of 9.
pub proof fn lemma_small_puzzles_fit(t: &Taquin)
    requires
        t.valid(),
        t.side() <= 3,
    ensures
        walks_fit(t),
        scores_fit(t),
{
    let size = t.side() as int;
    let places = t.initial().len() as int;
    assert(places == 0 || places == 1 || places == 4 || places == 9) by (nonlinear_arith)
        requires
            places == size * size,
            0 <= size <= 3,
    ;
    assert(power(0, 0) == 1);
    assert(power(1, 1) == 1) by {
        reveal_with_fuel(power, 3);
    }
    assert(power(4, 4) == 256) by {
        reveal_with_fuel(power, 6);
    }
    assert(power(9, 9) == 387420489) by {
        reveal_with_fuel(power, 11);
    }
    assert forall|actions: Seq<usize>| #[trigger] simple_walk(t, actions) implies actions.len()
        <= usize::MAX && walk_cost(t, t.start(), actions) + t.estimate(
        walk_end(t, t.start(), actions),
    ) <= usize::MAX by {
        lemma_puzzle_walks_are_short(t, actions);
    }
}

/// On a puzzle with sides of 4, every walk that visits no state twice fits
/// in machine words of 64 bits: it has fewer actions than 16 to the power
/// of 16.
pub proof fn lemma_fifteen_puzzle_walks_fit(t: &Taquin)
    requires
        t.valid(),
        t.side() == 4,
        usize::MAX >= 0xffff_ffff_ffff_ffff,
    ensures
        walks_fit(t),
{
    assert(power(16, 16) == 0x1_0000_0000_0000_0000) by {
        reveal_with_fuel(power, 18);
    }
    assert forall|actions: Seq<usize>| #[trigger] simple_walk(t, actions) implies actions.len()
        <= usize::MAX && walk_cost(t, t.start(), actions) <= usize::MAX by {
        lemma_puzzle_walks_are_short(t, actions);
    }
}

/// At most one place of the board holds a blank.
pub open spec fn single_blank(board: Seq<u8>) -> bool {
    forall|i: int, j: int|
        0 <= i < board.len() && 0 <= j < board.len() && board[i] == 0 && board[j] == 0 ==> i == j
}

/// A move on a board with one blank can be taken back: from the board it
/// leads to, which has one blank too, some move leads back.
proof fn lemma_move_back(size: int, board: Seq<u8>, i: int) -> (j: int)
    requires
        size > 0,
        board.len() == size * size,
        board.contains(0u8),
        single_blank(board),
        0 <= i < moves(size, board).len(),
    ensures
        0 <= j < moves(size, moves(size, board)[i].0).len(),
        j < 4,
        moves(size, moves(size, board)[i].0)[j].0 == board,
        moves(size, board)[i].0.len() == board.len(),
        moves(size, board)[i].0.contains(0u8),
        single_blank(moves(size, board)[i].0),
{
    let place = lemma_move_is_a_swap(size, board, i);
    let blank = first_blank(board);
    let next = moves(size, board)[i].0;
    lemma_swap_keeps_blank(board, blank, place);
    assert(board[place] != 0);
    assert(next[place] == 0 && next[blank] == board[place]);
    assert forall|k: int| 0 <= k < next.len() && k != place implies next[k] != 0 by {
        if k != blank {
            assert(next[k] == board[k]);
        }
    }
    lemma_first_blank(next, place);
    lemma_places(size, place);
    lemma_places(size, blank);
    let row = place / size;
    let col = place % size;
    let up: Seq<(Seq<u8>, usize)> = if row > 0 {
        seq![(swapped(next, place, place - size), 1usize)]
    } else {
        seq![]
    };
    let down: Seq<(Seq<u8>, usize)> = if row < size - 1 {
        seq![(swapped(next, place, place + size), 1usize)]
    } else {
        seq![]
    };
    let left: Seq<(Seq<u8>, usize)> = if col > 0 {
        seq![(swapped(next, place, place - 1), 1usize)]
    } else {
        seq![]
    };
    let right: Seq<(Seq<u8>, usize)> = if col < size - 1 {
        seq![(swapped(next, place, place + 1), 1usize)]
    } else {
        seq![]
    };
    assert(moves(size, next) == up + down + left + right);
    assert(swapped(next, place, blank) =~= board);
    let blank_row = blank / size;
    let blank_col = blank % size;
    assert(blank - place == (blank_row - row) * size + (blank_col - col)) by (nonlinear_arith)
        requires
            blank == size * blank_row + blank_col,
            place == size * row + col,
    ;
    if blank_row == row - 1 {
        assert(blank == place - size) by (nonlinear_arith)
            requires
                blank - place == (blank_row - row) * size + (blank_col - col),
                blank_row == row - 1,
                blank_col == col,
        ;
        assert((up + down + left + right)[0] == up[0]);
        0
    } else if blank_row == row + 1 {
        assert(blank == place + size) by (nonlinear_arith)
            requires
                blank - place == (blank_row - row) * size + (blank_col - col),
                blank_row == row + 1,
                blank_col == col,
        ;
        assert((up + down + left + right)[up.len() as int] == down[0]);
        up.len() as int
    } else {
        assert(blank - place == blank_col - col) by (nonlinear_arith)
            requires
                blank - place == (blank_row - row) * size + (blank_col - col),
                blank_row == row,
        ;
        if blank_col == col - 1 {
            assert((up + down + left + right)[(up.len() + down.len()) as int] == left[0]);
            (up.len() + down.len()) as int
        } else {
            assert((up + down + left + right)[(up.len() + down.len() + left.len()) as int]
                == right[0]);
            (up.len() + down.len() + left.len()) as int
        }
    }
}

/// A walk of moves from a board with one blank can be walked back in as
/// many moves.
proof fn lemma_walk_back(t: &Taquin, from: Seq<u8>, actions: Seq<usize>) -> (back: Seq<usize>)
    requires
        t.valid(),
        from.len() == t.side() * t.side(),
        t.side() >= 1 ==> from.contains(0u8),
        single_blank(from),
        walk_ok(t, from, actions),
    ensures
        walk_ok(t, walk_end(t, from, actions), back),
        walk_end(t, walk_end(t, from, actions), back) == from,
        back.len() == actions.len(),
        walk_end(t, from, actions).len() == from.len(),
        t.side() >= 1 ==> walk_end(t, from, actions).contains(0u8),
        single_blank(walk_end(t, from, actions)),
    decreases actions.len(),
{
    if actions.len() == 0 {
        Seq::empty()
    } else {
        let size = t.side() as int;
        let earlier = lemma_walk_back(t, from, actions.drop_last());
        let before = walk_end(t, from, actions.drop_last());
        let a = actions.last() as int;
        assert(size * size >= 1) by (nonlinear_arith)
            requires
                size >= 1,
        ;
        let j = lemma_move_back(size, before, a);
        let end = walk_end(t, from, actions);
        let first = seq![j as usize];
        assert(first.drop_last() =~= Seq::<usize>::empty());
        assert(walk_ok(t, end, first.drop_last()));
        assert(walk_end(t, end, first.drop_last()) == end);
        assert(walk_ok(t, end, first));
        assert(walk_end(t, end, first) == before);
        lemma_walk_concat(t, end, first, earlier);
        first + earlier
    }
}

/// A puzzle scrambled from its goal can be solved, in no more moves than
/// it was scrambled by.
pub proof fn lemma_scrambled_is_solvable(t: &Taquin, limit: nat) -> (back: Seq<usize>)
    requires
        t.valid(),
        t.scrambled(t.target(), t.initial(), limit),
    ensures
        is_solution(t, back),
        back.len() <= limit,
{
    let actions = choose|actions: Seq<usize>|
        actions.len() <= limit && #[trigger] walk_ok(t, t.target(), actions) && walk_end(
            t,
            t.target(),
            actions,
        ) == t.initial();
    let places = (t.side() * t.side()) as nat;
    assert(t.side() >= 1 ==> solved_board(places).contains(0u8)) by {
        if t.side() >= 1 {
            assert(t.side() * t.side() >= 1) by (nonlinear_arith)
                requires
                    t.side() >= 1,
            ;
            assert(solved_board(places)[0] == 0u8);
        }
    }
    assert(single_blank(solved_board(places)));
    lemma_walk_back(t, t.target(), actions)
}

/// Boards are equal when their views are, and a clone of a board has the
/// view of the board cloned.
proof fn lemma_boards_compare_by_view()
    ensures
        state_laws::<Vec<u8>>(),
{
    assert forall|a: Vec<u8>, b: Vec<u8>| #[trigger] a.eq_spec(&b) <==> a@ == b@ by {
        if a.eq_spec(&b) {
            assert(a@ =~= b@);
        }
    }
    assert forall|a: Vec<u8>, b: Vec<u8>| #[trigger] cloned::<Vec<u8>>(a, b) implies a@ == b@ by {
        assert(a@ =~= b@);
    }
}

} // verus!
