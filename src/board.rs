use vstd::prelude::*;

use crate::enums::{Cell, Symbol};

verus! {

/// The cells left as they were, or with `p` taken by `s` where `p` is an
/// empty cell of the board.
pub open spec fn apply_move(cells: Seq<Cell>, p: int, s: Symbol) -> Seq<Cell> {
    if 0 <= p < cells.len() && cells[p] == Cell::Empty {
        cells.update(p, Cell::Occupied(s))
    } else {
        cells
    }
}

/// No cell is empty.
pub open spec fn all_occupied(cells: Seq<Cell>) -> bool {
    forall|i: int| 0 <= i < cells.len() ==> cells[i] != Cell::Empty
}

/// The indices `0..n` in ascending order.
pub open spec fn positions(n: int) -> Seq<usize> {
    Seq::new(n as nat, |i: int| i as usize)
}

/// Holds of the indices of the empty cells.
pub open spec fn is_empty_at(cells: Seq<Cell>) -> spec_fn(usize) -> bool {
    |p: usize| (p as int) < cells.len() && cells[p as int] == Cell::Empty
}

/// The indices of the empty cells, ascending.
pub open spec fn empty_positions(cells: Seq<Cell>) -> Seq<usize> {
    positions(cells.len() as int).filter(is_empty_at(cells))
}

/// The mark held by a cell, if any.
pub open spec fn mark_of(c: Cell) -> Option<Symbol> {
    match c {
        Cell::Empty => None,
        Cell::Occupied(s) => Some(s),
    }
}

/// The run length that wins on a board of the given size: 3 on the 3x3
/// board, 4 on any other.
pub open spec fn run_length(size: int) -> int {
    if size == 3 {
        3
    } else {
        4
    }
}

/// The mark at step `t` of the line that starts at index `start` and
/// advances by `step`; none where that index lies past the cells.
pub open spec fn line_mark(cells: Seq<Cell>, start: int, step: int, t: int) -> Option<Symbol> {
    let idx = start + t * step;
    if 0 <= idx < cells.len() {
        mark_of(cells[idx])
    } else {
        None
    }
}

/// A run of `win` equal marks along the line ends at step `t`.
pub open spec fn run_ends_at(cells: Seq<Cell>, start: int, step: int, win: int, t: int) -> bool {
    &&& win - 1 <= t
    &&& line_mark(cells, start, step, t) is Some
    &&& forall|u: int|
        t - win < u <= t ==> #[trigger] line_mark(cells, start, step, u) == line_mark(
            cells,
            start,
            step,
            t,
        )
}

/// The mark of the first winning run along a line of `size` steps, looking
/// from step `t` on.
pub open spec fn first_run(
    cells: Seq<Cell>,
    size: int,
    start: int,
    step: int,
    win: int,
    t: int,
) -> Option<Symbol>
    decreases size - t,
{
    if t >= size {
        None
    } else if run_ends_at(cells, start, step, win, t) {
        line_mark(cells, start, step, t)
    } else {
        first_run(cells, size, start, step, win, t + 1)
    }
}

/// How many lines are scanned on a board of the given size.
pub open spec fn line_count(size: int) -> int {
    2 * size + 2 + if size == 5 {
        2int
    } else {
        0int
    }
}

/// Start and stride of the `k`-th line in scanning order: row `i` then
/// column `i` for each `i`, then the main and the anti-diagonal, then on the
/// 5x5 board the two diagonals beside those.
pub open spec fn line_at(size: int, k: int) -> (int, int) {
    if k < 2 * size {
        if k % 2 == 0 {
            ((k / 2) * size, 1)
        } else {
            (k / 2, size)
        }
    } else if k == 2 * size {
        (0, size + 1)
    } else if k == 2 * size + 1 {
        (size - 1, size - 1)
    } else if k == 2 * size + 2 {
        (1, size + 1)
    } else {
        (size, size - 1)
    }
}

/// The mark that wins along the `k`-th line, if any.
pub open spec fn line_winner(cells: Seq<Cell>, size: int, k: int) -> Option<Symbol> {
    first_run(cells, size, line_at(size, k).0, line_at(size, k).1, run_length(size), 0)
}

/// The winner along the first line, from the `k`-th on, that has one.
pub open spec fn first_winner(cells: Seq<Cell>, size: int, k: int) -> Option<Symbol>
    decreases line_count(size) - k,
{
    if k >= line_count(size) {
        None
    } else if line_winner(cells, size, k) is Some {
        line_winner(cells, size, k)
    } else {
        first_winner(cells, size, k + 1)
    }
}

/// The winner of a board: the mark of the first winning line in scanning
/// order.
pub open spec fn winner(cells: Seq<Cell>, size: int) -> Option<Symbol> {
    first_winner(cells, size, 0)
}

/// Past the end of the cells a line holds no run.
proof fn lemma_past_end(cells: Seq<Cell>, size: int, start: int, step: int, win: int, t: int)
    requires
        0 <= start,
        0 <= step,
        0 <= t,
        start + t * step >= cells.len(),
    ensures
        first_run(cells, size, start, step, win, t) is None,
    decreases size - t,
{
    if t < size {
        assert((t + 1) * step >= t * step) by (nonlinear_arith)
            requires
                0 <= step,
                0 <= t,
        ;
        lemma_past_end(cells, size, start, step, win, t + 1);
    }
}

/// Every index that a scan of the board's lines computes fits in `usize`.
proof fn lemma_line_bounds(n: int, i: int)
    requires
        1 <= n,
        0 <= i < n,
        n * n <= usize::MAX,
    ensures
        n + 1 <= usize::MAX,
        i * n + (n - 1) <= n * n,
        i + (n - 1) * n <= n * n,
        (n - 1) * (n + 1) <= n * n,
        (n - 1) + (n - 1) * (n - 1) <= n * n,
{
    if n >= 2 {
        assert(n < n * n) by (nonlinear_arith)
            requires
                2 <= n,
        ;
    }
    assert(i * n <= (n - 1) * n) by (nonlinear_arith)
        requires
            0 <= i < n,
    ;
    assert((n - 1) * n + (n - 1) < n * n) by (nonlinear_arith)
        requires
            1 <= n,
    ;
    assert(i + (n - 1) * n <= n * n) by (nonlinear_arith)
        requires
            0 <= i < n,
    ;
    assert((n - 1) * (n + 1) <= n * n) by (nonlinear_arith);
    assert((n - 1) + (n - 1) * (n - 1) <= n * n) by (nonlinear_arith)
        requires
            1 <= n,
    ;
}

/// Every empty cell is listed among the empty positions.
pub(crate) proof fn lemma_empty_listed(cells: Seq<Cell>, p: usize)
    requires
        (p as int) < cells.len(),
        cells[p as int] == Cell::Empty,
    ensures
        empty_positions(cells).contains(p),
{
    let ps = positions(cells.len() as int);
    assert(ps[p as int] == p);
    assert(is_empty_at(cells)(ps[p as int]));
    ps.lemma_filter_contains(is_empty_at(cells), p as int);
}

/// A board is full exactly when it lists no empty position.
pub proof fn lemma_full_iff_no_empty_cells(cells: Seq<Cell>)
    requires
        cells.len() <= usize::MAX,
    ensures
        all_occupied(cells) <==> empty_positions(cells).len() == 0,
{
    let e = empty_positions(cells);
    if e.len() > 0 {
        assert(is_empty_at(cells)(e[0]));
    }
    if !all_occupied(cells) {
        let i = choose|i: int| 0 <= i < cells.len() && cells[i] == Cell::Empty;
        lemma_empty_listed(cells, i as usize);
    }
}

/// A line of an empty board holds no run.
proof fn lemma_blank_line(cells: Seq<Cell>, size: int, start: int, step: int, win: int, t: int)
    requires
        forall|i: int| 0 <= i < cells.len() ==> cells[i] == Cell::Empty,
    ensures
        first_run(cells, size, start, step, win, t) is None,
    decreases size - t,
{
    if t < size {
        assert(line_mark(cells, start, step, t) is None);
        lemma_blank_line(cells, size, start, step, win, t + 1);
    }
}

/// No line of an empty board, from the `k`-th on, has a winner.
proof fn lemma_blank_lines(cells: Seq<Cell>, size: int, k: int)
    requires
        forall|i: int| 0 <= i < cells.len() ==> cells[i] == Cell::Empty,
    ensures
        first_winner(cells, size, k) is None,
    decreases line_count(size) - k,
{
    if k < line_count(size) {
        lemma_blank_line(cells, size, line_at(size, k).0, line_at(size, k).1, run_length(size), 0);
        lemma_blank_lines(cells, size, k + 1);
    }
}

/// An empty board of any size has no winner.
pub proof fn lemma_empty_board_has_no_winner(size: nat)
    ensures
        winner(Seq::new(size * size, |i: int| Cell::Empty), size as int) is None,
{
    lemma_blank_lines(Seq::new(size * size, |i: int| Cell::Empty), size as int, 0);
}

/// The cells after the moves `moves` in turn, the `j`-th with the mark
/// `marks[j]`, each taken as `make_move` takes it.
pub open spec fn apply_moves(cells: Seq<Cell>, moves: Seq<usize>, marks: Seq<Symbol>) -> Seq<Cell>
    decreases moves.len(),
{
    if moves.len() == 0 || marks.len() == 0 {
        cells
    } else {
        apply_moves(
            apply_move(cells, moves[0] as int, marks[0]),
            moves.drop_first(),
            marks.drop_first(),
        )
    }
}

/// Moves keep occupied cells occupied and leave each cell they name
/// occupied.
proof fn lemma_moves_fill(cells: Seq<Cell>, moves: Seq<usize>, marks: Seq<Symbol>)
    requires
        marks.len() >= moves.len(),
        forall|j: int| 0 <= j < moves.len() ==> (moves[j] as int) < cells.len(),
    ensures
        apply_moves(cells, moves, marks).len() == cells.len(),
        forall|i: int|
            0 <= i < cells.len() && cells[i] != Cell::Empty ==> apply_moves(cells, moves, marks)[i]
                != Cell::Empty,
        forall|j: int|
            0 <= j < moves.len() ==> apply_moves(cells, moves, marks)[#[trigger] moves[j] as int]
                != Cell::Empty,
    decreases moves.len(),
{
    if moves.len() > 0 {
        let c1 = apply_move(cells, moves[0] as int, marks[0]);
        assert(c1[moves[0] as int] != Cell::Empty);
        assert forall|i: int| 0 <= i < cells.len() && cells[i] != Cell::Empty implies c1[i]
            != Cell::Empty by {
            assert(c1[i] == cells[i]);
        }
        let rest = moves.drop_first();
        assert forall|j: int| 0 <= j < rest.len() implies (rest[j] as int) < c1.len() by {
            assert(rest[j] == moves[j + 1]);
        }
        lemma_moves_fill(c1, rest, marks.drop_first());
        let r = apply_moves(cells, moves, marks);
        assert forall|j: int| 0 <= j < moves.len() implies r[moves[j] as int] != Cell::Empty by {
            if j > 0 {
                assert(rest[j - 1] == moves[j]);
            }
        }
    }
}

/// Taking every empty position in turn, with any marks, leaves a full board
/// with no empty position listed.
pub proof fn lemma_filling_empty_cells(cells: Seq<Cell>, marks: Seq<Symbol>)
    requires
        cells.len() <= usize::MAX,
        marks.len() >= empty_positions(cells).len(),
    ensures
        all_occupied(apply_moves(cells, empty_positions(cells), marks)),
        empty_positions(apply_moves(cells, empty_positions(cells), marks)) == Seq::<usize>::empty(),
{
    let e = empty_positions(cells);
    assert forall|j: int| 0 <= j < e.len() implies (e[j] as int) < cells.len() by {
        assert(is_empty_at(cells)(e[j]));
    }
    lemma_moves_fill(cells, e, marks);
    let r = apply_moves(cells, e, marks);
    assert forall|i: int| 0 <= i < r.len() implies r[i] != Cell::Empty by {
        if cells[i] == Cell::Empty {
            lemma_empty_listed(cells, i as usize);
            let j = choose|j: int| 0 <= j < e.len() && e[j] == i as usize;
            assert(r[e[j] as int] != Cell::Empty);
        }
    }
    lemma_full_iff_no_empty_cells(r);
    assert(empty_positions(r) =~= Seq::<usize>::empty());
}

/// A board of `size` rows and `size` columns, its cells stored row by row.
#[derive(Clone, Debug)]
pub struct Board {
    pub cells: Vec<Cell>,
    pub size: usize,
}

impl Board {
    /// One cell for each of the `size * size` positions.
    pub open spec fn wf(&self) -> bool {
        &&& self.size * self.size <= usize::MAX
        &&& self.cells@.len() == self.size * self.size
    }

    /// A board of `size * size` empty cells.
    pub fn new(size: usize) -> (r: Board)
        requires
            size * size <= usize::MAX,
        ensures
            r.wf(),
            r.size == size,
            r.cells@ == Seq::new((size * size) as nat, |i: int| Cell::Empty),
    {
        let n: usize = size * size;
        let mut cells: Vec<Cell> = Vec::new();
        let mut i: usize = 0;
        while i < n
            invariant
                i <= n,
                cells@ == Seq::new(i as nat, |j: int| Cell::Empty),
            decreases n - i,
        {
            cells.push(Cell::Empty);
            i = i + 1;
            assert(cells@ =~= Seq::new(i as nat, |j: int| Cell::Empty));
        }
        Board { cells, size }
    }

    /// Places `symbol` at `position` where that cell exists and is empty, and
    /// says whether it did; the board is left unchanged otherwise.
    pub fn make_move(&mut self, position: usize, symbol: Symbol) -> (r: bool)
        ensures
            r == (position < old(self).cells@.len() && old(self).cells@[position as int]
                == Cell::Empty),
            final(self).size == old(self).size,
            final(self).cells@ == apply_move(old(self).cells@, position as int, symbol),
            r ==> final(self).cells@[position as int] == Cell::Occupied(symbol),
            forall|i: int|
                0 <= i < old(self).cells@.len() && old(self).cells@[i] != Cell::Empty
                    ==> final(self).cells@[i] == old(self).cells@[i],
            final(self).cells@.len() == old(self).cells@.len(),
    {
        if position < self.cells.len() && self.cells[position] == Cell::Empty {
            self.cells.set(position, Cell::Occupied(symbol));
            true
        } else {
            false
        }
    }

    /// Whether no cell is empty.
    pub fn is_full(&self) -> (r: bool)
        ensures
            r == all_occupied(self.cells@),
    {
        let mut i: usize = 0;
        while i < self.cells.len()
            invariant
                i <= self.cells@.len(),
                forall|j: int| 0 <= j < i ==> self.cells@[j] != Cell::Empty,
            decreases self.cells@.len() - i,
        {
            if self.cells[i] == Cell::Empty {
                return false;
            }
            i = i + 1;
        }
        true
    }

    /// The mark at `index`; none where the cell is empty or does not exist.
    fn get_symbol(&self, index: usize) -> (r: Option<Symbol>)
        ensures
            r == (if index < self.cells@.len() {
                mark_of(self.cells@[index as int])
            } else {
                None
            }),
    {
        if index < self.cells.len() {
            match self.cells[index] {
                Cell::Occupied(symbol) => Some(symbol),
                Cell::Empty => None,
            }
        } else {
            None
        }
    }

    /// Scans the line from `start` by `step` for a run of `win_length` equal
    /// marks, counting the current run as it goes.
    fn check_line(&self, start: usize, step: usize, win_length: usize) -> (r: Option<Symbol>)
        requires
            self.wf(),
            2 <= win_length,
            self.size == 0 || start + (self.size - 1) * step <= usize::MAX,
        ensures
            r == first_run(
                self.cells@,
                self.size as int,
                start as int,
                step as int,
                win_length as int,
                0,
            ),
    {
        let ghost cells = self.cells@;
        let ghost n = self.size as int;
        let ghost st = start as int;
        let ghost sp = step as int;
        let ghost w = win_length as int;
        let mut count: usize = 0;
        let mut current: Option<Symbol> = None;
        let mut i: usize = 0;
        while i < self.size
            invariant
                self.wf(),
                cells == self.cells@,
                n == self.size,
                st == start,
                sp == step,
                w == win_length,
                2 <= w,
                self.size == 0 || start + (self.size - 1) * step <= usize::MAX,
                i <= n,
                first_run(cells, n, st, sp, w, 0) == first_run(cells, n, st, sp, w, i as int),
                count < w,
                count <= i,
                current is None ==> count == 0 && (i > 0 ==> line_mark(cells, st, sp, i - 1) is None),
                current is Some ==> count >= 1,
                forall|u: int| i - count <= u < i ==> #[trigger] line_mark(cells, st, sp, u) == current,
                current is Some && i - count > 0 ==> line_mark(cells, st, sp, i - count - 1) != current,
            decreases n - i,
        {
            assert(i * step <= (self.size - 1) * step) by (nonlinear_arith)
                requires
                    i < self.size,
            ;
            let index = start + i * step;
            if index >= self.cells.len() {
                proof {
                    lemma_past_end(cells, n, st, sp, w, i as int);
                }
                return None;
            }
            let ghost m = line_mark(cells, st, sp, i as int);
            match self.get_symbol(index) {
                Some(symbol) => {
                    assert(m == Some(symbol));
                    let same = match current {
                        Some(c) => c == symbol,
                        None => false,
                    };
                    if same {
                        count = count + 1;
                        if count == win_length {
                            assert(run_ends_at(cells, st, sp, w, i as int));
                            return current;
                        }
                        if i >= count {
                            assert(line_mark(cells, st, sp, i - count) != m);
                        }
                        assert(!run_ends_at(cells, st, sp, w, i as int));
                    } else {
                        if i > 0 {
                            assert(line_mark(cells, st, sp, i - 1) != m);
                        }
                        assert(!run_ends_at(cells, st, sp, w, i as int));
                        current = Some(symbol);
                        count = 1;
                    }
                },
                None => {
                    assert(!run_ends_at(cells, st, sp, w, i as int));
                    current = None;
                    count = 0;
                },
            }
            i = i + 1;
        }
        None
    }

    /// The mark that holds a full run on some line, taking the first such
    /// line in scanning order; none where no line has one.
    pub fn check_winner(&self) -> (r: Option<Symbol>)
        requires
            self.wf(),
        ensures
            r == winner(self.cells@, self.size as int),
    {
        let ghost cells = self.cells@;
        let ghost n = self.size as int;
        if self.size == 0 {
            assert(first_winner(cells, n, 2) is None);
            assert(first_winner(cells, n, 1) is None);
            assert(first_winner(cells, n, 0) is None);
            return None;
        }
        let win_length: usize = if self.size == 3 {
            3
        } else {
            4
        };
        let mut i: usize = 0;
        while i < self.size
            invariant
                self.wf(),
                cells == self.cells@,
                n == self.size,
                1 <= n,
                win_length == run_length(n),
                i <= n,
                winner(cells, n) == first_winner(cells, n, 2 * i),
            decreases n - i,
        {
            proof {
                lemma_line_bounds(n, i as int);
            }
            assert((2 * i) % 2 == 0 && (2 * i) / 2 == i);
            assert((2 * i + 1) % 2 == 1 && (2 * i + 1) / 2 == i);
            assert(line_at(n, 2 * i) == (i * n, 1int));
            match self.check_line(i * self.size, 1, win_length) {
                Some(symbol) => {
                    return Some(symbol);
                },
                None => {},
            }
            assert(first_winner(cells, n, 2 * i) == first_winner(cells, n, 2 * i + 1));
            assert(line_at(n, 2 * i + 1) == (i as int, n));
            match self.check_line(i, self.size, win_length) {
                Some(symbol) => {
                    assert(line_winner(cells, n, 2 * i + 1) == Some(symbol));
                    return Some(symbol);
                },
                None => {},
            }
            assert(first_winner(cells, n, 2 * i + 1) == first_winner(cells, n, 2 * i + 2));
            i = i + 1;
        }
        proof {
            lemma_line_bounds(n, 0);
        }
        assert(line_at(n, 2 * n) == (0int, n + 1));
        assert(line_at(n, 2 * n + 1) == (n - 1, n - 1));
        assert(line_at(n, 2 * n + 2) == (1int, n + 1));
        assert(line_at(n, 2 * n + 3) == (n, n - 1));
        match self.check_line(0, self.size + 1, win_length) {
            Some(symbol) => {
                return Some(symbol);
            },
            None => {},
        }
        assert(first_winner(cells, n, 2 * n) == first_winner(cells, n, 2 * n + 1));
        match self.check_line(self.size - 1, self.size - 1, win_length) {
            Some(symbol) => {
                return Some(symbol);
            },
            None => {},
        }
        assert(first_winner(cells, n, 2 * n + 1) == first_winner(cells, n, 2 * n + 2));
        if self.size == 5 {
            assert(1 + (n - 1) * (n + 1) <= usize::MAX && n + (n - 1) * (n - 1) <= usize::MAX)
                by (nonlinear_arith)
                requires
                    n == 5,
            ;
            match self.check_line(1, self.size + 1, win_length) {
                Some(symbol) => {
                    return Some(symbol);
                },
                None => {},
            }
            assert(first_winner(cells, n, 2 * n + 2) == first_winner(cells, n, 2 * n + 3));
            match self.check_line(self.size, self.size - 1, win_length) {
                Some(symbol) => {
                    return Some(symbol);
                },
                None => {},
            }
            assert(first_winner(cells, n, 2 * n + 3) == first_winner(cells, n, 2 * n + 4));
        }
        None
    }

    /// The indices of the empty cells, in ascending order.
    pub fn get_empty_cells(&self) -> (r: Vec<usize>)
        ensures
            r@ == empty_positions(self.cells@),
    {
        let ghost cells = self.cells@;
        let mut r: Vec<usize> = Vec::new();
        let mut i: usize = 0;
        while i < self.cells.len()
            invariant
                cells == self.cells@,
                i <= cells.len(),
                r@ == positions(i as int).filter(is_empty_at(cells)),
            decreases cells.len() - i,
        {
            let ghost ps = positions(i + 1);
            assert(ps =~= positions(i as int).push(i));
            proof {
                positions(i as int).lemma_filter_push(i, is_empty_at(cells));
            }
            if self.cells[i] == Cell::Empty {
                r.push(i);
            }
            i = i + 1;
            assert(r@ =~= ps.filter(is_empty_at(cells)));
        }
        r
    }
}

} // verus!
