//! Board reconstruction: folds the instruction sequence collected along a
//! path, root-to-leaf, into a flat grid of cells plus the color to move
//! next. Cells are addressed row-major: `index = y * width + x`.

use vstd::prelude::*;
use vstd::pervasive::VecAdditionalExecFns;
use crate::model::{GoColor, Cell, Instruction, GoError, opposite_spec, opposite, cell_of_spec, cell_of};
use crate::record::{GameTree, resolve_spec, collect_spec, traverse, collect_moves};
use crate::nav::Model;

verus! {

/// The mathematical value of a board: the grid, its dimensions and the
/// color to move next.
#[verifier::ext_equal]
pub struct BoardView {
    pub cells: Seq<Cell>,
    pub width: nat,
    pub height: nat,
    pub next_player: GoColor,
}

impl BoardView {
    /// The grid has exactly one cell per position.
    pub open spec fn wf(self) -> bool {
        self.cells.len() == self.width * self.height
    }
}

/// The reconstructed board: the cell grid plus the color to move next.
#[derive(Debug)]
pub struct Board {
    pub cells: Vec<Cell>,
    pub width: usize,
    pub height: usize,
    pub next_player: GoColor,
}

impl View for Board {
    type V = BoardView;

    open spec fn view(&self) -> BoardView {
        BoardView {
            cells: self.cells@,
            width: self.width as nat,
            height: self.height as nat,
            next_player: self.next_player,
        }
    }
}

impl Board {
    /// Positive dimensions and exactly one cell per position.
    pub open spec fn wf(self) -> bool {
        1 <= self.width && 1 <= self.height && self.cells@.len() == self.width * self.height
    }
}

/// The all-empty starting board, White to move until an instruction says
/// otherwise.
pub open spec fn empty_board_spec(w: nat, h: nat) -> BoardView {
    BoardView {
        cells: Seq::new(w * h, |i: int| Cell::Empty),
        width: w,
        height: h,
        next_player: GoColor::White,
    }
}

/// What one instruction does to a board: setups write their cell state,
/// moves place a stone and hand the turn to the opponent, next-player
/// directives only change the turn. A position outside the grid is the one
/// failure.
pub open spec fn apply_instr_spec(b: BoardView, instr: Instruction) -> Result<
    BoardView,
    GoError,
> {
    match instr {
        Instruction::Setup((x, y), st) => {
            if (x as int) < b.width && (y as int) < b.height {
                Ok(
                    BoardView {
                        cells: b.cells.update(y as int * b.width as int + x as int, cell_of_spec(st)),
                        width: b.width,
                        height: b.height,
                        next_player: b.next_player,
                    },
                )
            } else {
                Err(GoError::CoordinateOutOfBounds)
            }
        },
        Instruction::Move((x, y), c) => {
            if (x as int) < b.width && (y as int) < b.height {
                Ok(
                    BoardView {
                        cells: b.cells.update(
                            y as int * b.width as int + x as int,
                            Cell::Occupied(c),
                        ),
                        width: b.width,
                        height: b.height,
                        next_player: opposite_spec(c),
                    },
                )
            } else {
                Err(GoError::CoordinateOutOfBounds)
            }
        },
        Instruction::NextPlayer(c) => Ok(
            BoardView { cells: b.cells, width: b.width, height: b.height, next_player: c },
        ),
    }
}

/// Folds an instruction sequence over a board, left to right; the first
/// out-of-bounds position's error wins.
pub open spec fn fold_instrs_spec(b: BoardView, instrs: Seq<Instruction>) -> Result<
    BoardView,
    GoError,
>
    decreases instrs.len(),
{
    if instrs.len() == 0 {
        Ok(b)
    } else {
        match apply_instr_spec(b, instrs[0]) {
            Err(e) => Err(e),
            Ok(b2) => fold_instrs_spec(b2, instrs.drop_first()),
        }
    }
}

/// What reconstructing a path yields: `PathNotFound` where the path does
/// not resolve, the first extraction error otherwise, else the fold of the
/// root-to-leaf instruction sequence over the all-empty board.
pub open spec fn reconstruct_spec(t: GameTree, w: nat, h: nat, path: Seq<usize>) -> Result<
    BoardView,
    GoError,
> {
    if resolve_spec(t, 0, path) is None {
        Err(GoError::PathNotFound)
    } else {
        match collect_spec(t, 0, path) {
            Err(e) => Err(e),
            Ok(instrs) => fold_instrs_spec(empty_board_spec(w, h), instrs),
        }
    }
}

/// Applies one instruction to the board in place; an out-of-bounds
/// position is reported and leaves the board untouched.
pub fn apply_instruction(board: &mut Board, instr: Instruction) -> (r: Result<(), GoError>)
    requires
        old(board).wf(),
    ensures
        final(board).wf(),
        match r {
            Ok(()) => apply_instr_spec(old(board)@, instr) == Ok::<BoardView, GoError>(
                final(board)@,
            ),
            Err(e) => apply_instr_spec(old(board)@, instr) == Err::<BoardView, GoError>(e)
                && final(board)@ == old(board)@,
        },
{
    match instr {
        Instruction::Setup((x, y), st) => {
            if x < board.width && y < board.height {
                let n = board.cells.len();
                proof {
                    assert((y as int * board.width as int + x as int) < (board.width as int
                        * board.height as int)) by (nonlinear_arith)
                        requires
                            (x as int) < board.width as int,
                            (y as int) < board.height as int,
                            0 <= x as int,
                            0 <= y as int,
                    ;
                    assert((y as int * board.width as int + x as int) < (n as int));
                }
                let idx = y * board.width + x;
                board.cells.set(idx, cell_of(st));
                proof {
                    assert(apply_instr_spec(old(board)@, instr)->Ok_0 =~= board@);
                }
                Ok(())
            } else {
                Err(GoError::CoordinateOutOfBounds)
            }
        },
        Instruction::Move((x, y), c) => {
            if x < board.width && y < board.height {
                let n = board.cells.len();
                proof {
                    assert((y as int * board.width as int + x as int) < (board.width as int
                        * board.height as int)) by (nonlinear_arith)
                        requires
                            (x as int) < board.width as int,
                            (y as int) < board.height as int,
                            0 <= x as int,
                            0 <= y as int,
                    ;
                    assert((y as int * board.width as int + x as int) < (n as int));
                }
                let idx = y * board.width + x;
                board.cells.set(idx, Cell::Occupied(c));
                board.next_player = opposite(c);
                proof {
                    assert(apply_instr_spec(old(board)@, instr)->Ok_0 =~= board@);
                }
                Ok(())
            } else {
                Err(GoError::CoordinateOutOfBounds)
            }
        },
        Instruction::NextPlayer(c) => {
            board.next_player = c;
            proof {
                assert(apply_instr_spec(old(board)@, instr)->Ok_0 =~= board@);
            }
            Ok(())
        },
    }
}

/// Reconstructs the board for the node the session's path addresses:
/// resolves the path, collects every instruction from the root down in
/// root-to-leaf order, and folds the sequence over an all-empty grid.
/// Never falls back to another node; every failure is reported.
pub fn reconstruct(t: &GameTree, game: &Model) -> (r: Result<Board, GoError>)
    requires
        t.wf(),
        game.wf(),
    ensures
        match r {
            Ok(b) => b.wf() && b.width == game.width && b.height == game.height
                && reconstruct_spec(*t, game.width as nat, game.height as nat, game.path@)
                == Ok::<BoardView, GoError>(b@),
            Err(e) => reconstruct_spec(*t, game.width as nat, game.height as nat, game.path@)
                == Err::<BoardView, GoError>(e),
        },
{
    if traverse(t, &game.path).is_none() {
        return Err(GoError::PathNotFound);
    }
    let instrs = match collect_moves(t, &game.path) {
        Ok(v) => v,
        Err(e) => {
            return Err(e);
        },
    };
    let n = game.width * game.height;
    let mut cells: Vec<Cell> = Vec::new();
    while cells.len() < n
        invariant
            cells@.len() <= n,
            forall|k: int| 0 <= k < cells@.len() ==> cells@[k] == Cell::Empty,
        decreases n - cells@.len(),
    {
        cells.push(Cell::Empty);
    }
    let mut board = Board {
        cells,
        width: game.width,
        height: game.height,
        next_player: GoColor::White,
    };
    proof {
        assert(board@.cells =~= empty_board_spec(game.width as nat, game.height as nat).cells);
        assert(board@ =~= empty_board_spec(game.width as nat, game.height as nat));
        assert(instrs@.skip(0) =~= instrs@);
    }
    let mut i: usize = 0;
    while i < instrs.len()
        invariant
            i <= instrs@.len(),
            board.wf(),
            board.width == game.width,
            board.height == game.height,
            resolve_spec(*t, 0, game.path@) is Some,
            collect_spec(*t, 0, game.path@) == Ok::<Seq<Instruction>, GoError>(instrs@),
            fold_instrs_spec(
                empty_board_spec(game.width as nat, game.height as nat),
                instrs@,
            ) == fold_instrs_spec(board@, instrs@.skip(i as int)),
        decreases instrs@.len() - i,
    {
        proof {
            assert(instrs@.skip(i as int).len() > 0);
            assert(instrs@.skip(i as int)[0] == instrs@[i as int]);
            assert(instrs@.skip(i as int).drop_first() =~= instrs@.skip(i as int + 1));
        }
        match apply_instruction(&mut board, instrs[i]) {
            Ok(()) => {},
            Err(e) => {
                return Err(e);
            },
        }
        i = i + 1;
    }
    proof {
        assert(instrs@.skip(instrs@.len() as int) =~= Seq::<Instruction>::empty());
    }
    Ok(board)
}

/// Reconstruction is pure: the board is a function of the tree and the
/// path value alone, so two navigations that arrive at the same path — by
/// whatever history of descents, ascents and sibling moves — yield the
/// same board.
pub proof fn lemma_reconstruct_deterministic(
    t: GameTree,
    w: nat,
    h: nat,
    p1: Seq<usize>,
    p2: Seq<usize>,
)
    requires
        p1 == p2,
    ensures
        reconstruct_spec(t, w, h, p1) == reconstruct_spec(t, w, h, p2),
{
}

/// Whether an instruction writes the grid cell at `pos` on a board of
/// width `w`.
pub open spec fn writes_pos(instr: Instruction, w: int, pos: int) -> bool {
    match instr {
        Instruction::Move((x, y), _) => y as int * w + x as int == pos,
        Instruction::Setup((x, y), _) => y as int * w + x as int == pos,
        Instruction::NextPlayer(_) => false,
    }
}

/// The cell state an instruction writes; meaningful only where
/// `writes_pos` holds.
pub open spec fn written_cell(instr: Instruction) -> Cell {
    match instr {
        Instruction::Move(_, c) => Cell::Occupied(c),
        Instruction::Setup(_, st) => cell_of_spec(st),
        Instruction::NextPlayer(_) => Cell::Empty,
    }
}

/// The index of the last instruction in the sequence that writes `pos`, or
/// -1 if none does.
pub open spec fn last_writer(instrs: Seq<Instruction>, w: int, pos: int) -> int
    decreases instrs.len(),
{
    if instrs.len() == 0 {
        -1
    } else if writes_pos(instrs.last(), w, pos) {
        instrs.len() - 1
    } else {
        last_writer(instrs.drop_last(), w, pos)
    }
}

/// Folding a sequence extended by one instruction applies that instruction
/// to the fold of the prefix.
pub proof fn lemma_fold_snoc(b: BoardView, instrs: Seq<Instruction>, instr: Instruction)
    ensures
        fold_instrs_spec(b, instrs.push(instr)) == (match fold_instrs_spec(b, instrs) {
            Err(e) => Err::<BoardView, GoError>(e),
            Ok(b2) => apply_instr_spec(b2, instr),
        }),
    decreases instrs.len(),
{
    if instrs.len() == 0 {
        assert(instrs.push(instr)[0] == instr);
        assert(instrs.push(instr).drop_first() =~= Seq::<Instruction>::empty());
        assert(fold_instrs_spec(b, instrs) == Ok::<BoardView, GoError>(b));
        match apply_instr_spec(b, instr) {
            Ok(b2) => {
                assert(fold_instrs_spec(b2, instrs.push(instr).drop_first())
                    == Ok::<BoardView, GoError>(b2));
            },
            Err(_) => {},
        }
    } else {
        assert(instrs.push(instr)[0] == instrs[0]);
        assert(instrs.push(instr).drop_first() =~= instrs.drop_first().push(instr));
        match apply_instr_spec(b, instrs[0]) {
            Ok(b2) => {
                lemma_fold_snoc(b2, instrs.drop_first(), instr);
                assert(fold_instrs_spec(b, instrs.push(instr)) == fold_instrs_spec(
                    b2,
                    instrs.drop_first().push(instr),
                ));
                assert(fold_instrs_spec(b, instrs) == fold_instrs_spec(b2, instrs.drop_first()));
            },
            Err(_) => {},
        }
    }
}

/// What one successful application does to the cell at `pos`: writes its
/// cell state where the instruction addresses `pos`, leaves it untouched
/// otherwise; the board's shape never changes.
pub proof fn lemma_apply_cell(b: BoardView, instr: Instruction, pos: int)
    requires
        b.wf(),
        apply_instr_spec(b, instr) is Ok,
        0 <= pos < b.cells.len(),
    ensures
        apply_instr_spec(b, instr)->Ok_0.width == b.width,
        apply_instr_spec(b, instr)->Ok_0.height == b.height,
        apply_instr_spec(b, instr)->Ok_0.cells.len() == b.cells.len(),
        apply_instr_spec(b, instr)->Ok_0.wf(),
        writes_pos(instr, b.width as int, pos) ==> apply_instr_spec(b, instr)->Ok_0.cells[pos]
            == written_cell(instr),
        !writes_pos(instr, b.width as int, pos) ==> apply_instr_spec(b, instr)->Ok_0.cells[pos]
            == b.cells[pos],
{
    match instr {
        Instruction::Setup((x, y), st) => {
            let idx = y as int * b.width as int + x as int;
            assert((x as int) < b.width as int && (y as int) < b.height as int);
            assert(0 <= y as int * b.width as int + x as int && (y as int * b.width as int
                + x as int) < (b.width as int * b.height as int)) by (nonlinear_arith)
                requires
                    (x as int) < b.width as int,
                    (y as int) < b.height as int,
                    0 <= x as int,
                    0 <= y as int,
            ;
            assert(0 <= idx && idx < (b.width as int * b.height as int));
            assert(apply_instr_spec(b, instr)->Ok_0.cells == b.cells.update(
                idx,
                cell_of_spec(st),
            ));
        },
        Instruction::Move((x, y), c) => {
            let idx = y as int * b.width as int + x as int;
            assert((x as int) < b.width as int && (y as int) < b.height as int);
            assert(0 <= y as int * b.width as int + x as int && (y as int * b.width as int
                + x as int) < (b.width as int * b.height as int)) by (nonlinear_arith)
                requires
                    (x as int) < b.width as int,
                    (y as int) < b.height as int,
                    0 <= x as int,
                    0 <= y as int,
            ;
            assert(0 <= idx && idx < (b.width as int * b.height as int));
            assert(apply_instr_spec(b, instr)->Ok_0.cells == b.cells.update(
                idx,
                Cell::Occupied(c),
            ));
        },
        Instruction::NextPlayer(_) => {},
    }
}

/// A successful fold over a well-formed board never changes the board's
/// shape.
pub proof fn lemma_fold_preserves_shape(b: BoardView, instrs: Seq<Instruction>)
    requires
        b.wf(),
        fold_instrs_spec(b, instrs) is Ok,
    ensures
        fold_instrs_spec(b, instrs)->Ok_0.width == b.width,
        fold_instrs_spec(b, instrs)->Ok_0.height == b.height,
        fold_instrs_spec(b, instrs)->Ok_0.cells.len() == b.cells.len(),
        fold_instrs_spec(b, instrs)->Ok_0.wf(),
    decreases instrs.len(),
{
    if instrs.len() == 0 {
    } else {
        match apply_instr_spec(b, instrs[0]) {
            Ok(b2) => {
                if b.cells.len() > 0 {
                    lemma_apply_cell(b, instrs[0], 0);
                } else {
                    match instrs[0] {
                        Instruction::Setup((x, y), _) => {
                            assert((x as int) < b.width as int && (y as int) < b.height as int);
                            assert(b.width as int * b.height as int > 0) by (nonlinear_arith)
                                requires
                                    (x as int) < b.width as int,
                                    (y as int) < b.height as int,
                                    0 <= x as int,
                                    0 <= y as int,
                            ;
                        },
                        Instruction::Move((x, y), _) => {
                            assert((x as int) < b.width as int && (y as int) < b.height as int);
                            assert(b.width as int * b.height as int > 0) by (nonlinear_arith)
                                requires
                                    (x as int) < b.width as int,
                                    (y as int) < b.height as int,
                                    0 <= x as int,
                                    0 <= y as int,
                            ;
                        },
                        Instruction::NextPlayer(_) => {},
                    }
                }
                assert(fold_instrs_spec(b, instrs) == fold_instrs_spec(b2, instrs.drop_first()));
                lemma_fold_preserves_shape(b2, instrs.drop_first());
            },
            Err(_) => {},
        }
    }
}

/// `last_writer` is either -1 or a valid index of an instruction that
/// writes `pos`.
pub proof fn lemma_last_writer_bounds(instrs: Seq<Instruction>, w: int, pos: int)
    ensures
        -1 <= last_writer(instrs, w, pos) < instrs.len(),
        last_writer(instrs, w, pos) >= 0 ==> writes_pos(
            instrs[last_writer(instrs, w, pos)],
            w,
            pos,
        ),
    decreases instrs.len(),
{
    if instrs.len() == 0 {
    } else if writes_pos(instrs.last(), w, pos) {
    } else {
        lemma_last_writer_bounds(instrs.drop_last(), w, pos);
        let lw = last_writer(instrs.drop_last(), w, pos);
        if lw >= 0 {
            assert(instrs[lw] == instrs.drop_last()[lw]);
        }
    }
}

/// Last-writer-wins: after a successful fold over a well-formed board,
/// each cell holds exactly what the last instruction writing its position
/// wrote — so a later clear erases an ancestor's stone, and a still later
/// instruction at the same position overwrites the clear in turn — and a
/// cell no instruction writes keeps its initial state.
pub proof fn lemma_last_writer_wins(b: BoardView, instrs: Seq<Instruction>, pos: int)
    requires
        b.wf(),
        fold_instrs_spec(b, instrs) is Ok,
        0 <= pos < b.cells.len(),
    ensures
        last_writer(instrs, b.width as int, pos) >= 0 ==> fold_instrs_spec(
            b,
            instrs,
        )->Ok_0.cells[pos] == written_cell(
            instrs[last_writer(instrs, b.width as int, pos)],
        ),
        last_writer(instrs, b.width as int, pos) == -1 ==> fold_instrs_spec(
            b,
            instrs,
        )->Ok_0.cells[pos] == b.cells[pos],
    decreases instrs.len(),
{
    if instrs.len() == 0 {
    } else {
        let w = b.width as int;
        let front = instrs.drop_last();
        let last = instrs.last();
        assert(front.push(last) =~= instrs);
        lemma_fold_snoc(b, front, last);
        assert(fold_instrs_spec(b, instrs) == fold_instrs_spec(b, front.push(last)));
        match fold_instrs_spec(b, front) {
            Err(_) => {
                assert(false);
            },
            Ok(fb) => {
                lemma_fold_preserves_shape(b, front);
                lemma_last_writer_wins(b, front, pos);
                assert(fold_instrs_spec(b, instrs) == apply_instr_spec(fb, last));
                assert(fb.width == b.width);
                lemma_apply_cell(fb, last, pos);
                if writes_pos(last, w, pos) {
                    assert(last_writer(instrs, w, pos) == instrs.len() - 1);
                } else {
                    assert(last_writer(instrs, w, pos) == last_writer(front, w, pos));
                    lemma_last_writer_bounds(front, w, pos);
                    if last_writer(front, w, pos) >= 0 {
                        assert(instrs[last_writer(front, w, pos)] == front[last_writer(
                            front,
                            w,
                            pos,
                        )]);
                    }
                }
            },
        }
    }
}

/// Last-writer-wins at the reconstruction level: in a successfully
/// reconstructed board, a cell holds what the last instruction of the
/// root-to-leaf sequence writing its position wrote, and stays `Empty`
/// where no instruction ever writes it.
pub proof fn lemma_reconstruct_last_writer_wins(
    t: GameTree,
    w: nat,
    h: nat,
    path: Seq<usize>,
    pos: int,
)
    requires
        reconstruct_spec(t, w, h, path) is Ok,
        0 <= pos < w * h,
    ensures
        ({
            let instrs = collect_spec(t, 0, path)->Ok_0;
            let lw = last_writer(instrs, w as int, pos);
            &&& lw >= 0 ==> reconstruct_spec(t, w, h, path)->Ok_0.cells[pos] == written_cell(
                instrs[lw],
            )
            &&& lw == -1 ==> reconstruct_spec(t, w, h, path)->Ok_0.cells[pos] == Cell::Empty
        }),
{
    let instrs = collect_spec(t, 0, path)->Ok_0;
    lemma_last_writer_wins(empty_board_spec(w, h), instrs, pos);
}

} // verus!
