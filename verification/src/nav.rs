//! The navigation session: the current path into the record tree and the
//! operations that move it, each one validated against the tree before the
//! path is treated as current.

use vstd::prelude::*;
use crate::model::GoError;
use crate::record::{GameTree, SizeDirective, resolve_spec, traverse};

verus! {

/// The active session: the current path and the board dimensions derived
/// once from the root's size directive.
#[derive(Debug)]
pub struct Model {
    /// Child indices from the root; empty means the root itself.
    pub path: Vec<usize>,
    pub width: usize,
    pub height: usize,
}

impl Model {
    /// The dimensions are positive and the cell count fits the machine.
    pub open spec fn wf(self) -> bool {
        1 <= self.width && 1 <= self.height && self.width * self.height <= usize::MAX
    }

    /// Appends a child choice to the path, speculatively: the caller must
    /// validate the new path against the tree before treating it as
    /// current, so a dangling path never becomes the session's state.
    pub fn descend(&mut self, choice: usize)
        ensures
            final(self).width == old(self).width,
            final(self).height == old(self).height,
            final(self).path@ == old(self).path@.push(choice),
    {
        self.path.push(choice);
    }
}

/// The width a size directive declares.
pub open spec fn directive_width(d: SizeDirective) -> int {
    match d {
        SizeDirective::Square(n) => n as int,
        SizeDirective::Rect(w, _) => w as int,
    }
}

/// The height a size directive declares.
pub open spec fn directive_height(d: SizeDirective) -> int {
    match d {
        SizeDirective::Square(n) => n as int,
        SizeDirective::Rect(_, h) => h as int,
    }
}

/// A size directive is usable when it is present, both dimensions are
/// positive, and the cell count fits the machine.
pub open spec fn usable_size(s: Option<SizeDirective>) -> bool {
    match s {
        None => false,
        Some(d) => 1 <= directive_width(d) && 1 <= directive_height(d) && directive_width(d)
            * directive_height(d) <= usize::MAX,
    }
}

/// Opens a session on a record tree: derives the board dimensions from the
/// root's size directive and starts the path at the root. A missing or
/// unusable directive is the one fatal configuration error.
pub fn get_board(t: &GameTree) -> (r: Result<Model, GoError>)
    ensures
        match r {
            Ok(m) => usable_size(t.size) && m.wf() && m.width as int == directive_width(
                t.size->Some_0,
            ) && m.height as int == directive_height(t.size->Some_0) && m.path@ == Seq::<
                usize,
            >::empty(),
            Err(e) => e == GoError::MissingBoardSize && !usable_size(t.size),
        },
{
    let (w, h): (usize, usize) = match t.size {
        None => {
            return Err(GoError::MissingBoardSize);
        },
        Some(SizeDirective::Square(n)) => (n, n),
        Some(SizeDirective::Rect(w, h)) => (w, h),
    };
    if w == 0 || h == 0 {
        return Err(GoError::MissingBoardSize);
    }
    if w.checked_mul(h).is_none() {
        return Err(GoError::MissingBoardSize);
    }
    Ok(Model { path: Vec::new(), width: w, height: h })
}

/// Descends to the addressed node's first child if one exists; otherwise
/// the path is left unchanged. The dimensions never change.
pub fn next_board(t: &GameTree, game: &mut Model)
    requires
        t.wf(),
    ensures
        final(game).width == old(game).width,
        final(game).height == old(game).height,
        final(game).path@ == (if resolve_spec(*t, 0, old(game).path@.push(0usize)) is Some {
            old(game).path@.push(0usize)
        } else {
            old(game).path@
        }),
{
    game.path.push(0);
    if traverse(t, &game.path).is_none() {
        game.path.pop();
        proof {
            assert(old(game).path@.push(0usize).subrange(
                0,
                old(game).path@.push(0usize).len() - 1,
            ) =~= old(game).path@);
        }
    }
}

/// Ascends to the parent: removes the last path element, and does nothing
/// at the root. The dimensions never change.
pub fn previous_board(game: &mut Model)
    ensures
        final(game).width == old(game).width,
        final(game).height == old(game).height,
        final(game).path@ == (if old(game).path@.len() > 0 {
            old(game).path@.drop_last()
        } else {
            old(game).path@
        }),
{
    game.path.pop();
    proof {
        if old(game).path@.len() > 0 {
            assert(old(game).path@.subrange(0, old(game).path@.len() - 1) =~= old(
                game,
            ).path@.drop_last());
        }
    }
}

/// What sibling navigation towards the next branch yields: the last path
/// element reinterpreted against the parent's child count, incremented but
/// clamped to the last existing sibling; the empty path is left unchanged.
/// An unresolvable parent is the one failure.
pub open spec fn sibling_next_spec(t: GameTree, p: Seq<usize>) -> Result<Seq<usize>, GoError> {
    if p.len() == 0 {
        Ok(p)
    } else {
        match resolve_spec(t, 0, p.drop_last()) {
            None => Err(GoError::PathNotFound),
            Some(par) => {
                if p.last() as int + 1 < t.nodes@[par].children@.len() {
                    Ok(p.drop_last().push((p.last() + 1) as usize))
                } else {
                    Ok(p)
                }
            },
        }
    }
}

/// What sibling navigation towards the previous branch yields: the last
/// path element decremented but clamped at 0; the empty path is left
/// unchanged. An unresolvable parent is the one failure.
pub open spec fn sibling_prev_spec(t: GameTree, p: Seq<usize>) -> Result<Seq<usize>, GoError> {
    if p.len() == 0 {
        Ok(p)
    } else {
        match resolve_spec(t, 0, p.drop_last()) {
            None => Err(GoError::PathNotFound),
            Some(par) => {
                if p.last() > 0 {
                    Ok(p.drop_last().push((p.last() - 1) as usize))
                } else {
                    Ok(p)
                }
            },
        }
    }
}

/// Moves the path to the next sibling branch, clamped to the last existing
/// sibling; fails with `PathNotFound`, leaving the path unchanged, when the
/// parent cannot be resolved.
pub fn alt_right(t: &GameTree, game: &mut Model) -> (r: Result<(), GoError>)
    requires
        t.wf(),
    ensures
        final(game).width == old(game).width,
        final(game).height == old(game).height,
        match r {
            Ok(()) => sibling_next_spec(*t, old(game).path@) == Ok::<Seq<usize>, GoError>(
                final(game).path@,
            ),
            Err(e) => sibling_next_spec(*t, old(game).path@) == Err::<Seq<usize>, GoError>(e)
                && final(game).path@ == old(game).path@,
        },
{
    let last = match game.path.pop() {
        None => {
            return Ok(());
        },
        Some(v) => v,
    };
    proof {
        assert(old(game).path@.subrange(0, old(game).path@.len() - 1) =~= old(
            game,
        ).path@.drop_last());
        assert(old(game).path@.drop_last().push(old(game).path@.last()) =~= old(game).path@);
    }
    match traverse(t, &game.path) {
        None => {
            game.path.push(last);
            Err(GoError::PathNotFound)
        },
        Some(par) => {
            let n = t.nodes[par].children.len();
            if n > 0 && last < n - 1 {
                game.path.push(last + 1);
            } else {
                game.path.push(last);
            }
            Ok(())
        },
    }
}

/// Moves the path to the previous sibling branch, clamped at the first;
/// fails with `PathNotFound`, leaving the path unchanged, when the parent
/// cannot be resolved.
pub fn alt_left(t: &GameTree, game: &mut Model) -> (r: Result<(), GoError>)
    requires
        t.wf(),
    ensures
        final(game).width == old(game).width,
        final(game).height == old(game).height,
        match r {
            Ok(()) => sibling_prev_spec(*t, old(game).path@) == Ok::<Seq<usize>, GoError>(
                final(game).path@,
            ),
            Err(e) => sibling_prev_spec(*t, old(game).path@) == Err::<Seq<usize>, GoError>(e)
                && final(game).path@ == old(game).path@,
        },
{
    let last = match game.path.pop() {
        None => {
            return Ok(());
        },
        Some(v) => v,
    };
    proof {
        assert(old(game).path@.subrange(0, old(game).path@.len() - 1) =~= old(
            game,
        ).path@.drop_last());
        assert(old(game).path@.drop_last().push(old(game).path@.last()) =~= old(game).path@);
    }
    match traverse(t, &game.path) {
        None => {
            game.path.push(last);
            Err(GoError::PathNotFound)
        },
        Some(_) => {
            if last > 0 {
                game.path.push(last - 1);
            } else {
                game.path.push(last);
            }
            Ok(())
        },
    }
}

/// Sibling navigation towards the next branch, applied to a path whose last
/// index already names its parent's final child, leaves the path unchanged;
/// in particular a path that resolved before still resolves afterwards.
pub proof fn lemma_sibling_next_clamped(t: GameTree, p: Seq<usize>)
    requires
        p.len() > 0,
        resolve_spec(t, 0, p.drop_last()) is Some,
        p.last() as int + 1 >= t.nodes@[resolve_spec(t, 0, p.drop_last())->Some_0].children@.len(),
        resolve_spec(t, 0, p) is Some,
    ensures
        sibling_next_spec(t, p) == Ok::<Seq<usize>, GoError>(p),
        resolve_spec(t, 0, sibling_next_spec(t, p)->Ok_0) is Some,
{
}

} // verus!
