//! The game-record tree and the instructions its nodes yield.
//!
//! The tree is an arena: `nodes[0]` is the root and children are referenced
//! by arena index, every child's index strictly greater than its parent's.
//! An external parser builds the arena; this module only consumes it.

use vstd::prelude::*;
use crate::model::{GoColor, PointSt, Instruction, GoError};
use crate::codec::{decode_point_spec, str_to_position};

verus! {

/// The board-size directive of a root node: a single integer for a square
/// board, or an explicit width/height pair.
#[derive(Clone, Copy, Debug, PartialEq, Eq, Structural)]
pub enum SizeDirective {
    Square(usize),
    Rect(usize, usize),
}

/// One node of the record tree. Coordinate strings are kept raw, exactly as
/// the parser delivered them; decoding happens during instruction
/// extraction so that bad coordinates surface as errors there.
#[derive(Debug)]
pub struct GameNode {
    /// Arena indices of the node's children, in record order.
    pub children: Vec<usize>,
    /// Setup points to occupy with White stones, in the list's given order.
    pub add_white: Vec<String>,
    /// Setup points to occupy with Black stones.
    pub add_black: Vec<String>,
    /// Setup points to clear.
    pub add_empty: Vec<String>,
    /// An explicit next-player directive, if the node carries one.
    pub next_player: Option<GoColor>,
    /// A played White stone, if the node carries one.
    pub white_move: Option<String>,
    /// A played Black stone, if the node carries one.
    pub black_move: Option<String>,
}

/// The record tree: an arena of nodes plus the root's size directive.
#[derive(Debug)]
pub struct GameTree {
    pub nodes: Vec<GameNode>,
    pub size: Option<SizeDirective>,
}

impl GameTree {
    /// Structural well-formedness: the arena is non-empty and every child
    /// reference points forward, which rules out cycles and dangling
    /// references.
    pub open spec fn wf(self) -> bool {
        &&& self.nodes@.len() > 0
        &&& forall|i: int, j: int|
            0 <= i < self.nodes@.len() && 0 <= j < self.nodes@[i].children@.len()
                ==> i < #[trigger] self.nodes@[i].children@[j] as int
                    && (self.nodes@[i].children@[j] as int) < self.nodes@.len()
    }

    /// Runtime check of `wf`, for callers that receive an arena from the
    /// unverified parser.
    pub fn check_wf(&self) -> (b: bool)
        ensures
            b == self.wf(),
    {
        if self.nodes.len() == 0 {
            return false;
        }
        let n = self.nodes.len();
        let mut i: usize = 0;
        while i < n
            invariant
                n == self.nodes@.len(),
                i <= n,
                forall|i2: int, j2: int|
                    0 <= i2 < i && 0 <= j2 < self.nodes@[i2].children@.len()
                        ==> i2 < #[trigger] self.nodes@[i2].children@[j2] as int
                            && (self.nodes@[i2].children@[j2] as int) < n,
            decreases n - i,
        {
            let node = &self.nodes[i];
            let m = node.children.len();
            let mut j: usize = 0;
            while j < m
                invariant
                    n == self.nodes@.len(),
                    i < n,
                    m == self.nodes@[i as int].children@.len(),
                    node == self.nodes@[i as int],
                    j <= m,
                    forall|j2: int|
                        0 <= j2 < j
                            ==> i < #[trigger] self.nodes@[i as int].children@[j2] as int
                                && (self.nodes@[i as int].children@[j2] as int) < n,
                decreases m - j,
            {
                let c = node.children[j];
                if c <= i || c >= n {
                    return false;
                }
                j = j + 1;
            }
            i = i + 1;
        }
        true
    }
}

/// The node a path addresses, walking child indices from node `from`:
/// `Some` arena index, or `None` where an index has no matching child.
pub open spec fn resolve_spec(t: GameTree, from: int, path: Seq<usize>) -> Option<int>
    decreases path.len(),
{
    if path.len() == 0 {
        Some(from)
    } else {
        let k = path[0] as int;
        if k < t.nodes@[from].children@.len() {
            resolve_spec(t, t.nodes@[from].children@[k] as int, path.drop_first())
        } else {
            None
        }
    }
}

/// Walks the tree from the root along `path` and returns the arena index of
/// the addressed node, or `None` at the first path element that has no
/// corresponding child. Never panics; invalid paths are only reported.
pub fn traverse(t: &GameTree, path: &Vec<usize>) -> (r: Option<usize>)
    requires
        t.wf(),
    ensures
        match r {
            Some(n) => resolve_spec(*t, 0, path@) == Some(n as int) && n < t.nodes@.len(),
            None => resolve_spec(*t, 0, path@) is None,
        },
{
    let mut cur: usize = 0;
    let mut i: usize = 0;
    proof {
        assert(path@.skip(0) =~= path@);
    }
    while i < path.len()
        invariant
            t.wf(),
            i <= path@.len(),
            cur < t.nodes@.len(),
            resolve_spec(*t, 0, path@) == resolve_spec(*t, cur as int, path@.skip(i as int)),
        decreases path@.len() - i,
    {
        proof {
            assert(path@.skip(i as int).len() > 0);
            assert(path@.skip(i as int)[0] == path@[i as int]);
            assert(path@.skip(i as int).drop_first() =~= path@.skip(i as int + 1));
        }
        let k = path[i];
        let node = &t.nodes[cur];
        if k < node.children.len() {
            cur = node.children[k];
        } else {
            return None;
        }
        i = i + 1;
    }
    proof {
        assert(path@.skip(path@.len() as int) =~= Seq::<usize>::empty());
    }
    Some(cur)
}

/// Lifts a vector result to its sequence view, so contracts can speak of
/// instruction sequences.
pub open spec fn res_seq(r: Result<Vec<Instruction>, GoError>) -> Result<Seq<Instruction>, GoError> {
    match r {
        Ok(v) => Ok(v@),
        Err(e) => Err(e),
    }
}

/// Concatenates two instruction-sequence results; the first error wins.
pub open spec fn chain(
    a: Result<Seq<Instruction>, GoError>,
    b: Result<Seq<Instruction>, GoError>,
) -> Result<Seq<Instruction>, GoError> {
    match a {
        Err(e) => Err(e),
        Ok(x) => match b {
            Err(e) => Err(e),
            Ok(y) => Ok(x + y),
        },
    }
}

/// The setup instructions one coordinate list yields, in the list's given
/// order; the first undecodable coordinate's error wins.
pub open spec fn setup_instrs_spec(coords: Seq<String>, st: PointSt) -> Result<
    Seq<Instruction>,
    GoError,
>
    decreases coords.len(),
{
    if coords.len() == 0 {
        Ok(Seq::<Instruction>::empty())
    } else {
        match decode_point_spec(coords[0]@) {
            Err(e) => Err(e),
            Ok(p) => match setup_instrs_spec(coords.drop_first(), st) {
                Err(e) => Err(e),
                Ok(rest) => Ok(seq![Instruction::Setup(p, st)] + rest),
            },
        }
    }
}

/// The move instruction an optional move property yields.
pub open spec fn move_instr_spec(m: Option<String>, c: GoColor) -> Result<
    Seq<Instruction>,
    GoError,
> {
    match m {
        None => Ok(Seq::<Instruction>::empty()),
        Some(s) => match decode_point_spec(s@) {
            Err(e) => Err(e),
            Ok(p) => Ok(seq![Instruction::Move(p, c)]),
        },
    }
}

/// The next-player instruction an optional directive yields.
pub open spec fn next_player_instrs_spec(p: Option<GoColor>) -> Seq<Instruction> {
    match p {
        None => Seq::<Instruction>::empty(),
        Some(c) => seq![Instruction::NextPlayer(c)],
    }
}

/// The full instruction sequence of one node, in the fixed per-node order:
/// add-white setups, add-black setups, clear setups, next-player directive,
/// white move, black move.
pub open spec fn node_instrs_spec(n: GameNode) -> Result<Seq<Instruction>, GoError> {
    chain(
        chain(
            chain(
                chain(
                    chain(
                        setup_instrs_spec(n.add_white@, PointSt::White),
                        setup_instrs_spec(n.add_black@, PointSt::Black),
                    ),
                    setup_instrs_spec(n.add_empty@, PointSt::Free),
                ),
                Ok(next_player_instrs_spec(n.next_player)),
            ),
            move_instr_spec(n.white_move, GoColor::White),
        ),
        move_instr_spec(n.black_move, GoColor::Black),
    )
}

/// The concatenated instructions of every node from `from` down along
/// `path`, ancestors first; a node's own decoding error takes precedence
/// over a missing child further down.
pub open spec fn collect_spec(t: GameTree, from: int, path: Seq<usize>) -> Result<
    Seq<Instruction>,
    GoError,
>
    decreases path.len(),
{
    match node_instrs_spec(t.nodes@[from]) {
        Err(e) => Err(e),
        Ok(mine) => {
            if path.len() == 0 {
                Ok(mine)
            } else {
                let k = path[0] as int;
                if k < t.nodes@[from].children@.len() {
                    match collect_spec(t, t.nodes@[from].children@[k] as int, path.drop_first()) {
                        Err(e) => Err(e),
                        Ok(rest) => Ok(mine + rest),
                    }
                } else {
                    Err(GoError::PathNotFound)
                }
            }
        },
    }
}

/// Decodes one setup list into instructions.
fn setups_vec(coords: &Vec<String>, st: PointSt) -> (r: Result<Vec<Instruction>, GoError>)
    ensures
        res_seq(r) == setup_instrs_spec(coords@, st),
{
    let mut out: Vec<Instruction> = Vec::new();
    let mut i: usize = 0;
    proof {
        assert(coords@.skip(0) =~= coords@);
    }
    while i < coords.len()
        invariant
            i <= coords@.len(),
            setup_instrs_spec(coords@, st) == (match setup_instrs_spec(coords@.skip(i as int), st) {
                Ok(rest) => Ok::<Seq<Instruction>, GoError>(out@ + rest),
                Err(e) => Err::<Seq<Instruction>, GoError>(e),
            }),
        decreases coords@.len() - i,
    {
        proof {
            assert(coords@.skip(i as int).len() > 0);
            assert(coords@.skip(i as int)[0] == coords@[i as int]);
            assert(coords@.skip(i as int).drop_first() =~= coords@.skip(i as int + 1));
        }
        let p = match str_to_position(coords[i].as_str()) {
            Ok(p) => p,
            Err(e) => {
                return Err(e);
            },
        };
        let ghost old_out = out@;
        out.push(Instruction::Setup(p, st));
        proof {
            if setup_instrs_spec(coords@.skip(i as int + 1), st) is Ok {
                let rest = setup_instrs_spec(coords@.skip(i as int + 1), st)->Ok_0;
                assert(old_out + (seq![Instruction::Setup(p, st)] + rest) =~= out@ + rest);
            }
        }
        i = i + 1;
    }
    proof {
        assert(coords@.skip(coords@.len() as int) =~= Seq::<String>::empty());
        assert(out@ + Seq::<Instruction>::empty() =~= out@);
    }
    Ok(out)
}

/// Decodes an optional move property into its instruction.
fn move_vec(m: &Option<String>, c: GoColor) -> (r: Result<Vec<Instruction>, GoError>)
    ensures
        res_seq(r) == move_instr_spec(*m, c),
{
    match m {
        None => Ok(Vec::new()),
        Some(s) => {
            let p = match str_to_position(s.as_str()) {
                Ok(p) => p,
                Err(e) => {
                    return Err(e);
                },
            };
            let mut out: Vec<Instruction> = Vec::new();
            out.push(Instruction::Move(p, c));
            Ok(out)
        },
    }
}

/// Converts one node's raw properties into its normalized instruction
/// sequence, in the fixed per-node order; fails at the first coordinate
/// that does not decode.
pub fn node_instructions(n: &GameNode) -> (r: Result<Vec<Instruction>, GoError>)
    ensures
        res_seq(r) == node_instrs_spec(*n),
{
    let mut out = match setups_vec(&n.add_white, PointSt::White) {
        Ok(v) => v,
        Err(e) => {
            return Err(e);
        },
    };
    let mut v2 = match setups_vec(&n.add_black, PointSt::Black) {
        Ok(v) => v,
        Err(e) => {
            return Err(e);
        },
    };
    out.append(&mut v2);
    let mut v3 = match setups_vec(&n.add_empty, PointSt::Free) {
        Ok(v) => v,
        Err(e) => {
            return Err(e);
        },
    };
    out.append(&mut v3);
    match &n.next_player {
        None => {
            proof {
                assert(out@ + next_player_instrs_spec(n.next_player) =~= out@);
            }
        },
        Some(c) => {
            let ghost prev = out@;
            out.push(Instruction::NextPlayer(*c));
            proof {
                assert(prev + next_player_instrs_spec(n.next_player) =~= out@);
            }
        },
    }
    let mut v4 = match move_vec(&n.white_move, GoColor::White) {
        Ok(v) => v,
        Err(e) => {
            return Err(e);
        },
    };
    out.append(&mut v4);
    let mut v5 = match move_vec(&n.black_move, GoColor::Black) {
        Ok(v) => v,
        Err(e) => {
            return Err(e);
        },
    };
    out.append(&mut v5);
    Ok(out)
}

/// Collects the instructions of every node from the root down to the node
/// `path` addresses, in root-to-leaf order, each node's own instructions in
/// the fixed per-node order. Ancestors' instructions always precede a
/// node's own.
pub fn collect_moves(t: &GameTree, path: &Vec<usize>) -> (r: Result<Vec<Instruction>, GoError>)
    requires
        t.wf(),
    ensures
        res_seq(r) == collect_spec(*t, 0, path@),
{
    let mut out: Vec<Instruction> = Vec::new();
    let mut cur: usize = 0;
    let mut i: usize = 0;
    proof {
        assert(path@.skip(0) =~= path@);
    }
    loop
        invariant
            t.wf(),
            i <= path@.len(),
            cur < t.nodes@.len(),
            collect_spec(*t, 0, path@) == (match collect_spec(
                *t,
                cur as int,
                path@.skip(i as int),
            ) {
                Ok(rest) => Ok::<Seq<Instruction>, GoError>(out@ + rest),
                Err(e) => Err::<Seq<Instruction>, GoError>(e),
            }),
        decreases path@.len() - i,
    {
        let mut mine = match node_instructions(&t.nodes[cur]) {
            Ok(v) => v,
            Err(e) => {
                return Err(e);
            },
        };
        let ghost old_out = out@;
        let ghost mine_seq = mine@;
        out.append(&mut mine);
        if i == path.len() {
            proof {
                assert(path@.skip(i as int) =~= Seq::<usize>::empty());
                assert(old_out + mine_seq =~= out@);
            }
            return Ok(out);
        }
        proof {
            assert(path@.skip(i as int).len() > 0);
            assert(path@.skip(i as int)[0] == path@[i as int]);
            assert(path@.skip(i as int).drop_first() =~= path@.skip(i as int + 1));
        }
        let k = path[i];
        let node = &t.nodes[cur];
        if k >= node.children.len() {
            return Err(GoError::PathNotFound);
        }
        proof {
            if collect_spec(*t, t.nodes@[cur as int].children@[k as int] as int, path@.skip(
                i as int + 1,
            )) is Ok {
                let rest = collect_spec(
                    *t,
                    t.nodes@[cur as int].children@[k as int] as int,
                    path@.skip(i as int + 1),
                )->Ok_0;
                assert(old_out + (mine_seq + rest) =~= out@ + rest);
            }
        }
        cur = node.children[k];
        i = i + 1;
    }
}

} // verus!
