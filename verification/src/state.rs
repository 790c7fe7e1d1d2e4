//! A reference state representation: dimensions plus the list of live
//! coordinates. It implements [`GoLBuilder`] and documents what any
//! conforming representation is expected to do.

use vstd::prelude::*;

use crate::builder::GoLBuilder;

verus! {

/// A coordinate pair lifted to the specification level.
pub open spec fn cell_of(q: (usize, usize)) -> (nat, nat) {
    (q.0 as nat, q.1 as nat)
}

/// The set of coordinates that occur in `s`.
pub open spec fn cell_set(s: Seq<(usize, usize)>) -> Set<(nat, nat)> {
    Set::new(|cell: (nat, nat)| exists|k: int| 0 <= k < s.len() && cell == #[trigger] cell_of(s[k]))
}

/// Appending one coordinate adds exactly that cell to the set.
proof fn lemma_cell_set_push(s: Seq<(usize, usize)>, q: (usize, usize))
    ensures
        cell_set(s.push(q)) == cell_set(s).insert(cell_of(q)),
{
    assert forall|cell: (nat, nat)| cell_set(s).insert(cell_of(q)).contains(cell) implies cell_set(
        s.push(q),
    ).contains(cell) by {
        if cell == cell_of(q) {
            assert(cell == cell_of(s.push(q)[s.len() as int]));
        } else {
            let k = choose|k: int| 0 <= k < s.len() && cell == #[trigger] cell_of(s[k]);
            assert(cell == cell_of(s.push(q)[k]));
        }
    }
    assert forall|cell: (nat, nat)| cell_set(s.push(q)).contains(cell) implies cell_set(s).insert(
        cell_of(q),
    ).contains(cell) by {
        let k = choose|k: int| 0 <= k < s.push(q).len() && cell == #[trigger] cell_of(s.push(q)[k]);
        if k < s.len() {
            assert(cell == cell_of(s[k]));
        }
    }
    assert(cell_set(s.push(q)) =~= cell_set(s).insert(cell_of(q)));
}

/// A grid state stored as its dimensions and the coordinates of its live
/// cells, in the order they were last marked live.
#[derive(Debug, PartialEq, Eq)]
pub struct GoL {
    pub rows: usize,
    pub cols: usize,
    pub lives: Vec<(usize, usize)>,
}

impl GoLBuilder for GoL {
    open spec fn gol_rows(&self) -> nat {
        self.rows as nat
    }

    open spec fn gol_cols(&self) -> nat {
        self.cols as nat
    }

    open spec fn gol_live(&self) -> Set<(nat, nat)> {
        cell_set(self.lives@)
    }

    fn empty(rows: usize, cols: usize) -> (s: Self) {
        let s = GoL { rows, cols, lives: Vec::new() };
        proof {
            assert(cell_set(s.lives@) =~= Set::<(nat, nat)>::empty());
        }
        s
    }

    fn live(self, row: usize, col: usize) -> (s: Self) {
        let GoL { rows, cols, mut lives } = self;
        proof {
            lemma_cell_set_push(lives@, (row, col));
        }
        lives.push((row, col));
        GoL { rows, cols, lives }
    }

    fn dead(self, row: usize, col: usize) -> (s: Self) {
        let GoL { rows, cols, lives } = self;
        let ghost target = (row as nat, col as nat);
        let mut kept: Vec<(usize, usize)> = Vec::new();
        let mut i: usize = 0;
        while i < lives.len()
            invariant
                i <= lives@.len(),
                target == (row as nat, col as nat),
                cell_set(kept@) == cell_set(lives@.take(i as int)).remove(target),
            decreases lives@.len() - i,
        {
            let q = lives[i];
            let ghost taken = lives@.take(i as int);
            proof {
                assert(lives@.take(i as int + 1) =~= taken.push(q));
                lemma_cell_set_push(taken, q);
            }
            if !(q.0 == row && q.1 == col) {
                let ghost pre = kept@;
                kept.push(q);
                proof {
                    lemma_cell_set_push(pre, q);
                    assert(cell_of(q) != target);
                    assert(cell_set(taken.push(q)).remove(target) =~= cell_set(taken).remove(
                        target,
                    ).insert(cell_of(q)));
                }
            } else {
                proof {
                    assert(cell_of(q) == target);
                    assert(cell_set(taken.push(q)).remove(target) =~= cell_set(taken).remove(
                        target,
                    ));
                }
            }
            i = i + 1;
        }
        proof {
            assert(lives@.take(lives@.len() as int) =~= lives@);
        }
        GoL { rows, cols, lives: kept }
    }
}

impl GoL {
    /// Whether the cell at (`row`, `col`) is currently live.
    pub fn is_live(&self, row: usize, col: usize) -> (b: bool)
        ensures
            b == self.gol_live().contains((row as nat, col as nat)),
    {
        let mut i: usize = 0;
        while i < self.lives.len()
            invariant
                i <= self.lives@.len(),
                forall|k: int|
                    0 <= k < i ==> #[trigger] cell_of(self.lives@[k]) != (
                    row as nat,
                    col as nat,
                ),
            decreases self.lives@.len() - i,
        {
            let q = self.lives[i];
            if q.0 == row && q.1 == col {
                proof {
                    assert(cell_of(self.lives@[i as int]) == (row as nat, col as nat));
                }
                return true;
            }
            i = i + 1;
        }
        proof {
            if cell_set(self.lives@).contains((row as nat, col as nat)) {
                let k = choose|k: int|
                    0 <= k < self.lives@.len() && (row as nat, col as nat) == #[trigger] cell_of(
                        self.lives@[k],
                    );
                assert(false);
            }
        }
        false
    }
}

} // verus!
