//! The set of previously seen board contents, used to enforce the superko
//! rule: a move is illegal when the board it produces has occurred before.
//! Held as a vector of distinct snapshots; membership is decided by comparing
//! cell sequences.

use vstd::prelude::*;
use crate::board::PointState;

verus! {

/// Compares two cell vectors point by point.
fn cells_equal(a: &Vec<PointState>, b: &Vec<PointState>) -> (r: bool)
    ensures
        r == (a@ == b@),
{
    if a.len() != b.len() {
        return false;
    }
    let mut i: usize = 0;
    while i < a.len()
        invariant
            i <= a@.len(),
            a@.len() == b@.len(),
            forall|k: int| 0 <= k < i ==> a@[k] == b@[k],
        decreases a@.len() - i,
    {
        if a[i] != b[i] {
            return false;
        }
        i = i + 1;
    }
    proof {
        assert(a@ =~= b@);
    }
    true
}

/// Copies a cell vector.
pub fn copy_cells(v: &Vec<PointState>) -> (r: Vec<PointState>)
    ensures
        r@ == v@,
{
    let mut cells: Vec<PointState> = Vec::new();
    let mut i: usize = 0;
    while i < v.len()
        invariant
            i <= v@.len(),
            cells@ == v@.subrange(0, i as int),
        decreases v@.len() - i,
    {
        cells.push(v[i]);
        i = i + 1;
    }
    proof {
        assert(cells@ =~= v@);
    }
    cells
}

/// The boards a game (or a simulated playout) has passed through. Grows
/// monotonically; each playout owns its own copy.
#[derive(Debug)]
pub struct BoardHistory {
    pub snapshots: Vec<Vec<PointState>>,
}

impl BoardHistory {
    /// The recorded board contents, as a set of cell sequences.
    pub open spec fn to_set(self) -> Set<Seq<PointState>> {
        Set::new(
            |b: Seq<PointState>|
                exists|k: int| 0 <= k < self.snapshots@.len() && self.snapshots@[k]@ == b,
        )
    }

    /// No board is recorded twice.
    pub open spec fn wf(self) -> bool {
        forall|k1: int, k2: int|
            0 <= k1 < k2 < self.snapshots@.len() ==> self.snapshots@[k1]@ != self.snapshots@[k2]@
    }

    /// An empty history.
    pub fn new() -> (r: BoardHistory)
        ensures
            r.to_set() == Set::<Seq<PointState>>::empty(),
            r.wf(),
            r.snapshots@.len() == 0,
    {
        let r = BoardHistory { snapshots: Vec::new() };
        proof {
            assert(r.to_set() =~= Set::<Seq<PointState>>::empty());
        }
        r
    }

    /// Whether this board has been seen.
    pub fn contains_board(&self, cells: &Vec<PointState>) -> (r: bool)
        ensures
            r == self.to_set().contains(cells@),
    {
        let mut i: usize = 0;
        while i < self.snapshots.len()
            invariant
                i <= self.snapshots@.len(),
                forall|k: int| 0 <= k < i ==> self.snapshots@[k]@ != cells@,
            decreases self.snapshots@.len() - i,
        {
            if cells_equal(&self.snapshots[i], cells) {
                return true;
            }
            i = i + 1;
        }
        false
    }

    /// Records a board; a board already present is not recorded again.
    pub fn insert(&mut self, cells: &Vec<PointState>)
        requires
            old(self).wf(),
        ensures
            final(self).to_set() == old(self).to_set().insert(cells@),
            final(self).wf(),
            final(self).snapshots@.len() <= old(self).snapshots@.len() + 1,
    {
        if !self.contains_board(cells) {
            let c = copy_cells(cells);
            let ghost prev = self.snapshots@;
            self.snapshots.push(c);
            proof {
                assert forall|b: Seq<PointState>|
                    self.to_set().contains(b) == old(self).to_set().insert(cells@).contains(
                    b,
                ) by {
                    if self.to_set().contains(b) {
                        let k = choose|k: int|
                            0 <= k < self.snapshots@.len() && self.snapshots@[k]@ == b;
                        if k < prev.len() {
                            assert(old(self).snapshots@[k]@ == b);
                        }
                    }
                    if old(self).to_set().contains(b) {
                        let k = choose|k: int| 0 <= k < prev.len() && prev[k]@ == b;
                        assert(self.snapshots@[k]@ == b);
                    }
                    if b == cells@ {
                        assert(self.snapshots@[prev.len() as int]@ == b);
                    }
                }
                assert(self.to_set() =~= old(self).to_set().insert(cells@));
            }
        } else {
            proof {
                assert(self.to_set() =~= old(self).to_set().insert(cells@));
            }
        }
    }

    /// The number of recorded boards.
    pub fn len(&self) -> (r: usize)
        ensures
            r == self.snapshots@.len(),
    {
        self.snapshots.len()
    }

    /// An identical copy, for a playout or a search branch of its own.
    pub fn duplicate(&self) -> (r: BoardHistory)
        ensures
            r.to_set() == self.to_set(),
            self.wf() ==> r.wf(),
            r.snapshots@.len() == self.snapshots@.len(),
    {
        let mut snaps: Vec<Vec<PointState>> = Vec::new();
        let mut i: usize = 0;
        while i < self.snapshots.len()
            invariant
                i <= self.snapshots@.len(),
                snaps@.len() == i,
                forall|k: int| 0 <= k < i ==> snaps@[k]@ == #[trigger] self.snapshots@[k]@,
            decreases self.snapshots@.len() - i,
        {
            let c = copy_cells(&self.snapshots[i]);
            snaps.push(c);
            i = i + 1;
        }
        let r = BoardHistory { snapshots: snaps };
        proof {
            assert forall|b: Seq<PointState>|
                r.to_set().contains(b) == self.to_set().contains(b) by {
                if r.to_set().contains(b) {
                    let k = choose|k: int| 0 <= k < r.snapshots@.len() && r.snapshots@[k]@ == b;
                    assert(self.snapshots@[k]@ == b);
                }
                if self.to_set().contains(b) {
                    let k = choose|k: int|
                        0 <= k < self.snapshots@.len() && self.snapshots@[k]@ == b;
                    assert(r.snapshots@[k]@ == b);
                }
            }
            assert(r.to_set() =~= self.to_set());
            if self.wf() {
                assert forall|k1: int, k2: int|
                    0 <= k1 < k2 < r.snapshots@.len() implies r.snapshots@[k1]@
                    != r.snapshots@[k2]@ by {
                    assert(r.snapshots@[k1]@ == self.snapshots@[k1]@);
                    assert(r.snapshots@[k2]@ == self.snapshots@[k2]@);
                }
            }
        }
        r
    }
}

} // verus!
