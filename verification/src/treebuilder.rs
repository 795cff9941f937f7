use vstd::prelude::*;
use crate::generator::{push_shifted, shifted, GROUND_TRIANGLES};

verus! {

/// Kind of an entry the directory walk reports.
#[derive(Clone, Copy, Debug, PartialEq, Eq)]
pub enum EntryKind {
    Dir,
    File,
    Symlink,
    Other,
}

/// Where the ground marker of a directory goes: turned `rot` steps about the
/// vertical axis, `cnt_vert` steps to the side and `cnt` steps up.
#[derive(Clone, Copy, Debug, PartialEq, Eq)]
pub struct GroundPlacement {
    pub rot: u32,
    pub cnt_vert: i64,
    pub cnt: u32,
}

/// The counters the ground mesh keeps while walking: directories placed,
/// the directory count at the last turn, the sideways offset (which grows
/// with every file and flips side at every turn), the number of turns, and
/// the vertex budget (twelve per walked entry).
#[derive(Clone, Copy, Debug, PartialEq, Eq)]
pub struct GroundWalk {
    pub cnt: u32,
    pub cnt_old: u32,
    pub cnt_vert: i64,
    pub rot: u32,
    pub count_vertices: usize,
}

impl GroundWalk {
    /// All counters at zero.
    pub fn new() -> (w: Self)
        ensures
            w.cnt == 0 && w.cnt_old == 0 && w.cnt_vert == 0 && w.rot == 0 && w.count_vertices == 0,
    {
        GroundWalk { cnt: 0, cnt_old: 0, cnt_vert: 0, rot: 0, count_vertices: 0 }
    }

    /// Takes one walked entry. A directory is placed at the current counters
    /// and counted; a file moves the offset one step, and if directories were
    /// placed since the last turn, turns once more, flips the offset to the
    /// other side and remembers the directory count. Other entries only use
    /// up vertex budget.
    pub fn step(&mut self, kind: EntryKind) -> (placed: Option<GroundPlacement>)
        requires
            old(self).count_vertices + 12 <= usize::MAX,
            kind == EntryKind::Dir ==> old(self).cnt < u32::MAX,
            kind == EntryKind::File ==> old(self).cnt_vert < i64::MAX && old(self).rot < u32::MAX,
        ensures
            final(self).count_vertices == old(self).count_vertices + 12,
            kind == EntryKind::Dir ==> placed == Some(
                GroundPlacement { rot: old(self).rot, cnt_vert: old(self).cnt_vert, cnt: old(self).cnt },
            ) && final(self).cnt == old(self).cnt + 1 && final(self).cnt_old == old(self).cnt_old
                && final(self).cnt_vert == old(self).cnt_vert && final(self).rot == old(self).rot,
            kind == EntryKind::File ==> placed is None && final(self).cnt == old(self).cnt
                && if old(self).cnt != old(self).cnt_old {
                &&& final(self).rot == old(self).rot + 1
                &&& final(self).cnt_vert == -(old(self).cnt_vert + 1)
                &&& final(self).cnt_old == old(self).cnt
            } else {
                &&& final(self).rot == old(self).rot
                &&& final(self).cnt_vert == old(self).cnt_vert + 1
                &&& final(self).cnt_old == old(self).cnt_old
            },
            (kind == EntryKind::Symlink || kind == EntryKind::Other) ==> placed is None
                && final(self).cnt == old(self).cnt && final(self).cnt_old == old(self).cnt_old
                && final(self).cnt_vert == old(self).cnt_vert && final(self).rot == old(self).rot,
    {
        self.count_vertices = self.count_vertices + 12;
        match kind {
            EntryKind::Dir => {
                let placed = GroundPlacement { rot: self.rot, cnt_vert: self.cnt_vert, cnt: self.cnt };
                self.cnt = self.cnt + 1;
                Some(placed)
            },
            EntryKind::File => {
                self.cnt_vert = self.cnt_vert + 1;
                if self.cnt != self.cnt_old {
                    self.rot = self.rot + 1;
                    self.cnt_vert = -self.cnt_vert;
                    self.cnt_old = self.cnt;
                }
                None
            },
            EntryKind::Symlink => None,
            EntryKind::Other => None,
        }
    }
}

/// Appends the triangle indices of the ground marker of directory `cnt`,
/// whose twelve corners are stored from index `12 * cnt` on.
pub fn extend_ground_indices(indices: &mut Vec<u32>, cnt: u32)
    requires
        12 * cnt + 11 <= u32::MAX,
    ensures
        final(indices)@ == old(indices)@ + shifted(GROUND_TRIANGLES@, (12 * cnt) as u32),
        final(indices)@.len() == old(indices)@.len() + 12,
        forall|i: int|
            old(indices)@.len() <= i < final(indices)@.len()
            ==> 12 * cnt <= #[trigger] final(indices)@[i] <= 12 * cnt + 11,
{
    let add_indi = 12 * cnt;
    let pattern = GROUND_TRIANGLES;
    proof {
        assert forall|i: int| 0 <= i < pattern@.len() implies #[trigger] pattern@[i] <= 11 by {}
    }
    push_shifted(indices, &pattern, add_indi);
}

} // verus!
