use vstd::prelude::*;

verus! {

/// Where the next line of the on-screen file listing goes, counted in pixels
/// from the top-left corner of the window.
#[derive(Clone, Copy, Debug, PartialEq, Eq)]
pub struct ListingLayout {
    pub cnt_x: u32,
    pub cnt_y: u32,
}

/// One line of the listing: its offsets from the top-left corner, and whether
/// it is the heading line that shows the directory's path.
#[derive(Clone, Copy, Debug, PartialEq, Eq)]
pub struct ListingSlot {
    pub x: u32,
    pub y: u32,
    pub heading: bool,
}

impl ListingLayout {
    /// The listing starts 50 pixels right of and below the corner.
    pub fn new() -> (l: Self)
        ensures
            l.cnt_x == 50 && l.cnt_y == 50,
    {
        ListingLayout { cnt_x: 50, cnt_y: 50 }
    }

    /// Hands out the next line. The first line (at height 50) is the heading
    /// and is followed by a gap of 40; later lines are 20 apart, and once a
    /// column passes height 400 the next column starts 50 further right at
    /// height 90.
    pub fn next_slot(&mut self) -> (slot: ListingSlot)
        requires
            old(self).cnt_y + 40 <= u32::MAX,
            old(self).cnt_y != 50 && old(self).cnt_y + 20 > 400 ==> old(self).cnt_x + 50 <= u32::MAX,
        ensures
            slot == (ListingSlot {
                x: old(self).cnt_x,
                y: old(self).cnt_y,
                heading: old(self).cnt_y == 50,
            }),
            old(self).cnt_y == 50 ==> final(self).cnt_x == old(self).cnt_x && final(self).cnt_y == 90,
            old(self).cnt_y != 50 && old(self).cnt_y + 20 > 400 ==> final(self).cnt_x == old(self).cnt_x
                + 50 && final(self).cnt_y == 90,
            old(self).cnt_y != 50 && old(self).cnt_y + 20 <= 400 ==> final(self).cnt_x == old(self).cnt_x
                && final(self).cnt_y == old(self).cnt_y + 20,
    {
        let slot = ListingSlot { x: self.cnt_x, y: self.cnt_y, heading: self.cnt_y == 50 };
        if self.cnt_y == 50 {
            self.cnt_y = self.cnt_y + 40;
        } else {
            self.cnt_y = self.cnt_y + 20;
            if self.cnt_y > 400 {
                self.cnt_x = self.cnt_x + 50;
                self.cnt_y = 90;
            }
        }
        slot
    }
}

} // verus!
