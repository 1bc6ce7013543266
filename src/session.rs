//! State of one continuous drag of a resizer.
use vstd::prelude::*;

verus! {

/// Drag state kept from pointer-down to pointer-up: the last pointer
/// position, the offset of the pointer from the resizer at pointer-down, and
/// the cartons shrunk during this drag as `(position, former size)`, oldest
/// first. It is cleared at pointer-up, so that no drag sees another's cache.
pub struct DragSession {
    pub pos: Option<i64>,
    pub shift: Option<i64>,
    pub cache: Vec<(usize, u32)>,
}

/// Whether `x` lies between the least and the greatest `i32`.
pub open spec fn in_i32(x: int) -> bool {
    i32::MIN <= x <= i32::MAX
}

impl DragSession {
    /// Positions are pointer positions and the offset is a difference of two.
    pub open spec fn wf(&self) -> bool {
        &&& (self.pos matches Some(p) ==> in_i32(p as int))
        &&& (self.shift matches Some(s) ==> -0x1_0000_0000 <= s <= 0x1_0000_0000)
    }

    /// Distance of a pointer move to `client_pos`, with the resizer's front at
    /// `resizer_front`: the pointer's distance from where the resizer would be
    /// under it at pointer-down. `None` outside of a drag, on the first move
    /// after a reset, when the pointer or the distance is zero, or when the
    /// pointer moves against the distance.
    pub open spec fn drag_spec(&self, client_pos: i32, resizer_front: i32) -> Option<int> {
        match (self.shift, self.pos) {
            (Some(shift), Some(pos0)) => {
                let delta = client_pos - (resizer_front - shift);
                let moving = client_pos - pos0;
                if moving == 0 || delta == 0 || (moving > 0) != (delta > 0) { None } else { Some(delta) }
            },
            _ => None,
        }
    }

    /// Last position after a pointer move to `client_pos`.
    pub open spec fn moved_pos(&self, client_pos: i32) -> Option<i64> {
        if self.shift.is_some() { Some(client_pos as i64) } else { self.pos }
    }

    /// A session outside of any drag.
    pub fn new() -> (r: Self)
        ensures
            r.wf(),
            r.pos.is_none(),
            r.shift.is_none(),
            r.cache@.len() == 0,
    {
        DragSession { pos: None, shift: None, cache: Vec::new() }
    }

    /// Starts a drag: the pointer is at `client_pos` and the resizer's front
    /// at `resizer_front`.
    pub fn pointer_down(&mut self, client_pos: i32, resizer_front: i32)
        ensures
            final(self).wf(),
            final(self).shift == Some((client_pos - resizer_front) as i64),
            final(self).pos == Some(client_pos as i64),
            final(self).cache@ == old(self).cache@,
    {
        self.shift = Some(client_pos as i64 - resizer_front as i64);
        self.pos = Some(client_pos as i64);
    }

    /// Ends a drag: everything is cleared.
    pub fn pointer_up(&mut self)
        ensures
            final(self).wf(),
            final(self).pos.is_none(),
            final(self).shift.is_none(),
            final(self).cache@.len() == 0,
    {
        self.cache = Vec::new();
        self.shift = None;
        self.pos = None;
    }

    /// A pointer move to `client_pos`: gives the drag distance of
    /// [`DragSession::drag_spec`], and keeps `client_pos` as last position
    /// when a drag is going on.
    pub fn drag_delta(&mut self, client_pos: i32, resizer_front: i32) -> (r: Option<i64>)
        requires
            old(self).wf(),
        ensures
            final(self).wf(),
            r matches Some(d) ==> old(self).drag_spec(client_pos, resizer_front) == Some(d as int),
            r is None ==> old(self).drag_spec(client_pos, resizer_front) is None,
            final(self).pos == old(self).moved_pos(client_pos),
            final(self).shift == old(self).shift,
            final(self).cache@ == old(self).cache@,
    {
        let shift = match self.shift {
            Some(s) => s,
            None => return None,
        };
        let front: i64 = resizer_front as i64 - shift;
        let delta: i64 = client_pos as i64 - front;
        let pos0 = self.pos;
        self.pos = Some(client_pos as i64);
        let pos0 = match pos0 {
            Some(p) => p,
            None => return None,
        };
        let moving: i64 = client_pos as i64 - pos0;
        if moving == 0 || delta == 0 || (moving > 0) != (delta > 0) {
            return None;
        }
        Some(delta)
    }
}

} // verus!
