//! Send-side flow-control windows.
//!
//! A [`FlowControl`] holds a window (what the peer allows us to send) and
//! the part of the connection's capacity that is available to the holder.
//! Either may go negative: a SETTINGS decrease can shrink a window below
//! what was already sent.

use vstd::prelude::*;

verus! {

/// Size of a flow-control window increment or a frame payload.
pub type WindowSize = u32;

/// The largest flow-control window allowed by RFC 9113 §6.9.1: 2^31 - 1.
pub const MAX_WINDOW_SIZE: u32 = 2147483647;

/// HTTP/2 error codes that the send path produces.
#[derive(PartialEq, Eq, Structural, Debug, Clone, Copy)]
pub enum Reason {
    NoError,
    ProtocolError,
    FlowControlError,
    RefusedStream,
    Cancel,
}

/// The part of a window that can be used now: the window itself, or 0 when
/// it is negative.
pub open spec fn as_size(w: int) -> int {
    if w < 0 {
        0
    } else {
        w
    }
}

/// A flow-control window and the capacity available against it.
#[derive(Clone, Copy)]
pub struct FlowControl {
    window_size: i32,
    available: i32,
}

impl FlowControl {
    /// The window the peer has granted, in bytes.
    pub closed spec fn window(&self) -> int {
        self.window_size as int
    }

    /// The capacity available to send against the window.
    pub closed spec fn avail(&self) -> int {
        self.available as int
    }

    /// This flow control with its window set to `w`, the available capacity
    /// unchanged.
    pub closed spec fn with_window(self, w: int) -> Self {
        FlowControl { window_size: w as i32, available: self.available }
    }

    /// Setting a window that fits an `i32` gives that window and keeps the
    /// available capacity.
    pub proof fn lemma_with_window(self, w: int)
        requires
            i32::MIN <= w <= i32::MAX,
        ensures
            self.with_window(w).window() == w,
            self.with_window(w).avail() == self.avail(),
    {
    }

    /// A window and available capacity of 0.
    pub closed spec fn spec_zero() -> Self {
        FlowControl { window_size: 0, available: 0 }
    }

    pub proof fn lemma_zero()
        ensures
            Self::spec_zero().window() == 0,
            Self::spec_zero().avail() == 0,
    {
    }

    /// The two figures fit an `i32`, as the wire format demands.
    pub proof fn lemma_bounds(&self)
        ensures
            i32::MIN <= self.window() <= i32::MAX,
            i32::MIN <= self.avail() <= i32::MAX,
    {
    }

    pub fn new() -> (f: Self)
        ensures
            f.window() == 0,
            f.avail() == 0,
    {
        FlowControl { window_size: 0, available: 0 }
    }

    /// Builds a window with both figures given.
    pub fn with_values(window_size: i32, available: i32) -> (f: Self)
        ensures
            f.window() == window_size,
            f.avail() == available,
    {
        FlowControl { window_size, available }
    }

    /// The window, floored at 0.
    pub fn window_size(&self) -> (w: WindowSize)
        ensures
            w == as_size(self.window()),
    {
        if self.window_size < 0 {
            0
        } else {
            self.window_size as u32
        }
    }

    /// The window, which may be negative.
    pub fn signed_window(&self) -> (w: i32)
        ensures
            w == self.window(),
    {
        self.window_size
    }

    /// The available capacity, which may be negative.
    pub fn available(&self) -> (a: i32)
        ensures
            a == self.avail(),
    {
        self.available
    }

    /// The available capacity, floored at 0.
    pub fn available_size(&self) -> (a: WindowSize)
        ensures
            a == as_size(self.avail()),
    {
        if self.available < 0 {
            0
        } else {
            self.available as u32
        }
    }

    /// The window is positive and larger than the available capacity: more
    /// capacity could be assigned without exceeding the window.
    pub open spec fn spec_has_unavailable(&self) -> bool {
        self.window() >= 0 && self.window() > self.avail()
    }

    pub fn has_unavailable(&self) -> (r: bool)
        ensures
            r == self.spec_has_unavailable(),
    {
        if self.window_size < 0 {
            false
        } else {
            self.window_size > self.available
        }
    }

    /// Takes `capacity` away from the available capacity; fails, changing
    /// nothing, when the result would not fit an `i32`.
    pub fn claim_capacity(&mut self, capacity: WindowSize) -> (r: Result<(), Reason>)
        ensures
            old(self).avail() - capacity >= i32::MIN && capacity <= MAX_WINDOW_SIZE ==> r is Ok
                && final(self).avail() == old(self).avail() - capacity && final(self).window()
                == old(self).window(),
            r is Err ==> *final(self) == *old(self) && r == Err::<(), Reason>(
                Reason::FlowControlError,
            ),
            r is Ok ==> final(self).avail() == old(self).avail() - capacity && final(self).window()
                == old(self).window(),
    {
        if capacity > MAX_WINDOW_SIZE {
            return Err(Reason::FlowControlError);
        }
        let c: i32 = capacity as i32;
        match self.available.checked_sub(c) {
            Some(v) => {
                self.available = v;
                Ok(())
            },
            None => Err(Reason::FlowControlError),
        }
    }

    /// Adds `capacity` to the available capacity; fails, changing nothing,
    /// when the result would not fit an `i32`.
    pub fn assign_capacity(&mut self, capacity: WindowSize) -> (r: Result<(), Reason>)
        ensures
            old(self).avail() + capacity <= i32::MAX && capacity <= MAX_WINDOW_SIZE ==> r is Ok && final(self).avail() == old(self).avail() + capacity && final(self).window() == old(self).window(),
            r is Err ==> *final(self) == *old(self) && r == Err::<(), Reason>(
                Reason::FlowControlError,
            ),
            r is Ok ==> final(self).avail() == old(self).avail() + capacity && final(self).window()
                == old(self).window(),
    {
        if capacity > MAX_WINDOW_SIZE {
            return Err(Reason::FlowControlError);
        }
        let c: i32 = capacity as i32;
        match self.available.checked_add(c) {
            Some(v) => {
                self.available = v;
                Ok(())
            },
            None => Err(Reason::FlowControlError),
        }
    }

    /// Grows the window by a WINDOW_UPDATE increment. A window above
    /// `MAX_WINDOW_SIZE` is a flow-control error, and nothing changes.
    pub fn inc_window(&mut self, sz: WindowSize) -> (r: Result<(), Reason>)
        ensures
            old(self).window() + sz <= MAX_WINDOW_SIZE && sz <= MAX_WINDOW_SIZE ==> r is Ok,
            r is Ok ==> final(self).window() == old(self).window() + sz && final(self).avail()
                == old(self).avail() && final(self).window() <= MAX_WINDOW_SIZE && sz
                <= MAX_WINDOW_SIZE,
            r is Ok ==> *final(self) == old(self).with_window(old(self).window() + sz),
            r is Err ==> (old(self).window() + sz > MAX_WINDOW_SIZE || sz > MAX_WINDOW_SIZE)
                && *final(self) == *old(self)
                && r == Err::<(), Reason>(Reason::FlowControlError),
    {
        if sz > MAX_WINDOW_SIZE {
            return Err(Reason::FlowControlError);
        }
        let s: i32 = sz as i32;
        match self.window_size.checked_add(s) {
            Some(v) => {
                if v > MAX_WINDOW_SIZE as i32 {
                    return Err(Reason::FlowControlError);
                }
                self.window_size = v;
                Ok(())
            },
            None => Err(Reason::FlowControlError),
        }
    }

    /// Shrinks the window by `sz` after a SETTINGS decrease; fails, changing
    /// nothing, when the result would not fit an `i32`.
    pub fn dec_send_window(&mut self, sz: WindowSize) -> (r: Result<(), Reason>)
        ensures
            r is Ok <==> old(self).window() - sz >= i32::MIN && sz <= MAX_WINDOW_SIZE,
            r is Ok ==> final(self).window() == old(self).window() - sz && final(self).avail()
                == old(self).avail(),
            r is Err ==> *final(self) == *old(self) && r == Err::<(), Reason>(
                Reason::FlowControlError,
            ),
    {
        if sz > MAX_WINDOW_SIZE {
            return Err(Reason::FlowControlError);
        }
        let s: i32 = sz as i32;
        match self.window_size.checked_sub(s) {
            Some(v) => {
                self.window_size = v;
                Ok(())
            },
            None => Err(Reason::FlowControlError),
        }
    }

    /// Accounts for `sz` bytes of DATA sent: both the window and the
    /// available capacity shrink by `sz`. When either result would not fit an
    /// `i32` nothing changes and a flow-control error is returned.
    pub fn send_data(&mut self, sz: WindowSize) -> (r: Result<(), Reason>)
        ensures
            old(self).window() - sz >= i32::MIN && old(self).avail() - sz >= i32::MIN && sz
                <= MAX_WINDOW_SIZE ==> r is Ok,
            r is Ok ==> final(self).window() == old(self).window() - sz && final(self).avail()
                == old(self).avail() - sz,
            r is Err ==> *final(self) == *old(self) && r == Err::<(), Reason>(
                Reason::FlowControlError,
            ),
    {
        if sz > MAX_WINDOW_SIZE {
            return Err(Reason::FlowControlError);
        }
        let s: i32 = sz as i32;
        match (self.window_size.checked_sub(s), self.available.checked_sub(s)) {
            (Some(w), Some(a)) => {
                self.window_size = w;
                self.available = a;
                Ok(())
            },
            _ => Err(Reason::FlowControlError),
        }
    }
}

} // verus!
