//! Placing glyph and image bitmaps in the renderer's square texture atlas:
//! a shelf packer that fills rows from left to right and starts a new row
//! below the tallest box of the current one.
use vstd::prelude::*;

verus! {

/// A box of the atlas: left, top, width, height.
pub type AtlasBox = (int, int, int, int);

/// Two boxes share no area.
pub open spec fn disjoint(a: AtlasBox, b: AtlasBox) -> bool {
    a.0 + a.2 <= b.0 || b.0 + b.2 <= a.0 || a.1 + a.3 <= b.1 || b.1 + b.3 <= a.1
}

/// A box inside a square atlas of side `size`.
pub open spec fn inside(a: AtlasBox, size: int) -> bool {
    0 <= a.0 && 0 <= a.2 && a.0 + a.2 <= size && 0 <= a.1 && 0 <= a.3 && a.1 + a.3 <= size
}

/// The cursor after moving to a new row when a box of width `w` does not
/// fit in the current one: `(x, y, row height)`.
pub open spec fn row_for(x: int, y: int, row_h: int, size: int, w: int) -> (int, int, int) {
    if x + w > size {
        (0, y + row_h, 0)
    } else {
        (x, y, row_h)
    }
}

/// The packer's arithmetic on these inputs stays within `u32`.
pub open spec fn allocate_in_range(x: int, y: int, row_h: int, size: int, w: int, h: int, pad: int) -> bool {
    let pw = w + 2 * pad;
    let ph = h + 2 * pad;
    &&& pw <= u32::MAX
    &&& ph <= u32::MAX
    &&& (pw > size || ph > size || (x + pw <= u32::MAX && row_for(x, y, row_h, size, pw).1 + ph <= u32::MAX))
}

/// The shelf packer of the texture atlas.
pub struct AtlasPacker {
    x: u32,
    y: u32,
    row_h: u32,
    size: u32,
    placed: Ghost<Seq<AtlasBox>>,
}

impl AtlasPacker {
    /// The boxes handed out so far, padding included, in order.
    pub closed spec fn placed(&self) -> Seq<AtlasBox> {
        self.placed@
    }

    /// The side of the atlas.
    pub closed spec fn side(&self) -> int {
        self.size as int
    }

    /// Where the next box goes: `(x, y, height of the current row)`.
    pub closed spec fn cursor(&self) -> (int, int, int) {
        (self.x as int, self.y as int, self.row_h as int)
    }

    #[verifier::type_invariant]
    closed spec fn inv(&self) -> bool {
        let p = self.placed@;
        &&& self.x <= self.size
        &&& self.y + self.row_h <= self.size
        &&& forall|i: int| 0 <= i < p.len() ==> inside(#[trigger] p[i], self.size as int)
        &&& forall|i: int|
            0 <= i < p.len() ==> (#[trigger] p[i]).1 + p[i].3 <= self.y || (p[i].1 == self.y && p[i].0
                + p[i].2 <= self.x && p[i].3 <= self.row_h)
        &&& forall|i: int, j: int| 0 <= i < p.len() && 0 <= j < p.len() && i != j ==> disjoint(#[trigger] p[i], #[trigger] p[j])
    }

    /// An empty atlas of side `size`.
    pub fn new(size: u32) -> (r: Self)
        ensures
            r.side() == size,
            r.cursor() == (0int, 0int, 0int),
            r.placed() == Seq::<AtlasBox>::empty(),
    {
        AtlasPacker { x: 0, y: 0, row_h: 0, size, placed: Ghost(Seq::empty()) }
    }

    /// Places a `w` by `h` bitmap with `pad` free pixels on each side and
    /// returns where the bitmap itself goes, or `None` when it does not fit.
    /// A box wider than the rest of the row starts a new row, even when it
    /// then does not fit.
    pub fn allocate(&mut self, w: u32, h: u32, pad: u32) -> (r: Option<(u32, u32)>)
        requires
            allocate_in_range(
                old(self).cursor().0,
                old(self).cursor().1,
                old(self).cursor().2,
                old(self).side(),
                w as int,
                h as int,
                pad as int,
            ),
        ensures
            ({
                let pw = w + 2 * pad;
                let ph = h + 2 * pad;
                let s = old(self).side();
                let c = old(self).cursor();
                let n = row_for(c.0, c.1, c.2, s, pw);
                &&& final(self).side() == s
                &&& if pw > s || ph > s {
                    &&& r is None
                    &&& final(self).cursor() == c
                    &&& final(self).placed() == old(self).placed()
                } else if n.1 + ph > s {
                    &&& r is None
                    &&& final(self).cursor() == n
                    &&& final(self).placed() == old(self).placed()
                } else {
                    &&& r == Some(((n.0 + pad) as u32, (n.1 + pad) as u32))
                    &&& final(self).cursor() == (n.0 + pw, n.1, if n.2 >= ph {
                        n.2
                    } else {
                        ph
                    })
                    &&& final(self).placed() == old(self).placed().push((n.0, n.1, pw, ph))
                }
            }),
            r matches Some(o) ==> ({
                let b = (o.0 - pad, o.1 - pad, w + 2 * pad, h + 2 * pad);
                &&& inside(b, old(self).side())
                &&& forall|i: int|
                    0 <= i < old(self).placed().len() ==> disjoint(#[trigger] old(self).placed()[i], b)
            }),
    {
        proof {
            use_type_invariant(&*self);
        }
        let w: u32 = w + pad * 2;
        let h: u32 = h + pad * 2;
        if w > self.size || h > self.size {
            return None;
        }
        let ghost p = self.placed@;
        let size: u32 = self.size;
        let (x, y, row_h): (u32, u32, u32) = if self.x + w > self.size {
            (0, self.y + self.row_h, 0)
        } else {
            (self.x, self.y, self.row_h)
        };
        proof {
            assert forall|i: int| 0 <= i < p.len() implies (#[trigger] p[i]).1 + p[i].3 <= y || (p[i].1
                == y && p[i].0 + p[i].2 <= x && p[i].3 <= row_h) by {}
        }
        if y + h > size {
            *self = AtlasPacker { x, y, row_h, size, placed: Ghost(p) };
            return None;
        }
        let ox: u32 = x + pad;
        let oy: u32 = y + pad;
        let new_h: u32 = if row_h >= h {
            row_h
        } else {
            h
        };
        let ghost b: AtlasBox = (x as int, y as int, w as int, h as int);
        let ghost q = p.push(b);
        proof {
            assert forall|i: int| 0 <= i < p.len() implies disjoint(#[trigger] p[i], b) by {}
            assert forall|i: int| 0 <= i < q.len() implies inside(#[trigger] q[i], size as int) by {
                if i < p.len() {
                    assert(q[i] == p[i]);
                }
            }
            assert forall|i: int|
                0 <= i < q.len() implies (#[trigger] q[i]).1 + q[i].3 <= y || (q[i].1 == y && q[i].0
                + q[i].2 <= x + w && q[i].3 <= new_h) by {
                if i < p.len() {
                    assert(q[i] == p[i]);
                }
            }
            assert forall|i: int, j: int|
                0 <= i < q.len() && 0 <= j < q.len() && i != j implies disjoint(
                #[trigger] q[i],
                #[trigger] q[j],
            ) by {
                if i < p.len() && j < p.len() {
                    assert(q[i] == p[i] && q[j] == p[j]);
                } else if i < p.len() {
                    assert(q[i] == p[i] && q[j] == b);
                } else {
                    assert(q[j] == p[j] && q[i] == b);
                }
            }
        }
        *self = AtlasPacker { x: x + w, y, row_h: new_h, size, placed: Ghost(q) };
        Some((ox, oy))
    }
}

} // verus!
