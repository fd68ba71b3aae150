//! Layout geometry for the terminal frame: the fixed panel split and the
//! centered modal rectangle with its minimum-size floor.

use vstd::math::max;
use vstd::math::min;
use vstd::prelude::*;

verus! {

/// An axis-aligned rectangle of terminal cells.
#[derive(Clone, Copy, PartialEq, Eq, Structural, Debug)]
pub struct Rect {
    pub x: u16,
    pub y: u16,
    pub width: u16,
    pub height: u16,
}

impl Rect {
    pub fn new(x: u16, y: u16, width: u16, height: u16) -> (r: Rect)
        ensures
            r.x == x,
            r.y == y,
            r.width == width,
            r.height == height,
    {
        Rect { x, y, width, height }
    }
}

/// The percentage actually used on one axis: the caller's request, raised to
/// the percentage that an absolute minimum length takes of the container,
/// capped at the whole container.
pub open spec fn eff_pct(pct: u16, total: u16, min_len: u16) -> int {
    max(pct as int, min((min_len as int) * 100 / (total as int), 100))
}

/// The side length of the centered rectangle on one axis: the effective
/// percentage of the container, never below the minimum length that fits,
/// never above the container.
pub open spec fn center_len(total: u16, pct: u16, min_len: u16) -> int {
    min(
        total as int,
        max((total as int) * eff_pct(pct, total, min_len) / 100, min(min_len as int, total as int)),
    )
}

fn centered_len_exec(total: u16, pct: u16, min_len: u16) -> (len: u16)
    requires
        total > 0,
        pct <= 100,
    ensures
        len as int == center_len(total, pct, min_len),
        min(min_len as int, total as int) <= len as int <= total as int,
{
    let fl0: u32 = (min_len as u32) * 100 / (total as u32);
    let fl: u32 = if fl0 > 100 {
        100
    } else {
        fl0
    };
    let p: u32 = pct as u32;
    let eff: u32 = if p > fl {
        p
    } else {
        fl
    };
    proof {
        assert(eff <= 100);
        assert((total as u32) * eff <= 65535 * 100) by (nonlinear_arith)
            requires
                eff <= 100,
                total as u32 <= 65535,
        ;
    }
    let want: u32 = (total as u32) * eff / 100;
    let mn: u16 = if min_len <= total {
        min_len
    } else {
        total
    };
    let mut len: u16 = if want > total as u32 {
        total
    } else {
        want as u16
    };
    if len < mn {
        len = mn;
    }
    len
}

/// A rectangle of the requested percentages, centered in `r`, never smaller
/// than 40 columns by 8 rows as far as the container allows, and never
/// larger than the container.
pub fn centered_rect(percent_x: u16, percent_y: u16, r: Rect) -> (res: Rect)
    requires
        r.width > 0,
        r.height > 0,
        percent_x <= 100,
        percent_y <= 100,
        r.x + r.width <= u16::MAX,
        r.y + r.height <= u16::MAX,
    ensures
        res.width as int == center_len(r.width, percent_x, 40),
        res.height as int == center_len(r.height, percent_y, 8),
        res.x as int == r.x + (r.width - res.width) / 2,
        res.y as int == r.y + (r.height - res.height) / 2,
        min(40, r.width as int) <= res.width as int <= r.width as int,
        min(8, r.height as int) <= res.height as int <= r.height as int,
        r.x <= res.x && res.x + res.width <= r.x + r.width,
        r.y <= res.y && res.y + res.height <= r.y + r.height,
{
    let width = centered_len_exec(r.width, percent_x, 40);
    let height = centered_len_exec(r.height, percent_y, 8);
    let x = r.x + (r.width - width) / 2;
    let y = r.y + (r.height - height) / 2;
    Rect { x, y, width, height }
}

/// Rows of the fixed header at the top of the frame.
pub open spec fn header_height(h: u16) -> int {
    min(3, h as int)
}

/// Rows of the flexible middle region: whatever the header and the bottom
/// region leave over.
pub open spec fn middle_height(h: u16) -> int {
    if h as int - header_height(h) > 7 {
        h as int - header_height(h) - 7
    } else {
        0
    }
}

/// Rows of the bottom region: 7 where the frame allows it.
pub open spec fn bottom_height(h: u16) -> int {
    h as int - header_height(h) - middle_height(h)
}

/// Splits the frame top-to-bottom into a header, a flexible middle region
/// and a bottom region, and the bottom region left/right into two halves.
/// Returns them as header, middle, bottom-left, bottom-right.
pub fn create_layout(area: Rect) -> (v: Vec<Rect>)
    requires
        area.x + area.width <= u16::MAX,
        area.y + area.height <= u16::MAX,
    ensures
        v@.len() == 4,
        v@[0].x == area.x && v@[0].y == area.y && v@[0].width == area.width,
        v@[0].height as int == header_height(area.height),
        v@[1].x == area.x && v@[1].width == area.width,
        v@[1].y as int == area.y + header_height(area.height),
        v@[1].height as int == middle_height(area.height),
        v@[2].y as int == area.y + header_height(area.height) + middle_height(area.height),
        v@[3].y == v@[2].y,
        v@[2].height as int == bottom_height(area.height),
        v@[3].height == v@[2].height,
        v@[2].x == area.x && v@[2].width == area.width / 2,
        v@[3].x as int == area.x + area.width / 2,
        v@[3].width as int == area.width as int - area.width as int / 2,
        header_height(area.height) + middle_height(area.height) + bottom_height(area.height)
            == area.height as int,
        area.height >= 20 ==> v@[0].height == 3 && v@[1].height >= 10 && v@[2].height == 7,
{
    let h0: u16 = if area.height < 3 {
        area.height
    } else {
        3
    };
    let rest: u16 = area.height - h0;
    let hm: u16 = if rest > 7 {
        rest - 7
    } else {
        0
    };
    let hb: u16 = rest - hm;
    let wl: u16 = area.width / 2;
    let wr: u16 = area.width - wl;
    let header = Rect { x: area.x, y: area.y, width: area.width, height: h0 };
    let middle = Rect { x: area.x, y: area.y + h0, width: area.width, height: hm };
    let by = area.y + h0 + hm;
    let left = Rect { x: area.x, y: by, width: wl, height: hb };
    let right = Rect { x: area.x + wl, y: by, width: wr, height: hb };
    let mut v: Vec<Rect> = Vec::new();
    v.push(header);
    v.push(middle);
    v.push(left);
    v.push(right);
    v
}

} // verus!
