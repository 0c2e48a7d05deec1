//! Where things stand on the screen.

use crate::text::{chars_of, lines, lines_of, views, Chars};
use vstd::prelude::*;

verus! {

/// A rectangle of characters.
#[derive(Clone, Copy, Debug, PartialEq, Eq, Structural)]
pub struct Area {
    pub x: u16,
    pub y: u16,
    pub width: u16,
    pub height: u16,
}

impl Area {
    /// A rectangle of characters.
    pub fn new(x: u16, y: u16, width: u16, height: u16) -> (r: Self)
        ensures
            r == (Area { x, y, width, height }),
    {
        Area { x, y, width, height }
    }
}

/// A rectangle that a screen can hold.
pub open spec fn on_screen(a: Area) -> bool {
    a.x + a.width <= u16::MAX && a.y + a.height <= u16::MAX
}

/// How the body of a page is divided: whether its two panels stand side by
/// side, and their shares of the room in percent.
pub open spec fn division(width: u16) -> (bool, u16, u16) {
    if width >= 110 {
        (true, 38, 62)
    } else if width >= 80 {
        (true, 44, 56)
    } else {
        (false, 43, 57)
    }
}

/// How the body of a page is divided.
pub fn divide(width: u16) -> (r: (bool, u16, u16))
    ensures
        r == division(width),
{
    if width >= 110 {
        (true, 38, 62)
    } else if width >= 80 {
        (true, 44, 56)
    } else {
        (false, 43, 57)
    }
}

/// The share of some room that a number of percent stands for, to the nearest
/// character and up where it lies between two.
pub open spec fn percent(room: u16, share: u16) -> int {
    (room * share + 50) / 100
}

/// An area cut in two: the first part has its share, the second the rest.
pub open spec fn cut(area: Area, side_by_side: bool, first: u16) -> (Area, Area) {
    if side_by_side {
        let w = percent(area.width, first);
        (
            Area { width: w as u16, ..area },
            Area { x: (area.x + w) as u16, width: (area.width - w) as u16, ..area },
        )
    } else {
        let h = percent(area.height, first);
        (
            Area { height: h as u16, ..area },
            Area { y: (area.y + h) as u16, height: (area.height - h) as u16, ..area },
        )
    }
}

/// `ratatui::layout::Layout::split` with two percentages that make up the
/// whole: the parts lie next to each other and cover the area, and the first
/// has its percentage, rounded to the nearest character.
#[verifier::external_body]
fn split_area(area: Area, side_by_side: bool, first: u16, second: u16) -> (r: (Area, Area))
    requires
        on_screen(area),
        first + second == 100,
    ensures
        r == cut(area, side_by_side, first),
{
    let way = [ratatui::layout::Direction::Vertical, ratatui::layout::Direction::Horizontal];
    let parts = ratatui::layout::Layout::default()
        .direction(way[usize::from(side_by_side)])
        .constraints([first, second].map(ratatui::layout::Constraint::Percentage))
        .split(ratatui::layout::Rect::new(area.x, area.y, area.width, area.height));
    let [a, b] = [parts[0], parts[1]];
    (
        Area { x: a.x, y: a.y, width: a.width, height: a.height },
        Area { x: b.x, y: b.y, width: b.width, height: b.height },
    )
}

/// The two panels of a page's body: side by side where there is room, on top
/// of each other on a narrow screen.
pub fn body_panels(area: Area) -> (r: (Area, Area))
    requires
        on_screen(area),
    ensures
        r == cut(area, division(area.width).0, division(area.width).1),
{
    let (side_by_side, first, second) = divide(area.width);
    split_area(area, side_by_side, first, second)
}

/// The panels of a page's body lie in the body, next to each other.
pub proof fn law_panels_cover_the_body(area: Area)
    requires
        on_screen(area),
    ensures
        ({
            let (a, b) = cut(area, division(area.width).0, division(area.width).1);
            &&& a.x == area.x && a.y == area.y
            &&& b.x + b.width == area.x + area.width && b.y + b.height == area.y + area.height
            &&& if division(area.width).0 {
                a.x + a.width == b.x && a.y == b.y && a.height == b.height == area.height
            } else {
                a.y + a.height == b.y && a.x == b.x && a.width == b.width == area.width
            }
        }),
{
    let (side, first, second) = division(area.width);
    let room = if side {
        area.width
    } else {
        area.height
    };
    assert(0 <= (room * first + 50) / 100 <= room) by (nonlinear_arith)
        requires
            room >= 0,
            first == 38 || first == 44 || first == 43,
    ;
}

/// The smaller of two lengths, at least 1, with one to spare at each end.
pub open spec fn inner_length(wanted: u16, room: u16) -> int {
    let most = if room < 2 {
        0
    } else {
        room - 2
    };
    let n = if wanted < most {
        wanted as int
    } else {
        most
    };
    if n < 1 {
        1
    } else {
        n
    }
}

/// Where a length begins that stands in the middle of another.
pub open spec fn middle(start: u16, room: u16, length: int) -> int {
    start + if room < length {
        0
    } else {
        (room - length) / 2
    }
}

/// A rectangle in the middle of an area, as large as wanted if there is room.
pub open spec fn centre(area: Area, width: u16, height: u16) -> Area {
    let w = inner_length(width, area.width);
    let h = inner_length(height, area.height);
    Area {
        x: middle(area.x, area.width, w) as u16,
        y: middle(area.y, area.height, h) as u16,
        width: w as u16,
        height: h as u16,
    }
}

fn length(wanted: u16, room: u16) -> (r: u16)
    ensures
        r == inner_length(wanted, room),
{
    let most: u16 = if room < 2 {
        0
    } else {
        room - 2
    };
    let n: u16 = if wanted < most {
        wanted
    } else {
        most
    };
    if n < 1 {
        1
    } else {
        n
    }
}

/// A rectangle in the middle of an area, as large as wanted if there is room.
pub fn centered(area: Area, desired_width: u16, desired_height: u16) -> (r: Area)
    requires
        on_screen(area),
    ensures
        r == centre(area, desired_width, desired_height),
{
    let width = length(desired_width, area.width);
    let height = length(desired_height, area.height);
    let dx: u16 = if area.width < width {
        0
    } else {
        (area.width - width) / 2
    };
    let dy: u16 = if area.height < height {
        0
    } else {
        (area.height - height) / 2
    };
    Area { x: area.x + dx, y: area.y + dy, width, height }
}

/// A rectangle in the middle of an area that is not empty lies in the area.
pub proof fn law_centred_stays_inside(area: Area, width: u16, height: u16)
    requires
        on_screen(area),
        area.width > 0,
        area.height > 0,
    ensures
        ({
            let c = centre(area, width, height);
            &&& area.x <= c.x && c.x + c.width <= area.x + area.width
            &&& area.y <= c.y && c.y + c.height <= area.y + area.height
        }),
{
}

/// The length of the longest text.
pub open spec fn longest(ls: Seq<Chars>) -> nat
    decreases ls.len(),
{
    if ls.len() == 0 {
        0
    } else if ls.last().len() > longest(ls.drop_last()) {
        ls.last().len()
    } else {
        longest(ls.drop_last())
    }
}

/// How a QR code is shown.
pub struct QrPopup {
    pub popup: Area,
    /// The room that would be needed.
    pub width: u16,
    pub height: u16,
    pub fits: bool,
}

/// A sum that stops at the largest number.
pub open spec fn capped(a: int, b: int) -> int {
    if a + b > u16::MAX {
        u16::MAX as int
    } else {
        a + b
    }
}

fn cap(a: u16, b: u16) -> (r: u16)
    ensures
        r == capped(a as int, b as int),
{
    if a > u16::MAX - b {
        u16::MAX
    } else {
        a + b
    }
}

/// The larger of two numbers.
pub open spec fn at_least(a: int, b: int) -> int {
    if a < b {
        b
    } else {
        a
    }
}

/// How a QR code is shown: in the middle, if it fits with a border and the
/// words around it.
pub fn qr_popup(area: Area, qr: &str) -> (r: QrPopup)
    requires
        on_screen(area),
        longest(lines_of(qr@)) <= u16::MAX,
        lines_of(qr@).len() <= u16::MAX,
    ensures
        ({
            let w = longest(lines_of(qr@)) as int;
            let h = lines_of(qr@).len() as int;
            &&& r.width == at_least(capped(w, 6), 54)
            &&& r.height == at_least(capped(h, 9), 16)
            &&& r.popup == centre(area, r.width, r.height)
            &&& r.fits == (r.popup.width >= capped(w, 4) && r.popup.height >= capped(h, 7))
        }),
{
    let ls = lines(qr);
    let ghost all = lines_of(qr@);
    let count: usize = ls.len();
    let mut widest: usize = 0;
    let mut i: usize = 0;
    assert(all.take(0) =~= Seq::<Chars>::empty());
    while i < ls.len()
        invariant
            i <= ls@.len(),
            views(ls@) == all,
            widest == longest(all.take(i as int)),
        decreases ls@.len() - i,
    {
        proof {
            assert(all.take(i + 1).drop_last() =~= all.take(i as int));
            assert(all.take(i + 1).last() == ls@[i as int]@);
        }
        let chars = chars_of(ls[i].as_str());
        let size: usize = chars.len();
        if size > widest {
            widest = size;
        }
        i = i + 1;
    }
    assert(all.take(i as int) =~= all);
    assert(ls@.len() == all.len());
    let qr_width: u16 = widest as u16;
    let qr_height: u16 = count as u16;
    let wide = cap(qr_width, 6);
    let width: u16 = if wide < 54 {
        54
    } else {
        wide
    };
    let high = cap(qr_height, 9);
    let height: u16 = if high < 16 {
        16
    } else {
        high
    };
    let popup = centered(area, width, height);
    let fits = popup.width >= cap(qr_width, 4) && popup.height >= cap(qr_height, 7);
    QrPopup { popup, width, height, fits }
}

} // verus!
